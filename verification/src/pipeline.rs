//! The per-item decisions of the pipeline's stages.
//!
//! The stages run concurrently and talk over channels; that wiring is
//! the caller's part. What stands here is what each stage does with
//! one item: the locals stage validates a candidate, records it, and
//! forwards each remote address at most once; the remotes stage
//! classifies its outcome. The dedup sets are shared dashmap sets, as
//! the concurrent stages require.

use vstd::prelude::*;

use dashmap::DashSet;

use crate::data::{Link, LinkV, Repo, RepoV, Outcome, distinct_strings};
use crate::git::outcome;
use crate::sets::{dedup_contents, dedup_new, dedup_insert, dedup_len};

verus! {

/// The addresses of a remote listing, in listing order.
pub open spec fn addrs_of(remotes: Seq<(Seq<char>, Seq<char>)>) -> Seq<Seq<char>> {
    remotes.map_values(|p: (Seq<char>, Seq<char>)| p.1)
}

/// The addresses a repository contributes, or none at all.
pub open spec fn contributed_addrs(repo: Option<Repo>) -> Seq<Seq<char>> {
    match repo {
        Some(r) => addrs_of(r.remotes.deep_view()),
        None => Seq::empty(),
    }
}

/// The addresses that are forwarded out of a listing, against a set of
/// addresses already seen: each address that is neither seen already
/// nor an earlier repeat within the listing, in listing order.
pub open spec fn new_addrs(addrs: Seq<Seq<char>>, seen: Set<Seq<char>>) -> Seq<Seq<char>>
    decreases addrs.len(),
{
    if addrs.len() == 0 {
        Seq::empty()
    } else {
        let rest = new_addrs(addrs.drop_last(), seen);
        if seen.contains(addrs.last()) || addrs.drop_last().contains(addrs.last()) {
            rest
        } else {
            rest.push(addrs.last())
        }
    }
}

/// The shared state of one pipeline run: the inspecting host's name
/// and the dedup sets — local repositories found, remote addresses
/// already forwarded, and remote outcomes by kind.
pub struct Pipeline {
    pub host: String,
    pub locals: DashSet<String>,
    pub seen_urls: DashSet<String>,
    pub remotes_ok: DashSet<String>,
    pub remotes_err: DashSet<String>,
}

impl Pipeline {
    /// The sets hold finitely many values; true of every reachable
    /// state.
    pub open spec fn wf(self) -> bool {
        &&& dedup_contents(self.locals).finite()
        &&& dedup_contents(self.seen_urls).finite()
        &&& dedup_contents(self.remotes_ok).finite()
        &&& dedup_contents(self.remotes_err).finite()
    }

    /// A fresh run: nothing found, nothing forwarded.
    pub fn new(host: String) -> (p: Pipeline)
        ensures
            p.wf(),
            p.host@ == host@,
            dedup_contents(p.locals) == Set::<Seq<char>>::empty(),
            dedup_contents(p.seen_urls) == Set::<Seq<char>>::empty(),
            dedup_contents(p.remotes_ok) == Set::<Seq<char>>::empty(),
            dedup_contents(p.remotes_err) == Set::<Seq<char>>::empty(),
    {
        Pipeline {
            host,
            locals: dedup_new(),
            seen_urls: dedup_new(),
            remotes_ok: dedup_new(),
            remotes_err: dedup_new(),
        }
    }

    /// The locals stage's decision for one candidate directory.
    ///
    /// A candidate that is no repository is dropped without a trace.
    /// Otherwise the outcome record is built, the directory is noted,
    /// and of the repository's remote addresses exactly those that no
    /// repository of this run has contributed before are handed back
    /// for the remotes stage, in listing order, each at most once per
    /// run.
    pub fn process_local(&mut self, dir: String, present: bool, repo: Option<Repo>) -> (r: Option<
        (Outcome, Vec<String>),
    >)
        requires
            old(self).wf(),
        ensures
            final(self).wf(),
            final(self).host == old(self).host,
            dedup_contents(final(self).remotes_ok) == dedup_contents(old(self).remotes_ok),
            dedup_contents(final(self).remotes_err) == dedup_contents(old(self).remotes_err),
            !present ==> r is None && final(self).locals == old(self).locals
                && final(self).seen_urls == old(self).seen_urls,
            present ==> (r matches Some((v, urls)) && {
                &&& v.host@ == old(self).host@
                &&& v.link@ == (LinkV::Fs { dir: dir@ })
                &&& v@.repo == match repo {
                    Some(ref rp) => Some(rp@),
                    None => None::<RepoV>,
                }
                &&& v.wf() == match repo {
                    Some(ref rp) => rp.wf(),
                    None => true,
                }
                &&& dedup_contents(final(self).locals)
                    == dedup_contents(old(self).locals).insert(dir@)
                &&& urls.deep_view() == new_addrs(
                    contributed_addrs(repo),
                    dedup_contents(old(self).seen_urls),
                )
                &&& dedup_contents(final(self).seen_urls) == dedup_contents(
                    old(self).seen_urls,
                ).union(contributed_addrs(repo).to_set())
            }),
    {
        if !present {
            return None;
        }
        let _ = dedup_insert(&mut self.locals, dir.clone());
        let mut urls: Vec<String> = Vec::new();
        let ghost seen0 = dedup_contents(self.seen_urls);
        let ghost addrs = contributed_addrs(repo);
        match &repo {
            None => {
                proof {
                    assert(addrs.to_set() =~= Set::<Seq<char>>::empty());
                    assert(seen0.union(addrs.to_set()) =~= seen0);
                }
            },
            Some(rp) => {
                let n = rp.remotes.len();
                let mut i: usize = 0;
                while i < n
                    invariant
                        0 <= i <= n == rp.remotes@.len(),
                        addrs == addrs_of(rp.remotes.deep_view()),
                        addrs.len() == n,
                        seen0.finite(),
                        self.host == old(self).host,
                        dedup_contents(self.locals)
                            == dedup_contents(old(self).locals).insert(dir@),
                        dedup_contents(self.locals).finite(),
                        self.remotes_ok == old(self).remotes_ok,
                        self.remotes_err == old(self).remotes_err,
                        dedup_contents(self.seen_urls) == seen0.union(
                            addrs.subrange(0, i as int).to_set(),
                        ),
                        dedup_contents(self.seen_urls).finite(),
                        urls.deep_view() == new_addrs(addrs.subrange(0, i as int), seen0),
                    decreases n - i,
                {
                    let url = rp.remotes[i].1.clone();
                    proof {
                        assert(addrs[i as int] == rp.remotes.deep_view()[i as int].1);
                        assert(addrs.subrange(0, i + 1).drop_last() =~= addrs.subrange(0, i as int));
                        assert(addrs.subrange(0, i + 1).last() == addrs[i as int]);
                    }
                    let ghost prefix = addrs.subrange(0, i as int);
                    let ghost seen_now = dedup_contents(self.seen_urls);
                    let newly = dedup_insert(&mut self.seen_urls, url.clone());
                    proof {
                        crate::text::lemma_contains_push(prefix, addrs[i as int], addrs[i as int]);
                        assert(prefix.push(addrs[i as int]) =~= addrs.subrange(0, i + 1));
                        assert forall|x: Seq<char>| seen_now.insert(addrs[i as int]).contains(x)
                            <==> seen0.union(addrs.subrange(0, i + 1).to_set()).contains(x) by {
                            crate::text::lemma_contains_push(prefix, addrs[i as int], x);
                        }
                        assert(seen_now.insert(addrs[i as int])
                            =~= seen0.union(addrs.subrange(0, i + 1).to_set()));
                        assert(newly == !(seen0.contains(addrs[i as int])
                            || prefix.contains(addrs[i as int])));
                    }
                    if newly {
                        let ghost prev = urls.deep_view();
                        urls.push(url);
                        proof {
                            assert(urls.deep_view() =~= prev.push(addrs[i as int]));
                        }
                    }
                    i = i + 1;
                }
                proof {
                    assert(addrs.subrange(0, n as int) =~= addrs);
                }
            },
        }
        let link = Link::Fs { dir };
        let v = outcome(self.host.as_str(), &link, repo);
        Some((v, urls))
    }

    /// The remotes stage's decision for one deduplicated address: the
    /// outcome record is built, and the address is classified by
    /// whether inspection yielded facts.
    pub fn process_remote(&mut self, url: String, repo: Option<Repo>) -> (v: Outcome)
        requires
            old(self).wf(),
        ensures
            final(self).wf(),
            final(self).host == old(self).host,
            final(self).locals == old(self).locals,
            final(self).seen_urls == old(self).seen_urls,
            v.host@ == old(self).host@,
            v.link@ == (LinkV::Net { url: url@ }),
            v@.repo == match repo {
                Some(ref rp) => Some(rp@),
                None => None::<RepoV>,
            },
            repo is Some ==> dedup_contents(final(self).remotes_ok)
                == dedup_contents(old(self).remotes_ok).insert(url@)
                && final(self).remotes_err == old(self).remotes_err,
            repo is None ==> dedup_contents(final(self).remotes_err)
                == dedup_contents(old(self).remotes_err).insert(url@)
                && final(self).remotes_ok == old(self).remotes_ok,
    {
        let link = Link::Net { url: url.clone() };
        let v = outcome(self.host.as_str(), &link, repo);
        if v.repo.is_some() {
            let _ = dedup_insert(&mut self.remotes_ok, url);
        } else {
            let _ = dedup_insert(&mut self.remotes_err, url);
        }
        v
    }

    /// The final tally of a run: local repositories found, remote
    /// inspections that yielded facts, remote inspections that failed.
    pub fn counts(&self) -> (c: (usize, usize, usize))
        requires
            self.wf(),
        ensures
            c.0 == dedup_contents(self.locals).len(),
            c.1 == dedup_contents(self.remotes_ok).len(),
            c.2 == dedup_contents(self.remotes_err).len(),
    {
        (dedup_len(&self.locals), dedup_len(&self.remotes_ok), dedup_len(&self.remotes_err))
    }
}

/// The forwarded addresses of one repository never repeat themselves,
/// never repeat an address already seen, and are exactly the listing's
/// addresses that were not yet seen.
pub proof fn lemma_new_addrs_exact(addrs: Seq<Seq<char>>, seen: Set<Seq<char>>)
    ensures
        distinct_strings(new_addrs(addrs, seen)),
        forall|x: Seq<char>| new_addrs(addrs, seen).contains(x)
            <==> addrs.contains(x) && !seen.contains(x),
    decreases addrs.len(),
{
    if addrs.len() > 0 {
        let rest = new_addrs(addrs.drop_last(), seen);
        let a = addrs.last();
        lemma_new_addrs_exact(addrs.drop_last(), seen);
        assert forall|x: Seq<char>| addrs.contains(x)
            implies addrs.drop_last().contains(x) || x == a by {
            let i = choose|i: int| 0 <= i < addrs.len() && addrs[i] == x;
            if i < addrs.len() - 1 {
                assert(addrs.drop_last()[i] == x);
            }
        }
        assert forall|x: Seq<char>| addrs.drop_last().contains(x) implies addrs.contains(x) by {
            let i = choose|i: int| 0 <= i < addrs.drop_last().len() && addrs.drop_last()[i] == x;
            assert(addrs[i] == x);
        }
        assert(addrs.contains(a));
        if !(seen.contains(a) || addrs.drop_last().contains(a)) {
            assert forall|x: Seq<char>| rest.push(a).contains(x)
                implies addrs.contains(x) && !seen.contains(x) by {
                crate::text::lemma_contains_push(rest, a, x);
            }
            assert forall|x: Seq<char>| addrs.contains(x) && !seen.contains(x)
                implies rest.push(a).contains(x) by {
                crate::text::lemma_contains_push(rest, a, x);
            }
            assert forall|i: int, j: int| 0 <= i < j < rest.push(a).len()
                implies rest.push(a)[i] != rest.push(a)[j] by {
                if j == rest.len() {
                    assert(rest.contains(rest[i]));
                }
            }
        }
    }
}

/// Dedup across repositories: what a later repository forwards,
/// against the seen-set a first repository left behind, never repeats
/// what the first forwarded, and the two together forward exactly the
/// distinct unseen addresses of both listings.
pub proof fn lemma_dedup_across(addrs1: Seq<Seq<char>>, addrs2: Seq<Seq<char>>, seen: Set<Seq<char>>)
    ensures
        distinct_strings(
            new_addrs(addrs1, seen) + new_addrs(addrs2, seen.union(addrs1.to_set())),
        ),
        (new_addrs(addrs1, seen) + new_addrs(addrs2, seen.union(addrs1.to_set()))).to_set()
            =~= (addrs1 + addrs2).to_set().difference(seen),
{
    let u1 = new_addrs(addrs1, seen);
    let u2 = new_addrs(addrs2, seen.union(addrs1.to_set()));
    lemma_new_addrs_exact(addrs1, seen);
    lemma_new_addrs_exact(addrs2, seen.union(addrs1.to_set()));
    assert forall|i: int, j: int| 0 <= i < j < (u1 + u2).len()
        implies (u1 + u2)[i] != (u1 + u2)[j] by {
        if j < u1.len() {
            assert((u1 + u2)[i] == u1[i]);
            assert((u1 + u2)[j] == u1[j]);
        } else if i >= u1.len() {
            assert((u1 + u2)[i] == u2[i - u1.len()]);
            assert((u1 + u2)[j] == u2[j - u1.len()]);
        } else {
            let a = u1[i];
            let b = u2[j - u1.len()];
            assert((u1 + u2)[i] == a);
            assert((u1 + u2)[j] == b);
            assert(u1.contains(a));
            assert(u2.contains(b));
            assert(addrs1.contains(a));
            assert(!seen.union(addrs1.to_set()).contains(b));
            assert(addrs1.to_set().contains(a));
        }
    }
    assert forall|x: Seq<char>| (u1 + u2).to_set().contains(x)
        == (addrs1 + addrs2).to_set().difference(seen).contains(x) by {
        crate::text::lemma_add_contains(u1, u2, x);
        crate::text::lemma_add_contains(addrs1, addrs2, x);
        if (u1 + u2).contains(x) {
            if u1.contains(x) {
                assert(addrs1.contains(x) && !seen.contains(x));
            } else {
                assert(u2.contains(x));
                assert(addrs2.contains(x) && !seen.union(addrs1.to_set()).contains(x));
            }
            assert((addrs1 + addrs2).contains(x) && !seen.contains(x));
        }
        if (addrs1 + addrs2).contains(x) && !seen.contains(x) {
            if addrs1.contains(x) {
                assert(u1.contains(x));
            } else {
                assert(addrs2.contains(x));
                assert(!addrs1.to_set().contains(x));
                assert(!seen.union(addrs1.to_set()).contains(x));
                assert(u2.contains(x));
            }
            assert((u1 + u2).contains(x));
        }
    }
    assert((u1 + u2).to_set() =~= (addrs1 + addrs2).to_set().difference(seen));
}

} // verus!
