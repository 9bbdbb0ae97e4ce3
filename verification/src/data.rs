//! The data model of the pipeline: inspection targets, repository facts,
//! and the outcome record that the storage stage persists.

use vstd::prelude::*;

verus! {

/// The identity of a thing to inspect: a filesystem directory or a
/// network address. Structural equality on the payload is the identity
/// used for deduplication and as part of the storage key.
#[derive(Debug, Clone)]
pub enum Link {
    Fs { dir: String },
    Net { url: String },
}

/// The mathematical shape of a `Link`.
pub enum LinkV {
    Fs { dir: Seq<char> },
    Net { url: Seq<char> },
}

impl View for Link {
    type V = LinkV;

    open spec fn view(&self) -> LinkV {
        match self {
            Link::Fs { dir } => LinkV::Fs { dir: dir@ },
            Link::Net { url } => LinkV::Net { url: url@ },
        }
    }
}

impl PartialEq for Link {
    fn eq(&self, other: &Link) -> (r: bool) {
        match (self, other) {
            (Link::Fs { dir: a }, Link::Fs { dir: b }) => *a == *b,
            (Link::Net { url: a }, Link::Net { url: b }) => *a == *b,
            _ => false,
        }
    }
}

impl vstd::std_specs::cmp::PartialEqSpecImpl for Link {
    open spec fn obeys_eq_spec() -> bool {
        true
    }

    open spec fn eq_spec(&self, other: &Link) -> bool {
        self@ == other@
    }
}

/// A named branch: its leaf commit together with its root commits.
/// Any branch that was read successfully has at least one root.
#[derive(Debug, Clone)]
pub struct Branch {
    pub roots: Vec<String>,
    pub leaf: String,
}

/// The mathematical shape of a `Branch`: the roots are a set.
pub struct BranchV {
    pub roots: Set<Seq<char>>,
    pub leaf: Seq<char>,
}

impl View for Branch {
    type V = BranchV;

    open spec fn view(&self) -> BranchV {
        BranchV { roots: self.roots.deep_view().to_set(), leaf: self.leaf@ }
    }
}

impl DeepView for Branch {
    type V = BranchV;

    open spec fn deep_view(&self) -> BranchV {
        self.view()
    }
}

/// No two elements of `s` are the same string.
pub open spec fn distinct_strings(s: Seq<Seq<char>>) -> bool {
    forall|i: int, j: int| 0 <= i < j < s.len() ==> s[i] != s[j]
}

/// No two pairs of `s` carry the same key.
pub open spec fn distinct_keys<K, V>(s: Seq<(K, V)>) -> bool {
    forall|i: int, j: int| 0 <= i < j < s.len() ==> s[i].0 != s[j].0
}

/// The mapping that a key-value list stands for; a later pair wins.
pub open spec fn pairs_to_map<K, V>(s: Seq<(K, V)>) -> Map<K, V>
    decreases s.len(),
{
    if s.len() == 0 {
        Map::empty()
    } else {
        pairs_to_map(s.drop_last()).insert(s.last().0, s.last().1)
    }
}

impl Branch {
    /// A branch is well formed when it has at least one root and lists
    /// no root twice.
    pub open spec fn wf(&self) -> bool {
        self.roots@.len() > 0 && distinct_strings(self.roots.deep_view())
    }
}

/// The keys of a key-value list, in order.
pub open spec fn keys_of<K, V>(s: Seq<(K, V)>) -> Seq<K> {
    s.map_values(|p: (K, V)| p.0)
}

/// A key is in the mapping of a list exactly when some pair carries it.
pub proof fn lemma_pairs_to_map_dom<K, V>(s: Seq<(K, V)>, k: K)
    ensures
        pairs_to_map(s).contains_key(k) <==> keys_of(s).contains(k),
    decreases s.len(),
{
    if s.len() > 0 {
        lemma_pairs_to_map_dom(s.drop_last(), k);
        assert(keys_of(s.drop_last()) =~= keys_of(s).drop_last());
        if keys_of(s).contains(k) {
            let i = choose|i: int| 0 <= i < keys_of(s).len() && keys_of(s)[i] == k;
            if i < s.len() - 1 {
                assert(keys_of(s).drop_last()[i] == k);
            }
            assert(pairs_to_map(s).contains_key(k));
        }
        if pairs_to_map(s).contains_key(k) {
            if k == s.last().0 {
                assert(keys_of(s)[s.len() - 1] == k);
            } else {
                let i = choose|i: int|
                    0 <= i < keys_of(s.drop_last()).len() && keys_of(s.drop_last())[i] == k;
                assert(keys_of(s)[i] == k);
            }
        }
    }
}

/// Overwriting the pair at a key's index is insertion into the mapping.
pub proof fn lemma_pairs_to_map_update<K, V>(s: Seq<(K, V)>, i: int, p: (K, V))
    requires
        distinct_keys(s),
        0 <= i < s.len(),
        p.0 == s[i].0,
    ensures
        pairs_to_map(s.update(i, p)) == pairs_to_map(s).insert(p.0, p.1),
    decreases s.len(),
{
    let t = s.drop_last();
    if i == s.len() - 1 {
        assert(s.update(i, p).drop_last() =~= t);
        assert(pairs_to_map(s.update(i, p))
            =~= pairs_to_map(s).insert(p.0, p.1));
    } else {
        assert(s.update(i, p).drop_last() =~= t.update(i, p));
        assert(distinct_keys(t));
        lemma_pairs_to_map_update(t, i, p);
        assert(s.last().0 != p.0);
        assert(pairs_to_map(s.update(i, p))
            =~= pairs_to_map(s).insert(p.0, p.1));
    }
}

/// Under distinct keys, the mapping returns each pair's own value.
pub proof fn lemma_pairs_to_map_index<K, V>(s: Seq<(K, V)>, i: int)
    requires
        distinct_keys(s),
        0 <= i < s.len(),
    ensures
        pairs_to_map(s).contains_key(s[i].0),
        pairs_to_map(s)[s[i].0] == s[i].1,
    decreases s.len(),
{
    if i < s.len() - 1 {
        assert(distinct_keys(s.drop_last()));
        lemma_pairs_to_map_index(s.drop_last(), i);
        assert(s.last().0 != s[i].0);
    }
}

/// Replaces the value under `k`, or appends the pair when `k` is new.
/// The listing keeps its keys distinct, and afterwards it stands for
/// the old mapping with `k` bound to `val`.
pub fn upsert<V: DeepView>(v: &mut Vec<(String, V)>, k: String, val: V)
    requires
        distinct_keys(old(v).deep_view()),
    ensures
        distinct_keys(final(v).deep_view()),
        pairs_to_map(final(v).deep_view())
            == pairs_to_map(old(v).deep_view()).insert(k@, val.deep_view()),
        forall|i: int| 0 <= i < final(v)@.len()
            ==> final(v)@[i].0@ == k@ && final(v)@[i].1 == val
                || old(v)@.contains(#[trigger] final(v)@[i]),
{
    let n = v.len();
    let mut i: usize = 0;
    while i < n
        invariant
            0 <= i <= n == v@.len(),
            v@ == old(v)@,
            v.deep_view() == old(v).deep_view(),
            distinct_keys(v.deep_view()),
            forall|t: int| 0 <= t < i ==> v.deep_view()[t].0 != k@,
        decreases n - i,
    {
        if v[i].0 == k {
            let ghost old_seq = v.deep_view();
            let removed = v.remove(i);
            v.insert(i, (k, val));
            proof {
                assert(v.deep_view() =~= old_seq.update(i as int, (k@, val.deep_view())));
                assert(old_seq[i as int].0 == k@);
                lemma_pairs_to_map_update(old_seq, i as int, (k@, val.deep_view()));
                assert forall|t: int| 0 <= t < v.deep_view().len()
                    implies #[trigger] v.deep_view()[t].0 == old_seq[t].0 by {
                }
                assert(distinct_keys(v.deep_view()));
                assert forall|t: int| 0 <= t < v@.len() && v@[t] != (k, val)
                    implies old(v)@.contains(#[trigger] v@[t]) by {
                    assert(v@[t] == old(v)@[t]);
                }
            }
            return;
        }
        i = i + 1;
    }
    let ghost old_seq = v.deep_view();
    v.push((k, val));
    proof {
        assert(v.deep_view() =~= old_seq.push((k@, val.deep_view())));
        assert(v.deep_view().drop_last() =~= old_seq);
        assert(pairs_to_map(v.deep_view())
            == pairs_to_map(old_seq).insert(k@, val.deep_view()));
        assert(distinct_keys(v.deep_view()));
        assert forall|t: int| 0 <= t < v@.len() - 1
            implies old(v)@.contains(#[trigger] v@[t]) by {
            assert(v@[t] == old(v)@[t]);
        }
    }
}

/// The facts extracted from a repository: an optional free-text
/// description, the remotes by name, and the branches by name.
#[derive(Debug, Clone)]
pub struct Repo {
    pub description: Option<String>,
    pub remotes: Vec<(String, String)>,
    pub branches: Vec<(String, Branch)>,
}

/// The mathematical shape of a `Repo`: both listings are maps.
pub struct RepoV {
    pub description: Option<Seq<char>>,
    pub remotes: Map<Seq<char>, Seq<char>>,
    pub branches: Map<Seq<char>, BranchV>,
}

/// The key-value pairs of the remote listing, as sequences.
pub open spec fn remote_pairs(r: &Repo) -> Seq<(Seq<char>, Seq<char>)> {
    r.remotes.deep_view()
}

/// The key-value pairs of the branch listing, with branch views.
pub open spec fn branch_pairs(r: &Repo) -> Seq<(Seq<char>, BranchV)> {
    r.branches.deep_view()
}

impl View for Repo {
    type V = RepoV;

    open spec fn view(&self) -> RepoV {
        RepoV {
            description: match self.description {
                Some(ref d) => Some(d@),
                None => None,
            },
            remotes: pairs_to_map(remote_pairs(self)),
            branches: pairs_to_map(branch_pairs(self)),
        }
    }
}

impl Repo {
    /// A repository record is well formed when remote names and branch
    /// names are unique and every branch is well formed.
    pub open spec fn wf(&self) -> bool {
        &&& distinct_keys(remote_pairs(self))
        &&& distinct_keys(branch_pairs(self))
        &&& forall|i: int| 0 <= i < self.branches@.len() ==> (#[trigger] self.branches@[i].1).wf()
    }
}

/// The record of one inspection attempt: which host looked, at what, and
/// the facts found, or nothing when the location was not a readable
/// repository. It is persisted either way.
#[derive(Debug, Clone)]
pub struct Outcome {
    pub host: String,
    pub link: Link,
    pub repo: Option<Repo>,
}

/// The mathematical shape of an outcome record.
pub struct OutcomeV {
    pub host: Seq<char>,
    pub link: LinkV,
    pub repo: Option<RepoV>,
}

impl View for Outcome {
    type V = OutcomeV;

    open spec fn view(&self) -> OutcomeV {
        OutcomeV {
            host: self.host@,
            link: self.link@,
            repo: match self.repo {
                Some(ref r) => Some(r@),
                None => None,
            },
        }
    }
}

impl Outcome {
    /// An outcome is well formed when the facts it carries, if any, are.
    pub open spec fn wf(&self) -> bool {
        match self.repo {
            Some(ref r) => r.wf(),
            None => true,
        }
    }
}

} // verus!
