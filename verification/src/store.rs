//! The model of the persistence sink: an upsert keyed by host and
//! location, a later write replacing an earlier one, and the law that
//! re-writing a run's outcomes changes nothing.

use vstd::prelude::*;

use crate::data::{Link, LinkV, RepoV, Outcome, OutcomeV, distinct_keys, keys_of, pairs_to_map,
    lemma_pairs_to_map_dom, lemma_pairs_to_map_index, lemma_pairs_to_map_update};

verus! {

/// The storage key of an outcome: the inspecting host and the location.
pub open spec fn row_key(v: OutcomeV) -> (Seq<char>, LinkV) {
    (v.host, v.link)
}

/// The key-value pairs that a row listing stands for.
pub open spec fn row_pairs(rows: Seq<OutcomeV>) -> Seq<((Seq<char>, LinkV), Option<RepoV>)> {
    rows.map_values(|o: OutcomeV| (row_key(o), o.repo))
}

/// An in-memory model of the persistence sink: at most one row per
/// `(host, location)` key.
pub struct Store {
    pub rows: Vec<Outcome>,
}

impl Store {
    /// The rows, as their mathematical shapes.
    pub open spec fn rows_view(self) -> Seq<OutcomeV> {
        self.rows@.map_values(|o: Outcome| o@)
    }

    /// At most one row per key; true of every reachable store.
    pub open spec fn wf(self) -> bool {
        distinct_keys(row_pairs(self.rows_view()))
    }

    /// The mapping the store holds.
    pub open spec fn map_view(self) -> Map<(Seq<char>, LinkV), Option<RepoV>> {
        pairs_to_map(row_pairs(self.rows_view()))
    }

    /// An empty store.
    pub fn new() -> (s: Store)
        ensures
            s.wf(),
            s.map_view() == Map::<(Seq<char>, LinkV), Option<RepoV>>::empty(),
            s.rows@.len() == 0,
    {
        let s = Store { rows: Vec::new() };
        proof {
            assert(row_pairs(s.rows_view()) =~= Seq::<((Seq<char>, LinkV), Option<RepoV>)>::empty());
        }
        s
    }

    /// Writes one outcome, replacing any earlier row with the same
    /// host and location: the mapping gains or replaces exactly that
    /// entry. The returned identity is the row's position.
    #[verifier::loop_isolation(false)]
    pub fn store_view(&mut self, v: Outcome) -> (id: usize)
        requires
            old(self).wf(),
        ensures
            final(self).wf(),
            final(self).map_view()
                == old(self).map_view().insert((v.host@, v.link@), v@.repo),
            id < final(self).rows@.len(),
    {
        let ghost pairs = row_pairs(old(self).rows_view());
        let n = self.rows.len();
        let mut i: usize = 0;
        while i < n
            invariant
                0 <= i <= n == self.rows@.len(),
                self.rows@ == old(self).rows@,
                forall|t: int| 0 <= t < i
                    ==> row_pairs(self.rows_view())[t].0 != (v.host@, v.link@),
            decreases n - i,
        {
            if self.rows[i].host == v.host && self.rows[i].link == v.link {
                let ghost key = (v.host@, v.link@);
                proof {
                    assert(pairs[i as int].0 == key);
                }
                let removed = self.rows.remove(i);
                self.rows.insert(i, v);
                proof {
                    assert(row_pairs(self.rows_view())
                        =~= pairs.update(i as int, (key, v@.repo)));
                    lemma_pairs_to_map_update(pairs, i as int, (key, v@.repo));
                    assert forall|t: int| 0 <= t < row_pairs(self.rows_view()).len()
                        implies #[trigger] row_pairs(self.rows_view())[t].0 == pairs[t].0 by {
                    }
                    assert(distinct_keys(row_pairs(self.rows_view())));
                }
                return i;
            }
            i = i + 1;
        }
        proof {
            assert(row_pairs(self.rows_view()) == pairs);
            assert(forall|t: int| 0 <= t < n ==> #[trigger] pairs[t].0 != (v.host@, v.link@));
        }
        self.rows.push(v);
        proof {
            assert(row_pairs(self.rows_view()) =~= pairs.push(((v.host@, v.link@), v@.repo)));
            assert(row_pairs(self.rows_view()).drop_last() =~= pairs);
            assert(distinct_keys(row_pairs(self.rows_view())));
        }
        n
    }

    /// Looks a row up by host and location.
    #[verifier::loop_isolation(false)]
    pub fn find_row(&self, host: &String, link: &Link) -> (r: Option<&Outcome>)
        requires
            self.wf(),
        ensures
            match r {
                Some(o) => {
                    &&& self.map_view().contains_key((host@, link@))
                    &&& o@.host == host@
                    &&& o@.link == link@
                    &&& self.map_view()[(host@, link@)] == o@.repo
                },
                None => !self.map_view().contains_key((host@, link@)),
            },
    {
        let ghost pairs = row_pairs(self.rows_view());
        let n = self.rows.len();
        let mut i: usize = 0;
        while i < n
            invariant
                0 <= i <= n == self.rows@.len(),
                pairs == row_pairs(self.rows_view()),
                distinct_keys(pairs),
                forall|t: int| 0 <= t < i ==> pairs[t].0 != (host@, link@),
            decreases n - i,
        {
            if self.rows[i].host == *host && self.rows[i].link == *link {
                proof {
                    assert(pairs[i as int].0 == (host@, link@));
                    lemma_pairs_to_map_index(pairs, i as int);
                }
                return Some(&self.rows[i]);
            }
            i = i + 1;
        }
        proof {
            lemma_pairs_to_map_dom(pairs, (host@, link@));
            assert(!keys_of(pairs).contains((host@, link@)));
        }
        None
    }

    /// Writes a batch of outcomes, in order.
    #[verifier::loop_isolation(false)]
    pub fn store_views(&mut self, views: Vec<Outcome>) -> (ids: Vec<usize>)
        requires
            old(self).wf(),
        ensures
            final(self).wf(),
            final(self).map_view() == store_seq(
                old(self).map_view(),
                views@.map_values(|o: Outcome| o@),
            ),
            ids@.len() == views@.len(),
    {
        let ghost vs = views@.map_values(|o: Outcome| o@);
        let n = views.len();
        let mut rest = views;
        let mut ids: Vec<usize> = Vec::new();
        let mut i: usize = 0;
        while i < n
            invariant
                0 <= i <= n == vs.len(),
                rest@.map_values(|o: Outcome| o@) =~= vs.subrange(i as int, n as int),
                rest@.len() == n - i,
                ids@.len() == i,
                self.wf(),
                self.map_view() == store_seq(old(self).map_view(), vs.subrange(0, i as int)),
            decreases n - i,
        {
            proof {
                assert(vs.subrange(0, i + 1).drop_last() =~= vs.subrange(0, i as int));
                assert(vs.subrange(0, i + 1).last() == vs[i as int]);
                assert(rest@.map_values(|o: Outcome| o@)[0] == vs[i as int]);
            }
            let ghost rest_before = rest@;
            let v = rest.remove(0);
            proof {
                assert(v@ == vs[i as int]);
                assert(rest@ =~= rest_before.subrange(1, rest_before.len() as int));
                lemma_map_values_subrange(
                    rest_before,
                    |o: Outcome| o@,
                    1,
                    rest_before.len() as int,
                );
                assert(vs.subrange(i as int, n as int).subrange(1, n - i as int)
                    =~= vs.subrange(i + 1, n as int));
                assert(rest@.map_values(|o: Outcome| o@)
                    =~= vs.subrange(i + 1, n as int));
            }
            let id = self.store_view(v);
            ids.push(id);
            i = i + 1;
        }
        proof {
            assert(vs.subrange(0, n as int) =~= vs);
        }
        ids
    }
}

proof fn lemma_map_values_subrange<A, B>(s: Seq<A>, f: spec_fn(A) -> B, a: int, b: int)
    requires
        0 <= a <= b <= s.len(),
    ensures
        s.subrange(a, b).map_values(f) =~= s.map_values(f).subrange(a, b),
{
}

/// The mapping after a run's outcomes are written in order, starting
/// from what the sink held before.
pub open spec fn store_seq(
    m: Map<(Seq<char>, LinkV), Option<RepoV>>,
    vs: Seq<OutcomeV>,
) -> Map<(Seq<char>, LinkV), Option<RepoV>>
    decreases vs.len(),
{
    if vs.len() == 0 {
        m
    } else {
        store_seq(m, vs.drop_last()).insert(row_key(vs.last()), vs.last().repo)
    }
}

proof fn lemma_store_seq_agree_at(
    m1: Map<(Seq<char>, LinkV), Option<RepoV>>,
    m2: Map<(Seq<char>, LinkV), Option<RepoV>>,
    vs: Seq<OutcomeV>,
    k: (Seq<char>, LinkV),
)
    requires
        keys_of(row_pairs(vs)).contains(k) || ((m1.contains_key(k) <==> m2.contains_key(k))
            && (m1.contains_key(k) ==> m1[k] == m2[k])),
    ensures
        store_seq(m1, vs).contains_key(k) <==> store_seq(m2, vs).contains_key(k),
        store_seq(m1, vs).contains_key(k) ==> store_seq(m1, vs)[k] == store_seq(m2, vs)[k],
    decreases vs.len(),
{
    if vs.len() > 0 {
        let k2 = row_key(vs.last());
        if k != k2 {
            if keys_of(row_pairs(vs)).contains(k) {
                let i = choose|i: int|
                    0 <= i < keys_of(row_pairs(vs)).len() && keys_of(row_pairs(vs))[i] == k;
                assert(row_pairs(vs)[i].0 == k);
                assert(i < vs.len() - 1);
                assert(keys_of(row_pairs(vs.drop_last()))[i] == k);
            }
            lemma_store_seq_agree_at(m1, m2, vs.drop_last(), k);
        }
    }
}

proof fn lemma_store_seq_untouched(
    m: Map<(Seq<char>, LinkV), Option<RepoV>>,
    vs: Seq<OutcomeV>,
    k: (Seq<char>, LinkV),
)
    requires
        !keys_of(row_pairs(vs)).contains(k),
    ensures
        store_seq(m, vs).contains_key(k) <==> m.contains_key(k),
        m.contains_key(k) ==> store_seq(m, vs)[k] == m[k],
    decreases vs.len(),
{
    if vs.len() > 0 {
        assert(keys_of(row_pairs(vs))[vs.len() - 1] == row_key(vs.last()));
        assert(k != row_key(vs.last()));
        assert forall|t: int| 0 <= t < vs.len() - 1
            implies #[trigger] keys_of(row_pairs(vs.drop_last()))[t] != k by {
            assert(keys_of(row_pairs(vs))[t] == keys_of(row_pairs(vs.drop_last()))[t]);
        }
        lemma_store_seq_untouched(m, vs.drop_last(), k);
    }
}

/// Re-running the pipeline against unchanged inputs writes the same
/// outcomes again, and the persisted mapping does not change: the
/// write is idempotent, with no duplicate rows and the last write
/// winning.
pub proof fn lemma_rerun_idempotent(
    m: Map<(Seq<char>, LinkV), Option<RepoV>>,
    vs: Seq<OutcomeV>,
)
    ensures
        store_seq(store_seq(m, vs), vs) == store_seq(m, vs),
{
    let m1 = store_seq(m, vs);
    assert forall|k: (Seq<char>, LinkV)| #[trigger] store_seq(m1, vs).dom().contains(k)
        == store_seq(m, vs).dom().contains(k) by {
        if keys_of(row_pairs(vs)).contains(k) {
            lemma_store_seq_agree_at(m1, m, vs, k);
        } else {
            lemma_store_seq_untouched(m, vs, k);
            lemma_store_seq_agree_at(m1, m, vs, k);
        }
    }
    assert forall|k: (Seq<char>, LinkV)| store_seq(m, vs).dom().contains(k)
        implies #[trigger] store_seq(m1, vs)[k] == store_seq(m, vs)[k] by {
        if keys_of(row_pairs(vs)).contains(k) {
            lemma_store_seq_agree_at(m1, m, vs, k);
        } else {
            lemma_store_seq_untouched(m, vs, k);
            lemma_store_seq_agree_at(m1, m, vs, k);
        }
    }
    assert(store_seq(m1, vs) =~= store_seq(m, vs));
}

} // verus!
