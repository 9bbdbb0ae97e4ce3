//! The concurrency-safe dedup set that the pipeline stages share.
//!
//! The set itself comes from the dashmap crate; what stands here is
//! its declaration and the three operations the pipeline relies on,
//! each stated over the set's contents.

use vstd::prelude::*;

use dashmap::DashSet;

verus! {

#[verifier::external_type_specification]
#[verifier::external_body]
#[verifier::reject_recursive_types(K)]
#[verifier::reject_recursive_types(S)]
pub struct ExDashSet<K, S>(DashSet<K, S>);

/// What a dedup set holds.
pub uninterp spec fn dedup_contents(s: DashSet<String>) -> Set<Seq<char>>;

/// Relies on dashmap's `DashSet::new`: a fresh set holds nothing.
#[verifier::external_body]
pub(crate) fn dedup_new() -> (s: DashSet<String>)
    ensures
        dedup_contents(s) == Set::<Seq<char>>::empty(),
{
    DashSet::new()
}

/// Relies on dashmap's `DashSet::insert`: the value is added, and the
/// answer says whether it was absent until now — the atomic
/// insert-if-absent that the dedup protocol rests on.
#[verifier::external_body]
pub(crate) fn dedup_insert(s: &mut DashSet<String>, v: String) -> (newly: bool)
    ensures
        dedup_contents(*final(s)) == dedup_contents(*old(s)).insert(v@),
        newly == !dedup_contents(*old(s)).contains(v@),
{
    s.insert(v)
}

/// Relies on dashmap's `DashSet::len`: how many values the set holds.
#[verifier::external_body]
pub(crate) fn dedup_len(s: &DashSet<String>) -> (n: usize)
    ensures
        dedup_contents(*s).finite() ==> n == dedup_contents(*s).len(),
{
    s.len()
}

} // verus!
