//! What the library makes of system queries: the host identifier.

use vstd::prelude::*;

use crate::text::{trim_spec, trim_of};

verus! {

/// The machine identifier as reported by the system, with the
/// surrounding whitespace of command output removed.
pub fn hostname(raw: &str) -> (r: String)
    ensures
        r@ == trim_spec(raw@),
{
    trim_of(raw)
}

} // verus!
