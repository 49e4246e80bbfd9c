//! Trusted boundary to the coalescing inclusive-range set that tracks
//! confirmed body indices.

use vstd::prelude::*;

verus! {

#[verifier::external_type_specification]
#[verifier::external_body]
#[verifier::reject_recursive_types(T)]
#[verifier::reject_recursive_types(S)]
pub struct ExRangeInclusiveSet<T, S>(rangemap::RangeInclusiveSet<T, S>);

/// The set of values the range set covers.
pub uninterp spec fn range_set_contents(s: rangemap::RangeInclusiveSet<u16>) -> Set<u16>;

/// Relies on RangeInclusiveSet::new: a new set covers nothing.
#[verifier::external_body]
pub(crate) fn range_set_new() -> (r: rangemap::RangeInclusiveSet<u16>)
    ensures
        range_set_contents(r) == Set::<u16>::empty(),
{
    rangemap::RangeInclusiveSet::new()
}

/// Relies on RangeInclusiveSet::insert: afterwards the set covers
/// exactly what it covered before plus `lo..=hi`.  Insertion panics on
/// an inverted range, so `lo <= hi` is required.
#[verifier::external_body]
pub(crate) fn range_set_insert(s: &mut rangemap::RangeInclusiveSet<u16>, lo: u16, hi: u16)
    requires
        lo <= hi,
    ensures
        range_set_contents(*final(s)) == range_set_contents(*old(s)).union(
            Set::new(|x: u16| lo <= x <= hi),
        ),
{
    s.insert(lo..=hi)
}

/// Relies on RangeInclusiveSet::contains: whether any stored range
/// covers the value.
#[verifier::external_body]
pub(crate) fn range_set_contains(s: &rangemap::RangeInclusiveSet<u16>, x: u16) -> (r: bool)
    ensures
        r == range_set_contents(*s).contains(x),
{
    s.contains(&x)
}

} // verus!
