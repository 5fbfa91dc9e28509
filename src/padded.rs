//! The cache-line padded counters that a segment keeps its two reservation
//! indices in, so that producers and consumers do not share a cache line.
use vstd::prelude::*;

use flize::CachePadded;

verus! {

#[verifier::external_type_specification]
#[verifier::external_body]
#[verifier::reject_recursive_types(T)]
pub struct ExCachePadded<T>(CachePadded<T>);

/// The counter held inside a padded cell.
pub uninterp spec fn padded_value(p: CachePadded<usize>) -> usize;

/// Relies on flize::CachePadded::new: the cell holds exactly the given value.
#[verifier::external_body]
pub(crate) fn pad(v: usize) -> (r: CachePadded<usize>)
    ensures
        padded_value(r) == v,
{
    CachePadded::new(v)
}

/// Relies on `Deref` for flize::CachePadded: it hands out the value held.
#[verifier::external_body]
pub(crate) fn read_padded(p: &CachePadded<usize>) -> (r: usize)
    ensures
        r == padded_value(*p),
{
    **p
}

/// Relies on `DerefMut` for flize::CachePadded: writing through it replaces the
/// value held.
#[verifier::external_body]
pub(crate) fn write_padded(p: &mut CachePadded<usize>, v: usize)
    ensures
        padded_value(*final(p)) == v,
{
    **p = v;
}

} // verus!
