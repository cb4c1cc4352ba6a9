//! Cell indices, and sets of them held in a `HashSet` with `fnv`'s hasher.
use vstd::prelude::*;

verus! {

/// `fnv::FnvHasher`, the hasher of the sets below; opaque here.
#[verifier::external_type_specification]
#[verifier::external_body]
pub struct ExFnvHasher(fnv::FnvHasher);

/// `std::hash::BuildHasherDefault`, which `fnv::FnvBuildHasher` names;
/// opaque here.
#[verifier::external_type_specification]
#[verifier::external_body]
#[verifier::reject_recursive_types(H)]
pub struct ExBuildHasherDefault<H>(std::hash::BuildHasherDefault<H>);

/// A `(row, col)` index into a grid.
pub type Point = (usize, usize);

/// A set of cell indices.
pub type Points = fnv::FnvHashSet<Point>;

/// An empty set of cells.
pub fn empty_points() -> (r: Points)
    ensures
        r@ == Set::<Point>::empty(),
{
    Points::default()
}

/// Relies on `HashSet::insert` (with `fnv`'s hasher): the point is added, and
/// the result says whether it was absent.
#[verifier::external_body]
pub(crate) fn insert_point(s: &mut Points, p: Point) -> (r: bool)
    ensures
        final(s)@ == old(s)@.insert(p),
        r == !old(s)@.contains(p),
{
    s.insert(p)
}

/// Relies on `HashSet::remove` (with `fnv`'s hasher): the point is taken out,
/// and the result says whether it was present.
#[verifier::external_body]
pub(crate) fn remove_point(s: &mut Points, p: &Point) -> (r: bool)
    ensures
        final(s)@ == old(s)@.remove(*p),
        r == old(s)@.contains(*p),
{
    s.remove(p)
}

/// Relies on `HashSet::iter`: each member is visited exactly once, in an
/// order that is left open.
#[verifier::external_body]
pub(crate) fn points_to_vec(s: &Points) -> (r: Vec<Point>)
    ensures
        r@.to_set() == s@,
        r@.no_duplicates(),
        r@.len() == s@.len(),
{
    s.iter().copied().collect()
}

} // verus!
