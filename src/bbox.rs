//! Extremal cells of a group and the screening of groups by the size of
//! the box they span, in whole cells.
use vstd::prelude::*;
use crate::groups::GroupTable;
use crate::points::{Point, Points, points_to_vec};

verus! {

/// The four extremal cells of a group. With `y` growing as the row index
/// falls and `x` growing with the column index: `upper` has the greatest
/// `y` (least row), `lower` the least `y` (greatest row), `left` the least
/// `x` (least column) and `right` the greatest `x` (greatest column).
/// Ties go to the cell that makes `lower`, `left` and `right` three
/// corners of an upright rectangle: `upper` takes the greatest column
/// among its rows, `lower` the least column, `left` the least row and
/// `right` the greatest row.
#[derive(Clone, Copy, Debug, PartialEq, Eq)]
pub struct BoundingBox {
    pub upper: Point,
    pub lower: Point,
    pub left: Point,
    pub right: Point,
}

/// Which extremal cell is meant.
#[derive(Clone, Copy, Debug, PartialEq, Eq)]
pub enum Extreme {
    Upper,
    Lower,
    Left,
    Right,
}

/// The key that an extremal cell minimises, compared lexicographically.
pub open spec fn key(e: Extreme, p: Point) -> (int, int) {
    match e {
        Extreme::Upper => (p.0 as int, -(p.1 as int)),
        Extreme::Lower => (-(p.0 as int), p.1 as int),
        Extreme::Left => (p.1 as int, p.0 as int),
        Extreme::Right => (-(p.1 as int), -(p.0 as int)),
    }
}

pub open spec fn lex_lt(a: (int, int), b: (int, int)) -> bool {
    a.0 < b.0 || (a.0 == b.0 && a.1 < b.1)
}

/// `p` is the cell of `cells` with the least key for `e`.
pub open spec fn is_extreme(cells: Set<Point>, e: Extreme, p: Point) -> bool {
    cells.contains(p) && forall|q: Point| cells.contains(q) ==> !lex_lt(key(e, q), key(e, p))
}

/// `b` holds the four extremal cells of `cells`.
pub open spec fn is_box_of(cells: Set<Point>, b: BoundingBox) -> bool {
    &&& is_extreme(cells, Extreme::Upper, b.upper)
    &&& is_extreme(cells, Extreme::Lower, b.lower)
    &&& is_extreme(cells, Extreme::Left, b.left)
    &&& is_extreme(cells, Extreme::Right, b.right)
}

/// Whether `q` comes strictly before `p` in the order that `e` minimises.
pub fn precedes(e: Extreme, q: Point, p: Point) -> (r: bool)
    ensures
        r == lex_lt(key(e, q), key(e, p)),
{
    match e {
        Extreme::Upper => q.0 < p.0 || (q.0 == p.0 && q.1 > p.1),
        Extreme::Lower => q.0 > p.0 || (q.0 == p.0 && q.1 < p.1),
        Extreme::Left => q.1 < p.1 || (q.1 == p.1 && q.0 < p.0),
        Extreme::Right => q.1 > p.1 || (q.1 == p.1 && q.0 > p.0),
    }
}

/// The four extremal cells of a group, or `None` for an empty one.
pub fn bounding_box(cells: &Points) -> (r: Option<BoundingBox>)
    ensures
        r is None <==> cells@.is_empty(),
        r matches Some(b) ==> is_box_of(cells@, b),
{
    let items = points_to_vec(cells);
    if items.len() == 0 {
        assert(cells@ =~= Set::<Point>::empty()) by {
            assert forall|x: Point| !cells@.contains(x) by {
                if cells@.contains(x) {
                    assert(items@.to_set().contains(x));
                }
            }
        }
        return None;
    }
    let first = items[0];
    assert(items@.to_set().contains(first));
    let mut b = BoundingBox { upper: first, lower: first, left: first, right: first };
    let mut n: usize = 1;
    while n < items.len()
        invariant
            1 <= n <= items@.len(),
            items@.to_set() == cells@,
            cells@.contains(b.upper) && cells@.contains(b.lower) && cells@.contains(b.left)
                && cells@.contains(b.right),
            forall|m: int|
                0 <= m < n ==> {
                    &&& !lex_lt(key(Extreme::Upper, #[trigger] items@[m]), key(Extreme::Upper, b.upper))
                    &&& !lex_lt(key(Extreme::Lower, items@[m]), key(Extreme::Lower, b.lower))
                    &&& !lex_lt(key(Extreme::Left, items@[m]), key(Extreme::Left, b.left))
                    &&& !lex_lt(key(Extreme::Right, items@[m]), key(Extreme::Right, b.right))
                },
        decreases items@.len() - n,
    {
        let q = items[n];
        assert(items@.to_set().contains(q));
        if precedes(Extreme::Upper, q, b.upper) {
            b.upper = q;
        }
        if precedes(Extreme::Lower, q, b.lower) {
            b.lower = q;
        }
        if precedes(Extreme::Left, q, b.left) {
            b.left = q;
        }
        if precedes(Extreme::Right, q, b.right) {
            b.right = q;
        }
        n = n + 1;
    }
    assert forall|q: Point| cells@.contains(q) implies {
        &&& !lex_lt(key(Extreme::Upper, q), key(Extreme::Upper, b.upper))
        &&& !lex_lt(key(Extreme::Lower, q), key(Extreme::Lower, b.lower))
        &&& !lex_lt(key(Extreme::Left, q), key(Extreme::Left, b.left))
        &&& !lex_lt(key(Extreme::Right, q), key(Extreme::Right, b.right))
    } by {
        assert(items@.to_set().contains(q));
        let m = choose|m: int| 0 <= m < items@.len() && items@[m] == q;
        assert(items@[m] == q);
    }
    Some(b)
}


/// The square of the difference of two indices.
pub open spec fn sq_diff(a: usize, b: usize) -> int {
    (a - b) * (a - b)
}

/// The squared length, in cells, of the edge from `lower` to `left`.
pub open spec fn edge_a_sq(b: BoundingBox) -> int {
    sq_diff(b.left.0, b.lower.0) + sq_diff(b.left.1, b.lower.1)
}

/// The squared length, in cells, of the edge from `lower` to `right`.
pub open spec fn edge_b_sq(b: BoundingBox) -> int {
    sq_diff(b.right.0, b.lower.0) + sq_diff(b.right.1, b.lower.1)
}

/// The squared diagonal, in cells, of the box spanned by the rows of
/// `upper` and `lower` and the columns of `left` and `right`.
pub open spec fn diagonal_sq(b: BoundingBox) -> int {
    sq_diff(b.upper.0, b.lower.0) + sq_diff(b.left.1, b.right.1)
}

/// A box worth classifying: both edges reach the least plausible length and
/// the diagonal stays within the greatest plausible size (all squared, in
/// cells).
pub open spec fn box_admits(b: BoundingBox, min_edge_sq: u64, max_diag_sq: u64) -> bool {
    edge_a_sq(b) >= min_edge_sq && edge_b_sq(b) >= min_edge_sq && diagonal_sq(b) <= max_diag_sq
}

fn square_diff(a: usize, b: usize) -> (r: u128)
    ensures
        r == sq_diff(a, b),
{
    let d: usize = if a >= b { a - b } else { b - a };
    let w = d as u128;
    assert(w * w <= u128::MAX && w * w == sq_diff(a, b)) by (nonlinear_arith)
        requires
            w == d,
            d <= u64::MAX,
            d == a - b || d == b - a,
    ;
    w * w
}

/// The sum of two squares, or `u128::MAX` where it does not fit.
fn sum_sq(x: u128, y: u128) -> (r: u128)
    ensures
        r == if x + y > u128::MAX { u128::MAX as int } else { x + y },
{
    x.saturating_add(y)
}

/// Whether the box is worth classifying: false when an edge is shorter than
/// the least plausible obstacle edge (noise) or the diagonal is longer than
/// the greatest plausible obstacle (a wall of the map, or noise merged into
/// one group).
pub fn box_passes(b: &BoundingBox, min_edge_sq: u64, max_diag_sq: u64) -> (r: bool)
    ensures
        r == box_admits(*b, min_edge_sq, max_diag_sq),
{
    let a = sum_sq(square_diff(b.left.0, b.lower.0), square_diff(b.left.1, b.lower.1));
    let e = sum_sq(square_diff(b.right.0, b.lower.0), square_diff(b.right.1, b.lower.1));
    let d = sum_sq(square_diff(b.upper.0, b.lower.0), square_diff(b.left.1, b.right.1));
    a >= min_edge_sq as u128 && e >= min_edge_sq as u128 && d <= max_diag_sq as u128
}

/// Screens a group: its bounding box when the group is non-empty and the
/// box passes `box_passes`, otherwise `None`.
pub fn screen_group(cells: &Points, min_edge_sq: u64, max_diag_sq: u64) -> (r: Option<
    BoundingBox,
>)
    ensures
        r matches Some(b) ==> is_box_of(cells@, b) && box_admits(b, min_edge_sq, max_diag_sq),
        r is None ==> cells@.is_empty() || forall|b: BoundingBox|
            is_box_of(cells@, b) ==> !box_admits(b, min_edge_sq, max_diag_sq),
{
    match bounding_box(cells) {
        None => None,
        Some(b) => {
            if box_passes(&b, min_edge_sq, max_diag_sq) {
                Some(b)
            } else {
                proof {
                    assert forall|c: BoundingBox| is_box_of(cells@, c) implies !box_admits(
                        c,
                        min_edge_sq,
                        max_diag_sq,
                    ) by {
                        lemma_box_unique(cells@, b, c);
                    }
                }
                None
            }
        },
    }
}

/// The groups of a table that pass the screen, by id in increasing order,
/// each with its bounding box.
pub fn screen_groups(table: &GroupTable, min_edge_sq: u64, max_diag_sq: u64) -> (r: Vec<
    (usize, BoundingBox),
>)
    ensures
        forall|n: int|
            0 <= n < r@.len() ==> {
                &&& (#[trigger] r@[n]).0 < table@.len()
                &&& is_box_of(table@[r@[n].0 as int]@, r@[n].1)
                &&& box_admits(r@[n].1, min_edge_sq, max_diag_sq)
            },
        forall|n: int, m: int| 0 <= n < m < r@.len() ==> (#[trigger] r@[n]).0 < (#[trigger] r@[m]).0,
        forall|i: int, b: BoundingBox|
            0 <= i < table@.len() && #[trigger] is_box_of(table@[i]@, b) && box_admits(
                b,
                min_edge_sq,
                max_diag_sq,
            ) ==> exists|n: int| 0 <= n < r@.len() && #[trigger] r@[n] == (i as usize, b),
{
    let mut out: Vec<(usize, BoundingBox)> = Vec::new();
    let mut i: usize = 0;
    while i < table.len()
        invariant
            i <= table@.len(),
            forall|n: int|
                0 <= n < out@.len() ==> {
                    &&& (#[trigger] out@[n]).0 < i
                    &&& is_box_of(table@[out@[n].0 as int]@, out@[n].1)
                    &&& box_admits(out@[n].1, min_edge_sq, max_diag_sq)
                },
            forall|n: int, m: int|
                0 <= n < m < out@.len() ==> (#[trigger] out@[n]).0 < (#[trigger] out@[m]).0,
            forall|j: int, b: BoundingBox|
                0 <= j < i && #[trigger] is_box_of(table@[j]@, b) && box_admits(
                    b,
                    min_edge_sq,
                    max_diag_sq,
                ) ==> exists|n: int| 0 <= n < out@.len() && #[trigger] out@[n] == (j as usize, b),
        decreases table@.len() - i,
    {
        let ghost before = out@;
        match screen_group(&table[i], min_edge_sq, max_diag_sq) {
            Some(b) => {
                out.push((i, b));
                proof {
                    assert(out@[before.len() as int] == (i, b));
                    assert forall|j: int, c: BoundingBox|
                        0 <= j < i + 1 && #[trigger] is_box_of(table@[j]@, c) && box_admits(
                            c,
                            min_edge_sq,
                            max_diag_sq,
                        ) implies exists|n: int|
                        0 <= n < out@.len() && #[trigger] out@[n] == (j as usize, c) by {
                        if j < i {
                            let n = choose|n: int|
                                0 <= n < before.len() && #[trigger] before[n] == (j as usize, c);
                            assert(out@[n] == before[n]);
                        } else {
                            lemma_box_unique(table@[j]@, b, c);
                        }
                    }
                }
            },
            None => {
                proof {
                    assert forall|c: BoundingBox|
                        is_box_of(table@[i as int]@, c) implies !box_admits(
                        c,
                        min_edge_sq,
                        max_diag_sq,
                    ) by {
                        if table@[i as int]@.is_empty() {
                            assert(!table@[i as int]@.contains(c.upper));
                        }
                    }
                }
            },
        }
        i = i + 1;
    }
    out
}

proof fn lemma_extreme_unique(cells: Set<Point>, e: Extreme, p: Point, q: Point)
    requires
        is_extreme(cells, e, p),
        is_extreme(cells, e, q),
    ensures
        p == q,
{
    assert(!lex_lt(key(e, q), key(e, p)));
    assert(!lex_lt(key(e, p), key(e, q)));
}

/// A set of cells has at most one bounding box.
pub proof fn lemma_box_unique(cells: Set<Point>, b: BoundingBox, c: BoundingBox)
    requires
        is_box_of(cells, b),
        is_box_of(cells, c),
    ensures
        b == c,
{
    lemma_extreme_unique(cells, Extreme::Upper, b.upper, c.upper);
    lemma_extreme_unique(cells, Extreme::Lower, b.lower, c.lower);
    lemma_extreme_unique(cells, Extreme::Left, b.left, c.left);
    lemma_extreme_unique(cells, Extreme::Right, b.right, c.right);
}

/// A group whose two edges are both shorter than the least plausible edge
/// never passes the screen.
pub proof fn lemma_short_edges_rejected(b: BoundingBox, min_edge_sq: u64, max_diag_sq: u64)
    requires
        edge_a_sq(b) < min_edge_sq,
        edge_b_sq(b) < min_edge_sq,
    ensures
        !box_admits(b, min_edge_sq, max_diag_sq),
{
}

} // verus!
