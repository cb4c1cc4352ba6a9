//! Grouping of cells into connected components under a square neighbour
//! kernel.
use vstd::prelude::*;
use crate::grid::{CellFilter, Grid, filter_map, selected};
use crate::points::{Point, Points, empty_points, insert_point, remove_point, points_to_vec};

verus! {

/// `a` and `b` differ by less than `n`.
pub open spec fn within(a: usize, b: usize, n: usize) -> bool {
    (if a >= b { a - b } else { b - a }) < n
}

/// `d` lies in the square kernel of half-width `k` around `c`: both of its
/// coordinates differ from those of `c` by less than `k`.
pub open spec fn adjacent(c: Point, d: Point, k: usize) -> bool {
    within(c.0, d.0, k) && within(c.1, d.1, k)
}

/// The cells of the square kernel of half-width `k` around `c`.
pub open spec fn kernel(c: Point, k: usize) -> Set<Point> {
    Set::new(|d: Point| adjacent(c, d, k))
}

/// Returns the neighbours of a cell: every cell whose row and column each
/// differ from the cell's by less than `kernel_size`. Offsets that would leave
/// the range of `usize` are clamped to it, which adds no cell outside that
/// square. With a kernel size of zero the set is empty; otherwise it holds
/// the cell itself.
pub fn neighbours(p: Point, kernel_size: usize) -> (r: Points)
    ensures
        r@ == kernel(p, kernel_size),
{
    let mut out = empty_points();
    let ghost k = kernel_size;
    let mut i: usize = 0;
    while i < kernel_size
        invariant
            i <= k,
            k == kernel_size,
            out@ == Set::new(|d: Point| within(p.0, d.0, i) && within(p.1, d.1, k)),
        decreases k - i,
    {
        let ghost before = out@;
        let mut j: usize = 0;
        while j < kernel_size
            invariant
                i < k,
                j <= k,
                k == kernel_size,
                before == Set::new(|d: Point| within(p.0, d.0, i) && within(p.1, d.1, k)),
                out@ == before.union(
                    Set::new(
                        |d: Point|
                            (d.0 == p.0 + i || d.0 + i == p.0 || (d.0 == 0 && p.0 < i) || (d.0
                                == usize::MAX && p.0 + i > usize::MAX)) && within(p.1, d.1, j),
                    ),
                ),
            decreases k - j,
        {
            insert_point(&mut out, (p.0.saturating_add(i), p.1.saturating_add(j)));
            insert_point(&mut out, (p.0.saturating_add(i), p.1.saturating_sub(j)));
            insert_point(&mut out, (p.0.saturating_sub(i), p.1.saturating_add(j)));
            insert_point(&mut out, (p.0.saturating_sub(i), p.1.saturating_sub(j)));
            j = j + 1;
            assert(out@ =~= before.union(
                Set::new(
                    |d: Point|
                        (d.0 == p.0 + i || d.0 + i == p.0 || (d.0 == 0 && p.0 < i) || (d.0
                            == usize::MAX && p.0 + i > usize::MAX)) && within(p.1, d.1, j),
                ),
            ));
        }
        i = i + 1;
        assert(out@ =~= Set::new(|d: Point| within(p.0, d.0, i) && within(p.1, d.1, k)));
    }
    assert(out@ =~= kernel(p, kernel_size));
    out
}


/// `path` is a non-empty walk through `cells` whose consecutive steps stay
/// within the kernel of half-width `k`.
pub open spec fn is_path(cells: Set<Point>, k: usize, path: Seq<Point>) -> bool {
    &&& path.len() > 0
    &&& forall|i: int| 0 <= i < path.len() ==> cells.contains(#[trigger] path[i])
    &&& forall|i: int| 0 <= i < path.len() - 1 ==> adjacent(#[trigger] path[i], path[i + 1], k)
}

/// `d` can be reached from `c` by a walk through `cells`.
pub open spec fn reachable(cells: Set<Point>, k: usize, c: Point, d: Point) -> bool {
    exists|path: Seq<Point>| #[trigger]
        is_path(cells, k, path) && path[0] == c && path.last() == d
}

/// The connected component of `c` in `cells` under the kernel of
/// half-width `k`; empty when `c` is not in `cells`.
pub open spec fn component(cells: Set<Point>, k: usize, c: Point) -> Set<Point> {
    Set::new(|d: Point| reachable(cells, k, c, d))
}

/// No cell of `cells` next to a member of `g` lies outside `g`.
pub open spec fn closed(cells: Set<Point>, k: usize, g: Set<Point>) -> bool {
    forall|c: Point, d: Point|
        #![trigger g.contains(c), cells.contains(d), adjacent(c, d, k)]
        g.contains(c) && cells.contains(d) && adjacent(c, d, k) ==> g.contains(d)
}

proof fn lemma_reach_refl(cells: Set<Point>, k: usize, c: Point)
    requires
        cells.contains(c),
    ensures
        reachable(cells, k, c, c),
{
    let path = seq![c];
    assert(is_path(cells, k, path));
}

proof fn lemma_reach_ends(cells: Set<Point>, k: usize, c: Point, d: Point)
    requires
        reachable(cells, k, c, d),
    ensures
        cells.contains(c),
        cells.contains(d),
{
    let path = choose|path: Seq<Point>|
        #[trigger] is_path(cells, k, path) && path[0] == c && path.last() == d;
    assert(cells.contains(path[0]));
    assert(cells.contains(path[path.len() - 1]));
}

proof fn lemma_reach_step(cells: Set<Point>, k: usize, c: Point, d: Point, e: Point)
    requires
        reachable(cells, k, c, d),
        adjacent(d, e, k),
        cells.contains(e),
    ensures
        reachable(cells, k, c, e),
{
    let path = choose|path: Seq<Point>|
        #[trigger] is_path(cells, k, path) && path[0] == c && path.last() == d;
    let longer = path.push(e);
    assert forall|i: int| 0 <= i < longer.len() - 1 implies adjacent(
        #[trigger] longer[i],
        longer[i + 1],
        k,
    ) by {
        if i < path.len() - 1 {
            assert(longer[i] == path[i] && longer[i + 1] == path[i + 1]);
        }
    }
    assert(is_path(cells, k, longer));
}

proof fn lemma_reach_symm(cells: Set<Point>, k: usize, c: Point, d: Point)
    requires
        reachable(cells, k, c, d),
    ensures
        reachable(cells, k, d, c),
{
    let path = choose|path: Seq<Point>|
        #[trigger] is_path(cells, k, path) && path[0] == c && path.last() == d;
    let n = path.len();
    let back = Seq::new(n, |i: int| path[n - 1 - i]);
    assert forall|i: int| 0 <= i < back.len() implies cells.contains(#[trigger] back[i]) by {
        assert(cells.contains(path[n - 1 - i]));
    }
    assert forall|i: int| 0 <= i < back.len() - 1 implies adjacent(
        #[trigger] back[i],
        back[i + 1],
        k,
    ) by {
        assert(adjacent(path[n - 2 - i], path[n - 2 - i + 1], k));
    }
    assert(is_path(cells, k, back));
}

proof fn lemma_reach_trans(cells: Set<Point>, k: usize, c: Point, d: Point, e: Point)
    requires
        reachable(cells, k, c, d),
        reachable(cells, k, d, e),
    ensures
        reachable(cells, k, c, e),
{
    let p1 = choose|path: Seq<Point>|
        #[trigger] is_path(cells, k, path) && path[0] == c && path.last() == d;
    let p2 = choose|path: Seq<Point>|
        #[trigger] is_path(cells, k, path) && path[0] == d && path.last() == e;
    let joined = p1 + p2.subrange(1, p2.len() as int);
    assert forall|i: int| 0 <= i < joined.len() implies cells.contains(#[trigger] joined[i]) by {
        if i < p1.len() {
            assert(joined[i] == p1[i]);
        } else {
            assert(joined[i] == p2[i - p1.len() + 1]);
        }
    }
    assert forall|i: int| 0 <= i < joined.len() - 1 implies adjacent(
        #[trigger] joined[i],
        joined[i + 1],
        k,
    ) by {
        if i < p1.len() - 1 {
            assert(joined[i] == p1[i] && joined[i + 1] == p1[i + 1]);
        } else if i == p1.len() - 1 {
            assert(joined[i] == p2[0] && joined[i + 1] == p2[1]);
        } else {
            assert(joined[i] == p2[i - p1.len() + 1] && joined[i + 1] == p2[i - p1.len() + 2]);
        }
    }
    if p2.len() == 1 {
        assert(joined.last() == p1.last());
    } else {
        assert(joined.last() == p2.last());
    }
    assert(is_path(cells, k, joined));
}

proof fn lemma_closed_holds_path(cells: Set<Point>, k: usize, g: Set<Point>, path: Seq<Point>, i: int)
    requires
        closed(cells, k, g),
        is_path(cells, k, path),
        g.contains(path[0]),
        0 <= i < path.len(),
    ensures
        g.contains(path[i]),
    decreases i,
{
    if i > 0 {
        lemma_closed_holds_path(cells, k, g, path, i - 1);
        assert(adjacent(path[i - 1], path[i], k));
        assert(cells.contains(path[i]));
    }
}

proof fn lemma_closed_holds_reach(cells: Set<Point>, k: usize, g: Set<Point>, c: Point, d: Point)
    requires
        closed(cells, k, g),
        g.contains(c),
        reachable(cells, k, c, d),
    ensures
        g.contains(d),
{
    let path = choose|path: Seq<Point>|
        #[trigger] is_path(cells, k, path) && path[0] == c && path.last() == d;
    lemma_closed_holds_path(cells, k, g, path, path.len() - 1);
}

/// A closed set that contains `c` and whose members are all reachable from
/// `c` is the component of every one of its members.
proof fn lemma_component_of_closed(cells: Set<Point>, k: usize, g: Set<Point>, c: Point)
    requires
        closed(cells, k, g),
        g.contains(c),
        forall|x: Point| g.contains(x) ==> reachable(cells, k, c, x),
    ensures
        forall|x: Point| g.contains(x) ==> #[trigger] component(cells, k, x) == g,
{
    assert forall|x: Point| g.contains(x) implies #[trigger] component(cells, k, x) == g by {
        assert forall|y: Point| g.contains(y) implies reachable(cells, k, x, y) by {
            lemma_reach_symm(cells, k, c, x);
            lemma_reach_trans(cells, k, x, c, y);
        }
        assert forall|y: Point| reachable(cells, k, x, y) implies g.contains(y) by {
            lemma_closed_holds_reach(cells, k, g, x, y);
        }
        assert(component(cells, k, x) =~= g);
    }
}


/// Moves every cell of `cells` that lies in the kernel around `p` onto the
/// `staging` stack.
fn process_neighbours(p: Point, staging: &mut Vec<Point>, cells: &mut Points, kernel_size: usize)
    requires
        old(cells)@.finite(),
        old(staging)@.no_duplicates(),
        forall|x: Point| old(staging)@.contains(x) ==> !old(cells)@.contains(x),
    ensures
        final(cells)@ == old(cells)@.difference(kernel(p, kernel_size)),
        final(cells)@.finite(),
        final(cells)@.len() + final(staging)@.len() == old(cells)@.len() + old(staging)@.len(),
        final(staging)@.no_duplicates(),
        forall|x: Point|
            #![trigger final(staging)@.contains(x)]
            final(staging)@.contains(x) <==> (old(staging)@.contains(x) || (old(cells)@.contains(
                x,
            ) && adjacent(p, x, kernel_size))),
        forall|x: Point| final(staging)@.contains(x) ==> !final(cells)@.contains(x),
{
    let to_check = neighbours(p, kernel_size);
    let order = points_to_vec(&to_check);
    let ghost c0 = cells@;
    let ghost s0 = staging@;
    let ghost mut seen = Set::<Point>::empty();
    let mut n: usize = 0;
    while n < order.len()
        invariant
            n <= order@.len(),
            order@.to_set() == kernel(p, kernel_size),
            c0.finite(),
            s0.no_duplicates(),
            forall|x: Point| s0.contains(x) ==> !c0.contains(x),
            cells@ == c0.difference(seen),
            forall|m: int| 0 <= m < n ==> seen.contains(#[trigger] order@[m]),
            forall|x: Point| seen.contains(x) ==> adjacent(p, x, kernel_size),
            staging@.no_duplicates(),
            forall|x: Point| staging@.contains(x) ==> !cells@.contains(x),
            forall|x: Point|
                #![trigger staging@.contains(x)]
                staging@.contains(x) <==> (s0.contains(x) || (c0.contains(x) && seen.contains(x))),
            cells@.len() + staging@.len() == c0.len() + s0.len(),
        decreases order@.len() - n,
    {
        let q = order[n];
        assert(order@.to_set().contains(q));
        let ghost before = staging@;
        let ghost cells0 = cells@;
        let ghost seen0 = seen;
        assert forall|x: Point| before.contains(x) <==> (s0.contains(x) || (c0.contains(x)
            && seen0.contains(x))) by {
            assert(staging@.contains(x) <==> (s0.contains(x) || (c0.contains(x) && seen.contains(x))));
        }
        let removed = remove_point(cells, &q);
        if removed {
            assert(!before.contains(q));
            staging.push(q);
            assert(staging@.no_duplicates()) by {
                assert forall|i: int, j: int|
                    0 <= i < staging@.len() && 0 <= j < staging@.len() && i != j implies staging@[i]
                    != staging@[j] by {
                    if i < before.len() && j < before.len() {
                        assert(before[i] == staging@[i] && before[j] == staging@[j]);
                    } else if i < before.len() {
                        assert(before[i] == staging@[i]);
                    } else if j < before.len() {
                        assert(before[j] == staging@[j]);
                    }
                }
            }
            assert forall|x: Point| staging@.contains(x) <==> (before.contains(x) || x == q) by {
                if staging@.contains(x) {
                    let m = choose|m: int| 0 <= m < staging@.len() && staging@[m] == x;
                    if m < before.len() {
                        assert(before[m] == x);
                    }
                }
                if before.contains(x) {
                    let m = choose|m: int| 0 <= m < before.len() && before[m] == x;
                    assert(staging@[m] == x);
                }
                if x == q {
                    assert(staging@[before.len() as int] == x);
                }
            }
        }
        proof {
            seen = seen.insert(q);
            assert forall|x: Point|
                #![trigger staging@.contains(x)]
                staging@.contains(x) <==> (s0.contains(x) || (c0.contains(x) && seen.contains(
                    x,
                ))) by {
                if removed {
                    assert(staging@.contains(x) <==> (before.contains(x) || x == q));
                } else {
                    assert(staging@ == before);
                    if x == q && c0.contains(q) {
                        assert(seen0.contains(q));
                        assert(before.contains(q));
                    }
                }
            }
        }
        n = n + 1;
        assert(cells@ =~= c0.difference(seen));
    }
    assert(seen =~= kernel(p, kernel_size)) by {
        assert forall|x: Point| kernel(p, kernel_size).contains(x) implies seen.contains(x) by {
            assert(order@.to_set().contains(x));
            let m = choose|m: int| 0 <= m < order@.len() && order@[m] == x;
        }
    }
}

/// Grows the group of `seed` by moving cells out of `pending` while any of
/// them lies in the kernel of a cell already taken. `done` holds the groups
/// found before, each closed in `all`.
fn flood(
    seed: Point,
    pending: &mut Points,
    kernel_size: usize,
    Ghost(all): Ghost<Set<Point>>,
    Ghost(done): Ghost<Seq<Set<Point>>>,
) -> (group: Points)
    requires
        old(pending)@.finite(),
        all.contains(seed),
        !old(pending)@.contains(seed),
        old(pending)@.subset_of(all),
        forall|x: Point|
            all.contains(x) ==> old(pending)@.contains(x) || x == seed || exists|i: int|
                0 <= i < done.len() && #[trigger] done[i].contains(x),
        forall|i: int| 0 <= i < done.len() ==> closed(all, kernel_size, #[trigger] done[i]),
        forall|i: int, x: Point|
            0 <= i < done.len() && #[trigger] done[i].contains(x) ==> !old(pending)@.contains(x)
                && x != seed,
    ensures
        group@.contains(seed),
        closed(all, kernel_size, group@),
        forall|x: Point| group@.contains(x) ==> #[trigger] component(all, kernel_size, x) == group@,
        final(pending)@ == old(pending)@.difference(group@),
        final(pending)@.finite(),
        forall|x: Point| group@.contains(x) ==> x == seed || old(pending)@.contains(x),
{
    let ghost k = kernel_size;
    let ghost p0 = pending@;
    let mut group = empty_points();
    let mut staging: Vec<Point> = Vec::new();
    staging.push(seed);
    proof {
        lemma_reach_refl(all, k, seed);
        assert(staging@[0] == seed);
        assert forall|x: Point| staging@.contains(x) implies x == seed by {
            let m = choose|m: int| 0 <= m < staging@.len() && staging@[m] == x;
        }
    }
    while staging.len() > 0
        invariant
            k == kernel_size,
            all.contains(seed),
            !p0.contains(seed),
            p0.subset_of(all),
            forall|x: Point|
                all.contains(x) ==> p0.contains(x) || x == seed || exists|i: int|
                    0 <= i < done.len() && #[trigger] done[i].contains(x),
            forall|i: int| 0 <= i < done.len() ==> closed(all, k, #[trigger] done[i]),
            forall|i: int, x: Point|
                0 <= i < done.len() && #[trigger] done[i].contains(x) ==> !p0.contains(x) && x
                    != seed,
            pending@.finite(),
            forall|x: Point|
                (p0.contains(x) || x == seed) <==> (pending@.contains(x) || group@.contains(x)
                    || staging@.contains(x)),
            forall|x: Point|
                staging@.contains(x) ==> !pending@.contains(x) && !group@.contains(x),
            forall|x: Point| group@.contains(x) ==> !pending@.contains(x),
            staging@.no_duplicates(),
            forall|x: Point|
                group@.contains(x) || staging@.contains(x) ==> reachable(all, k, seed, x),
            forall|c: Point, d: Point|
                #![trigger group@.contains(c), all.contains(d), adjacent(c, d, k)]
                group@.contains(c) && all.contains(d) && adjacent(c, d, k) ==> group@.contains(d)
                    || staging@.contains(d),
            group@.contains(seed) || staging@.contains(seed),
        decreases pending@.len() + staging@.len(),
    {
        let ghost g0 = group@;
        let ghost pend0 = pending@;
        let ghost st0 = staging@;
        let cur = staging.pop().unwrap();
        let ghost st_mid = staging@;
        proof {
            assert(st0 =~= st_mid.push(cur));
            assert(st0[st0.len() - 1] == cur);
            assert forall|x: Point| #[trigger] st0.contains(x) <==> (st_mid.contains(x) || x == cur) by {
                if st0.contains(x) {
                    let m = choose|m: int| 0 <= m < st0.len() && st0[m] == x;
                    if m < st_mid.len() {
                        assert(st_mid[m] == x);
                    }
                }
                if st_mid.contains(x) {
                    let m = choose|m: int| 0 <= m < st_mid.len() && st_mid[m] == x;
                    assert(st0[m] == x);
                }
            }
            assert(!st_mid.contains(cur)) by {
                if st_mid.contains(cur) {
                    let m = choose|m: int| 0 <= m < st_mid.len() && st_mid[m] == cur;
                    assert(st0[m] == st0[st0.len() - 1]);
                }
            }
            assert(st_mid.no_duplicates()) by {
                assert forall|i: int, j: int|
                    0 <= i < st_mid.len() && 0 <= j < st_mid.len() && i != j implies st_mid[i]
                    != st_mid[j] by {
                    assert(st0[i] == st_mid[i] && st0[j] == st_mid[j]);
                }
            }
        }
        proof {
            assert forall|x: Point| st_mid.contains(x) implies !pend0.contains(x) by {
                assert(st0.contains(x));
            }
        }
        process_neighbours(cur, &mut staging, pending, kernel_size);
        insert_point(&mut group, cur);
        proof {
            assert(reachable(all, k, seed, cur));
            assert(p0.contains(cur) || cur == seed);
            assert(all.contains(cur));
            assert forall|x: Point| group@.contains(x) || staging@.contains(x) implies reachable(
                all,
                k,
                seed,
                x,
            ) by {
                if staging@.contains(x) && !st_mid.contains(x) {
                    lemma_reach_step(all, k, seed, cur, x);
                }
            }
            assert forall|c: Point, d: Point|
                #![trigger group@.contains(c), all.contains(d), adjacent(c, d, k)]
                group@.contains(c) && all.contains(d) && adjacent(c, d, k) implies group@.contains(d)
                || staging@.contains(d) by {
                if c == cur {
                    if !(p0.contains(d) || d == seed) {
                        let i = choose|i: int| 0 <= i < done.len() && #[trigger] done[i].contains(d);
                        assert(closed(all, k, done[i]));
                        assert(adjacent(d, cur, k));
                        assert(done[i].contains(cur));
                    }
                } else {
                    assert(g0.contains(c));
                    assert(g0.contains(d) || st0.contains(d));
                }
            }
        }
    }
    proof {
        assert(closed(all, k, group@));
        lemma_component_of_closed(all, k, group@, seed);
        assert(pending@ =~= p0.difference(group@));
    }
    group
}


/// A table of groups: the group with id `i` is the set at index `i`, ids
/// being handed out in the order in which groups are found.
pub type GroupTable = Vec<Points>;

/// The groups of a table as sets of cells, by id.
pub open spec fn group_sets(t: GroupTable) -> Seq<Set<Point>> {
    t@.map_values(|g: Points| g@)
}

/// `groups` are the connected components of `cells` under the kernel of
/// half-width `k`: each is non-empty and is the component of each of its
/// members, every cell lies in one of them, and no two of them meet.
pub open spec fn is_grouping(cells: Set<Point>, k: usize, groups: Seq<Set<Point>>) -> bool {
    &&& forall|i: int| 0 <= i < groups.len() ==> !(#[trigger] groups[i]).is_empty()
    &&& forall|i: int, c: Point|
        0 <= i < groups.len() && #[trigger] groups[i].contains(c) ==> groups[i] == component(
            cells,
            k,
            c,
        )
    &&& forall|c: Point|
        cells.contains(c) ==> exists|i: int| 0 <= i < groups.len() && #[trigger] groups[i].contains(c)
    &&& forall|i: int, j: int|
        0 <= i < j < groups.len() ==> (#[trigger] groups[i]).disjoint(#[trigger] groups[j])
}

/// Splits a set of cells into groups: two cells share a group exactly when a
/// chain of cells of the set leads from one to the other, each step staying
/// within the kernel of half-width `kernel_size`. The work is iterative, so
/// large groups need no deep recursion.
pub fn group_points(cells: Points, kernel_size: usize) -> (r: GroupTable)
    ensures
        is_grouping(cells@, kernel_size, group_sets(r)),
{
    let ghost k = kernel_size;
    let order = points_to_vec(&cells);
    let ghost all = cells@;
    proof {
        vstd::seq_lib::seq_to_set_is_finite(order@);
    }
    let mut pending = cells;
    let mut table: GroupTable = Vec::new();
    let mut n: usize = 0;
    assert(group_sets(table) =~= Seq::<Set<Point>>::empty());
    while n < order.len()
        invariant
            k == kernel_size,
            n <= order@.len(),
            order@.to_set() == all,
            all.finite(),
            pending@.subset_of(all),
            forall|m: int| 0 <= m < n ==> !pending@.contains(#[trigger] order@[m]),
            forall|x: Point|
                all.contains(x) ==> pending@.contains(x) || exists|i: int|
                    0 <= i < group_sets(table).len() && #[trigger] group_sets(table)[i].contains(x),
            forall|i: int, x: Point|
                0 <= i < group_sets(table).len() && #[trigger] group_sets(table)[i].contains(x)
                    ==> !pending@.contains(x),
            forall|i: int|
                0 <= i < group_sets(table).len() ==> closed(all, k, #[trigger] group_sets(table)[i]),
            forall|i: int|
                0 <= i < group_sets(table).len() ==> !(#[trigger] group_sets(table)[i]).is_empty(),
            forall|i: int, c: Point|
                0 <= i < group_sets(table).len() && #[trigger] group_sets(table)[i].contains(c)
                    ==> group_sets(table)[i] == component(all, k, c),
            forall|i: int, j: int|
                0 <= i < j < group_sets(table).len() ==> (#[trigger] group_sets(table)[i]).disjoint(
                    #[trigger] group_sets(table)[j],
                ),
        decreases order@.len() - n,
    {
        let c = order[n];
        assert(order@.to_set().contains(c));
        let ghost pend0 = pending@;
        let ghost gs0 = group_sets(table);
        if remove_point(&mut pending, &c) {
            proof {
                vstd::set_lib::lemma_set_subset_finite(all, pending@);
            }
            let group = flood(c, &mut pending, kernel_size, Ghost(all), Ghost(gs0));
            table.push(group);
            proof {
                let gs = group_sets(table);
                assert(gs =~= gs0.push(group@));
                assert(gs[gs.len() - 1] == group@);
                assert forall|i: int, x: Point|
                    0 <= i < gs.len() && #[trigger] gs[i].contains(x) implies !pending@.contains(x) by {
                    if i < gs0.len() {
                        assert(gs0[i].contains(x));
                    }
                }
                assert forall|x: Point| all.contains(x) implies pending@.contains(x) || exists|i: int|
                    0 <= i < gs.len() && #[trigger] gs[i].contains(x) by {
                    if !pending@.contains(x) {
                        if pend0.contains(x) {
                            assert(gs[gs.len() - 1].contains(x));
                        } else {
                            let i = choose|i: int| 0 <= i < gs0.len() && #[trigger] gs0[i].contains(x);
                            assert(gs[i].contains(x));
                        }
                    }
                }
                assert forall|i: int, j: int| 0 <= i < j < gs.len() implies (#[trigger] gs[i]).disjoint(
                    #[trigger] gs[j],
                ) by {
                    if j == gs.len() - 1 {
                        assert forall|x: Point| gs[i].contains(x) implies !gs[j].contains(x) by {
                            assert(gs0[i].contains(x));
                        }
                    } else {
                        assert(gs0[i].disjoint(gs0[j]));
                    }
                }
                assert forall|i: int| 0 <= i < gs.len() implies !(#[trigger] gs[i]).is_empty() by {
                    if i == gs.len() - 1 {
                        assert(gs[i].contains(c));
                    } else {
                        assert(!gs0[i].is_empty());
                    }
                }
            }
        }
        n = n + 1;
    }
    proof {
        let gs = group_sets(table);
        assert forall|x: Point| all.contains(x) implies exists|i: int|
            0 <= i < gs.len() && #[trigger] gs[i].contains(x) by {
            assert(order@.to_set().contains(x));
            let m = choose|m: int| 0 <= m < order@.len() && order@[m] == x;
            assert(!pending@.contains(order@[m]));
        }
    }
    table
}

/// Extracts the groups of the grid's cells whose value the filter keeps:
/// the cells are selected as `filter_map` does and then split as
/// `group_points` does, with `kernel_size` as the neighbour kernel.
pub fn extract_groups(grid: &Grid, filter: CellFilter, kernel_size: usize) -> (r: GroupTable)
    requires
        grid.wf(),
    ensures
        is_grouping(selected(grid, filter), kernel_size, group_sets(r)),
{
    let cells = filter_map(grid, filter);
    group_points(cells, kernel_size)
}


/// The cells that lie in some group.
pub open spec fn union_of(groups: Seq<Set<Point>>) -> Set<Point> {
    Set::new(|c: Point| exists|i: int| 0 <= i < groups.len() && #[trigger] groups[i].contains(c))
}

proof fn lemma_member_of_group(cells: Set<Point>, k: usize, groups: Seq<Set<Point>>, i: int, c: Point)
    requires
        is_grouping(cells, k, groups),
        0 <= i < groups.len(),
        groups[i].contains(c),
    ensures
        cells.contains(c),
        component(cells, k, c) == groups[i],
{
    assert(component(cells, k, c).contains(c));
    lemma_reach_ends(cells, k, c, c);
}

/// The groups partition the cells: together they hold exactly the cells,
/// and no cell lies in two groups.
pub proof fn lemma_groups_partition(cells: Set<Point>, k: usize, groups: Seq<Set<Point>>)
    requires
        is_grouping(cells, k, groups),
    ensures
        union_of(groups) == cells,
        forall|i: int, j: int, c: Point|
            0 <= i < groups.len() && 0 <= j < groups.len() && i != j && #[trigger] groups[i].contains(
                c,
            ) ==> !#[trigger] groups[j].contains(c),
{
    assert forall|c: Point| union_of(groups).contains(c) implies cells.contains(c) by {
        let i = choose|i: int| 0 <= i < groups.len() && #[trigger] groups[i].contains(c);
        lemma_member_of_group(cells, k, groups, i, c);
    }
    assert(union_of(groups) =~= cells);
    assert forall|i: int, j: int, c: Point|
        0 <= i < groups.len() && 0 <= j < groups.len() && i != j && #[trigger] groups[i].contains(
            c,
        ) implies !#[trigger] groups[j].contains(c) by {
        if i < j {
            assert(groups[i].disjoint(groups[j]));
        } else {
            assert(groups[j].disjoint(groups[i]));
        }
    }
}

/// Two groupings of the same cells under the same kernel hold the same
/// groups, whatever ids they gave them: the partition does not depend on
/// the order in which cells were visited.
pub proof fn lemma_grouping_unique(
    cells: Set<Point>,
    k: usize,
    g1: Seq<Set<Point>>,
    g2: Seq<Set<Point>>,
)
    requires
        is_grouping(cells, k, g1),
        is_grouping(cells, k, g2),
    ensures
        g1.to_set() == g2.to_set(),
{
    assert forall|i: int| 0 <= i < g1.len() implies g2.contains(#[trigger] g1[i]) by {
        lemma_same_group_found(cells, k, g1, g2, i);
    }
    assert forall|i: int| 0 <= i < g2.len() implies g1.contains(#[trigger] g2[i]) by {
        lemma_same_group_found(cells, k, g2, g1, i);
    }
    assert forall|s: Set<Point>| g1.to_set().contains(s) <==> g2.to_set().contains(s) by {
        if g1.contains(s) {
            let i = choose|i: int| 0 <= i < g1.len() && g1[i] == s;
            assert(g2.contains(g1[i]));
        }
        if g2.contains(s) {
            let i = choose|i: int| 0 <= i < g2.len() && g2[i] == s;
            assert(g1.contains(g2[i]));
        }
    }
    assert(g1.to_set() =~= g2.to_set());
}

proof fn lemma_same_group_found(
    cells: Set<Point>,
    k: usize,
    g1: Seq<Set<Point>>,
    g2: Seq<Set<Point>>,
    i: int,
)
    requires
        is_grouping(cells, k, g1),
        is_grouping(cells, k, g2),
        0 <= i < g1.len(),
    ensures
        g2.contains(g1[i]),
{
    assert(!g1[i].is_empty());
    assert(exists|c: Point| g1[i].contains(c));
    let c = choose|c: Point| g1[i].contains(c);
    lemma_member_of_group(cells, k, g1, i, c);
    let j = choose|j: int| 0 <= j < g2.len() && #[trigger] g2[j].contains(c);
    assert(g2[j] == component(cells, k, c));
    assert(g2[j] == g1[i]);
}

proof fn lemma_reach_wider(cells: Set<Point>, k1: usize, k2: usize, c: Point, d: Point)
    requires
        k1 <= k2,
        reachable(cells, k1, c, d),
    ensures
        reachable(cells, k2, c, d),
{
    let path = choose|path: Seq<Point>|
        #[trigger] is_path(cells, k1, path) && path[0] == c && path.last() == d;
    assert forall|i: int| 0 <= i < path.len() - 1 implies adjacent(#[trigger] path[i], path[i + 1], k2) by {
        assert(adjacent(path[i], path[i + 1], k1));
    }
    assert(is_path(cells, k2, path));
}

/// Widening the kernel never splits a group: two cells that share a group
/// found with the smaller kernel share a group found with the larger.
pub proof fn lemma_kernel_monotone(
    cells: Set<Point>,
    k1: usize,
    k2: usize,
    g1: Seq<Set<Point>>,
    g2: Seq<Set<Point>>,
)
    requires
        k1 <= k2,
        is_grouping(cells, k1, g1),
        is_grouping(cells, k2, g2),
    ensures
        forall|i: int, j: int, c: Point, d: Point|
            0 <= i < g1.len() && 0 <= j < g2.len() && #[trigger] g1[i].contains(c) && #[trigger] g1[
                i
            ].contains(d) && #[trigger] g2[j].contains(c) ==> g2[j].contains(d),
{
    assert forall|i: int, j: int, c: Point, d: Point|
        0 <= i < g1.len() && 0 <= j < g2.len() && #[trigger] g1[i].contains(c) && #[trigger] g1[
            i
        ].contains(d) && #[trigger] g2[j].contains(c) implies g2[j].contains(d) by {
        lemma_member_of_group(cells, k1, g1, i, c);
        assert(component(cells, k1, c).contains(d));
        lemma_reach_wider(cells, k1, k2, c, d);
        assert(g2[j] == component(cells, k2, c));
    }
}

} // verus!
