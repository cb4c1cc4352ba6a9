use obstacle_groups::bbox::{bounding_box, box_passes, screen_group, screen_groups, BoundingBox};
use obstacle_groups::grid::{filter_map, CellFilter, Grid};
use obstacle_groups::groups::{extract_groups, group_points, neighbours, GroupTable};
use obstacle_groups::points::{empty_points, Point, Points};

fn set_of(cells: &[Point]) -> Points {
    let mut s = empty_points();
    for c in cells {
        s.insert(*c);
    }
    s
}

fn grid_with(width: usize, height: usize, on: &dyn Fn(usize, usize) -> bool) -> Grid {
    let mut data = Vec::new();
    for r in 0..height {
        for c in 0..width {
            data.push(if on(r, c) { 100 } else { 0 });
        }
    }
    Grid::new(width, height, data).unwrap()
}

fn sorted_groups(t: &GroupTable) -> Vec<Vec<Point>> {
    let mut out: Vec<Vec<Point>> = t
        .iter()
        .map(|g| {
            let mut v: Vec<Point> = g.iter().copied().collect();
            v.sort();
            v
        })
        .collect();
    out.sort();
    out
}

#[test]
fn neighbours_of_interior_cell() {
    let n = neighbours((5, 5), 2);
    let mut expected = Vec::new();
    for r in 4..7 {
        for c in 4..7 {
            expected.push((r, c));
        }
    }
    assert_eq!(n, set_of(&expected));
}

#[test]
fn neighbours_at_the_corner_stay_in_range() {
    let n = neighbours((0, 0), 3);
    let mut expected = Vec::new();
    for r in 0..3 {
        for c in 0..3 {
            expected.push((r, c));
        }
    }
    assert_eq!(n, set_of(&expected));
}

#[test]
fn neighbours_at_the_top_of_usize() {
    let n = neighbours((usize::MAX, 7), 2);
    let expected = [
        (usize::MAX - 1, 6),
        (usize::MAX - 1, 7),
        (usize::MAX - 1, 8),
        (usize::MAX, 6),
        (usize::MAX, 7),
        (usize::MAX, 8),
    ];
    assert_eq!(n, set_of(&expected));
}

#[test]
fn kernel_of_size_zero_and_one() {
    assert!(neighbours((3, 4), 0).is_empty());
    assert_eq!(neighbours((3, 4), 1), set_of(&[(3, 4)]));
}

#[test]
fn grid_rejects_wrong_data_length() {
    assert!(Grid::new(3, 2, vec![0; 5]).is_none());
    assert!(Grid::new(3, 2, vec![0; 7]).is_none());
    assert!(Grid::new(3, 2, vec![0; 6]).is_some());
    assert!(Grid::new(usize::MAX, 2, vec![]).is_none());
}

#[test]
fn filter_maps_linear_index_to_row_and_col() {
    // 3 rows of 4 cells: index = row * 4 + col.
    let data: Vec<i8> = vec![0, 0, 0, 90, 0, 60, 0, 0, -1, 0, 0, 100];
    let grid = Grid::new(4, 3, data).unwrap();
    let cells = filter_map(&grid, CellFilter::Above(50));
    assert_eq!(cells, set_of(&[(0, 3), (1, 1), (2, 3)]));
    let unknown = filter_map(&grid, CellFilter::Equals(-1));
    assert_eq!(unknown, set_of(&[(2, 0)]));
}

#[test]
fn filter_threshold_is_strict() {
    let grid = Grid::new(3, 1, vec![49, 50, 51]).unwrap();
    assert_eq!(filter_map(&grid, CellFilter::Above(50)), set_of(&[(0, 2)]));
    assert!(CellFilter::Above(50).accepts(51));
    assert!(!CellFilter::Above(50).accepts(50));
    assert!(CellFilter::Equals(50).accepts(50));
}

#[test]
fn filled_square_is_one_group_of_sixteen() {
    let grid = grid_with(10, 10, &|r, c| (3..7).contains(&r) && (3..7).contains(&c));
    let groups = extract_groups(&grid, CellFilter::Above(50), 3);
    assert_eq!(groups.len(), 1);
    assert_eq!(groups[0].len(), 16);
    // 0.09 m and 1.5 m at 0.05 m per cell, squared, in cells.
    let b = screen_group(&groups[0], 4, 900).unwrap();
    assert_eq!(
        b,
        BoundingBox { upper: (3, 6), lower: (6, 3), left: (3, 3), right: (6, 6) }
    );
}

#[test]
fn filled_disc_is_one_group() {
    let grid = grid_with(10, 10, &|r, c| {
        let dr = r as i64 - 5;
        let dc = c as i64 - 5;
        dr * dr + dc * dc <= 4
    });
    let groups = extract_groups(&grid, CellFilter::Above(50), 3);
    assert_eq!(groups.len(), 1);
    assert_eq!(groups[0].len(), 13);
    assert!(screen_group(&groups[0], 4, 900).is_some());
}

#[test]
fn groups_partition_the_filtered_cells() {
    let grid = grid_with(12, 8, &|r, c| (r + 2 * c) % 5 == 0 || (r == 7 && c > 6));
    let cells = filter_map(&grid, CellFilter::Above(50));
    let groups = extract_groups(&grid, CellFilter::Above(50), 2);
    let mut total = 0;
    let mut union = empty_points();
    for g in &groups {
        assert!(!g.is_empty());
        total += g.len();
        for c in g {
            union.insert(*c);
        }
    }
    assert_eq!(union, cells);
    assert_eq!(total, cells.len());
}

#[test]
fn grouping_does_not_depend_on_visit_order() {
    let cells_a: Vec<Point> = vec![(0, 0), (0, 1), (5, 5), (6, 6), (9, 0), (2, 9), (3, 9)];
    let mut cells_b = cells_a.clone();
    cells_b.reverse();
    let ga = group_points(set_of(&cells_a), 2);
    let gb = group_points(set_of(&cells_b), 2);
    assert_eq!(sorted_groups(&ga), sorted_groups(&gb));
    assert_eq!(
        sorted_groups(&ga),
        vec![
            vec![(0, 0), (0, 1)],
            vec![(2, 9), (3, 9)],
            vec![(5, 5), (6, 6)],
            vec![(9, 0)],
        ]
    );
}

#[test]
fn wider_kernel_only_merges() {
    // Two blocks two empty columns apart: columns 1 and 4 differ by 3.
    let grid = grid_with(10, 5, &|r, c| r < 2 && (c < 2 || (4..6).contains(&c)));
    let narrow = extract_groups(&grid, CellFilter::Above(50), 3);
    let wide = extract_groups(&grid, CellFilter::Above(50), 4);
    assert_eq!(narrow.len(), 2);
    assert_eq!(wide.len(), 1);
    for g in &narrow {
        assert!(g.iter().all(|c| wide[0].contains(c)));
    }
}

#[test]
fn kernel_of_size_one_isolates_every_cell() {
    let cells = set_of(&[(0, 0), (0, 1), (1, 1)]);
    let groups = group_points(cells, 1);
    assert_eq!(groups.len(), 3);
    assert!(groups.iter().all(|g| g.len() == 1));
}

#[test]
fn empty_cell_set_gives_no_groups() {
    assert!(group_points(empty_points(), 3).is_empty());
    let grid = grid_with(4, 4, &|_, _| false);
    assert!(extract_groups(&grid, CellFilter::Above(50), 3).is_empty());
}

#[test]
fn bounding_box_of_a_tilted_group() {
    let cells = set_of(&[(2, 4), (4, 2), (6, 4), (4, 6), (4, 4)]);
    let b = bounding_box(&cells).unwrap();
    assert_eq!(b, BoundingBox { upper: (2, 4), lower: (6, 4), left: (4, 2), right: (4, 6) });
    assert!(bounding_box(&empty_points()).is_none());
}

#[test]
fn small_group_is_rejected() {
    // Two neighbouring cells: both edges one cell long, under the least
    // plausible edge of 1.8 cells.
    let cells = set_of(&[(4, 4), (4, 5)]);
    let b = bounding_box(&cells).unwrap();
    assert!(!box_passes(&b, 4, 900));
    assert!(screen_group(&cells, 4, 900).is_none());
    assert!(screen_group(&cells, 1, 900).is_none());
    assert!(screen_group(&cells, 0, 900).is_some());
}

#[test]
fn oversized_group_is_rejected() {
    // A 40 by 40 cell square: diagonal of about 55 cells, over 30.
    let grid = grid_with(50, 50, &|r, c| r >= 5 && r < 45 && c >= 5 && c < 45);
    let groups = extract_groups(&grid, CellFilter::Above(50), 2);
    assert_eq!(groups.len(), 1);
    assert!(screen_group(&groups[0], 4, 900).is_none());
    assert!(screen_group(&groups[0], 4, 39 * 39 * 2).is_some());
}

#[test]
fn edge_and_diagonal_limits_are_inclusive() {
    let b = BoundingBox { upper: (0, 2), lower: (2, 0), left: (0, 0), right: (2, 2) };
    // Edges of 2 cells (squared 4), diagonal squared 8.
    assert!(box_passes(&b, 4, 8));
    assert!(!box_passes(&b, 5, 8));
    assert!(!box_passes(&b, 4, 7));
}

#[test]
fn far_apart_cells_do_not_overflow() {
    let b = BoundingBox {
        upper: (0, 0),
        lower: (usize::MAX, 0),
        left: (0, 0),
        right: (usize::MAX, usize::MAX),
    };
    // The diagonal squared is 2 * (2^64 - 1)^2, beyond every limit.
    assert!(!box_passes(&b, 4, u64::MAX));
    let m = usize::MAX;
    let near = BoundingBox { upper: (m - 3, 0), lower: (m, 0), left: (m - 3, 0), right: (m, 3) };
    assert!(box_passes(&near, 9, 18));
    assert!(!box_passes(&near, 10, 18));
    assert!(!box_passes(&near, 9, 17));
}

#[test]
fn screen_keeps_passing_groups_in_id_order() {
    let grid = grid_with(20, 10, &|r, c| {
        ((1..5).contains(&r) && (1..5).contains(&c)) || (r == 8 && c == 8) || ((2..6).contains(&r) && (12..17).contains(&c))
    });
    let groups = extract_groups(&grid, CellFilter::Above(50), 2);
    assert_eq!(groups.len(), 3);
    let kept = screen_groups(&groups, 4, 900);
    assert_eq!(kept.len(), 2);
    assert!(kept[0].0 < kept[1].0);
    for (id, b) in &kept {
        assert!(groups[*id].len() > 1);
        assert_eq!(screen_group(&groups[*id], 4, 900), Some(*b));
    }
}
