use turtle_manager::pathfinder::grid::cell_count;
use turtle_manager::pathfinder::{Grid, Point3D};

fn small_grid() -> Grid {
    Grid::new(Point3D::new(-1, 0, 10), Point3D::new(1, 3, 14), 1)
}

#[test]
fn manhattan_distance_adds_the_axis_gaps() {
    let a = Point3D::new(1, -2, 3);
    let b = Point3D::new(-4, 6, 3);
    assert_eq!(a.manhattan_distance(&b), 13);
    assert_eq!(b.manhattan_distance(&a), 13);
    assert_eq!(a.manhattan_distance(&a), 0);
}

#[test]
fn manhattan_distance_spans_the_whole_axis() {
    let a = Point3D::new(i32::MIN, 0, 0);
    let b = Point3D::new(i32::MAX, 0, 0);
    assert_eq!(a.manhattan_distance(&b), u32::MAX);
    assert_eq!(a.distance_wide(&Point3D::new(i32::MAX, 1, 0)), 1u64 << 32);
}

#[test]
fn points_are_equal_by_value() {
    assert_eq!(Point3D::new(1, 2, 3), Point3D { x: 1, y: 2, z: 3 });
    assert_ne!(Point3D::new(1, 2, 3), Point3D::new(1, 2, 4));
}

#[test]
fn new_grid_counts_its_cells() {
    let grid = small_grid();
    assert_eq!(grid.cells(), 3 * 4 * 5);
    assert_eq!(cell_count(Point3D::new(-1, 0, 10), Point3D::new(1, 3, 14)), Some(60));
}

#[test]
fn index_follows_the_row_major_formula() {
    let grid = small_grid();
    // offsets (2, 1, 3) in a box that is 4 deep and 5 wide
    assert_eq!(grid.idx(Point3D::new(1, 1, 13)), Some((2 * 4 + 1) * 5 + 3));
    assert_eq!(grid.idx(Point3D::new(-1, 0, 10)), Some(0));
    assert_eq!(grid.idx(Point3D::new(1, 3, 14)), Some(59));
    assert_eq!(grid.point(48), Point3D::new(1, 1, 13));
}

#[test]
fn index_and_point_are_inverse() {
    let grid = small_grid();
    for x in -1..=1 {
        for y in 0..=3 {
            for z in 10..=14 {
                let p = Point3D::new(x, y, z);
                let i = grid.idx(p).unwrap();
                assert!(i < grid.cells());
                assert_eq!(grid.point(i), p);
            }
        }
    }
    for i in 0..grid.cells() {
        assert_eq!(grid.idx(grid.point(i)), Some(i));
    }
}

#[test]
fn bounds_are_inclusive() {
    let grid = small_grid();
    assert!(grid.in_bounds(Point3D::new(-1, 0, 10)));
    assert!(grid.in_bounds(Point3D::new(1, 3, 14)));
    assert!(!grid.in_bounds(Point3D::new(-2, 0, 10)));
    assert!(!grid.in_bounds(Point3D::new(2, 3, 14)));
    assert!(!grid.in_bounds(Point3D::new(0, -1, 12)));
    assert!(!grid.in_bounds(Point3D::new(0, 4, 12)));
    assert!(!grid.in_bounds(Point3D::new(0, 0, 9)));
    assert!(!grid.in_bounds(Point3D::new(0, 0, 15)));
    assert_eq!(grid.idx(Point3D::new(0, 0, 15)), None);
}

#[test]
fn bounds_hold_at_the_ends_of_the_axes() {
    let grid = Grid::new(
        Point3D::new(i32::MAX - 1, i32::MIN, 0),
        Point3D::new(i32::MAX, i32::MIN + 1, 0),
        1,
    );
    assert_eq!(grid.cells(), 4);
    assert!(grid.in_bounds(Point3D::new(i32::MAX, i32::MIN, 0)));
    assert!(!grid.in_bounds(Point3D::new(i32::MIN, i32::MIN, 0)));
    assert_eq!(grid.point(3), Point3D::new(i32::MAX, i32::MIN + 1, 0));
}

#[test]
fn set_cost_changes_one_cell() {
    let mut grid = small_grid();
    let p = Point3D::new(0, 2, 12);
    grid.set_cost(p, 7);
    assert_eq!(grid.cost_point(p), Some(7));
    assert_eq!(grid.cost_idx(grid.idx(p).unwrap()), 7);
    for i in 0..grid.cells() {
        if grid.point(i) != p {
            assert_eq!(grid.cost_idx(i), 1);
        }
    }
}

#[test]
fn set_cost_outside_changes_nothing() {
    let mut grid = small_grid();
    grid.set_cost(Point3D::new(5, 5, 5), 9);
    for i in 0..grid.cells() {
        assert_eq!(grid.cost_idx(i), 1);
    }
    assert_eq!(grid.cost_point(Point3D::new(5, 5, 5)), None);
}

#[test]
fn grid_is_filled_with_the_default_cost() {
    let grid = Grid::new(Point3D::new(0, 0, 0), Point3D::new(1, 1, 1), 3);
    for i in 0..grid.cells() {
        assert_eq!(grid.cost_idx(i), 3);
    }
}

#[test]
fn try_new_refuses_an_empty_axis() {
    assert!(Grid::try_new(Point3D::new(1, 0, 0), Point3D::new(0, 0, 0), 1).is_none());
    assert!(Grid::try_new(Point3D::new(0, 1, 0), Point3D::new(0, 0, 0), 1).is_none());
    assert!(Grid::try_new(Point3D::new(0, 0, 1), Point3D::new(0, 0, 0), 1).is_none());
    assert_eq!(cell_count(Point3D::new(0, 0, 1), Point3D::new(0, 0, 0)), None);
    let one = Grid::try_new(Point3D::new(4, 4, 4), Point3D::new(4, 4, 4), 1).unwrap();
    assert_eq!(one.cells(), 1);
}

#[test]
fn cell_count_refuses_a_box_too_large_to_count() {
    let min = Point3D::new(i32::MIN, i32::MIN, i32::MIN);
    let max = Point3D::new(i32::MAX, i32::MAX, i32::MAX);
    assert_eq!(cell_count(min, max), None);
    assert!(Grid::try_new(min, max, 1).is_none());
}
