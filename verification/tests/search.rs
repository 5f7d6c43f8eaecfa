use turtle_manager::pathfinder::{astar_find_path, Grid, Point3D};

fn cube() -> Grid {
    Grid::new(Point3D::new(0, 0, 0), Point3D::new(2, 2, 2), 1)
}

fn is_unit_step(a: Point3D, b: Point3D) -> bool {
    let dx = (b.x - a.x).abs();
    let dy = (b.y - a.y).abs();
    let dz = (b.z - a.z).abs();
    dx + dy + dz == 1
}

fn cost_of(grid: &Grid, path: &[Point3D]) -> u32 {
    path.iter().skip(1).map(|p| grid.cost_point(*p).unwrap() as u32).sum()
}

fn assert_route(grid: &Grid, path: &[Point3D], start: Point3D, goal: Point3D) {
    assert_eq!(path.first(), Some(&start));
    assert_eq!(path.last(), Some(&goal));
    for p in path {
        assert!(grid.cost_point(*p).unwrap() > 0);
    }
    for pair in path.windows(2) {
        assert!(is_unit_step(pair[0], pair[1]));
    }
}

#[test]
fn open_cube_is_crossed_in_six_steps() {
    let grid = cube();
    let start = Point3D::new(0, 0, 0);
    let goal = Point3D::new(2, 2, 2);
    let path = astar_find_path(&grid, start, goal).unwrap();
    assert_eq!(path.len(), 7);
    assert_eq!(cost_of(&grid, &path), 6);
    assert_route(&grid, &path, start, goal);
}

#[test]
fn closed_cell_is_walked_around() {
    let mut grid = cube();
    let closed = Point3D::new(1, 0, 0);
    grid.set_cost(closed, 0);
    let start = Point3D::new(0, 0, 0);
    let goal = Point3D::new(2, 2, 2);
    let path = astar_find_path(&grid, start, goal).unwrap();
    assert!(!path.contains(&closed));
    assert!(cost_of(&grid, &path) >= 6);
    assert_eq!(cost_of(&grid, &path), 6);
    assert_route(&grid, &path, start, goal);
}

#[test]
fn start_equal_to_goal_gives_one_point() {
    let grid = cube();
    let p = Point3D::new(1, 2, 0);
    assert_eq!(astar_find_path(&grid, p, p), Some(vec![p]));
}

#[test]
fn closed_goal_gives_no_path() {
    let mut grid = cube();
    let goal = Point3D::new(2, 2, 2);
    grid.set_cost(goal, 0);
    assert_eq!(astar_find_path(&grid, Point3D::new(0, 0, 0), goal), None);
    assert_eq!(astar_find_path(&grid, goal, goal), None);
}

#[test]
fn closed_start_gives_no_path() {
    let mut grid = cube();
    let start = Point3D::new(0, 0, 0);
    grid.set_cost(start, 0);
    assert_eq!(astar_find_path(&grid, start, Point3D::new(2, 2, 2)), None);
}

#[test]
fn endpoints_outside_the_grid_give_no_path() {
    let grid = cube();
    let inside = Point3D::new(1, 1, 1);
    assert_eq!(astar_find_path(&grid, Point3D::new(3, 0, 0), inside), None);
    assert_eq!(astar_find_path(&grid, inside, Point3D::new(0, -1, 0)), None);
}

#[test]
fn enclosed_goal_gives_no_path() {
    let mut grid = cube();
    let goal = Point3D::new(1, 1, 1);
    for p in [
        Point3D::new(0, 1, 1),
        Point3D::new(2, 1, 1),
        Point3D::new(1, 0, 1),
        Point3D::new(1, 2, 1),
        Point3D::new(1, 1, 0),
        Point3D::new(1, 1, 2),
    ] {
        grid.set_cost(p, 0);
    }
    assert_eq!(astar_find_path(&grid, Point3D::new(0, 0, 0), goal), None);
}

#[test]
fn neighbouring_cells_are_one_step_apart() {
    let grid = cube();
    let start = Point3D::new(1, 1, 1);
    let goal = Point3D::new(1, 0, 1);
    assert_eq!(astar_find_path(&grid, start, goal), Some(vec![start, goal]));
}

#[test]
fn cheap_detour_beats_a_dear_cell() {
    // a corridor three cells long and two wide; the middle of the straight way is dear
    let mut grid = Grid::new(Point3D::new(0, 0, 0), Point3D::new(2, 0, 1), 1);
    grid.set_cost(Point3D::new(1, 0, 0), 10);
    let start = Point3D::new(0, 0, 0);
    let goal = Point3D::new(2, 0, 0);
    let path = astar_find_path(&grid, start, goal).unwrap();
    assert_eq!(
        path,
        vec![
            start,
            Point3D::new(0, 0, 1),
            Point3D::new(1, 0, 1),
            Point3D::new(2, 0, 1),
            goal
        ]
    );
    assert_eq!(cost_of(&grid, &path), 4);
}

#[test]
fn dear_cell_is_crossed_when_the_detour_costs_more() {
    let mut grid = Grid::new(Point3D::new(0, 0, 0), Point3D::new(2, 0, 1), 1);
    grid.set_cost(Point3D::new(1, 0, 0), 3);
    grid.set_cost(Point3D::new(1, 0, 1), 2);
    let start = Point3D::new(0, 0, 0);
    let goal = Point3D::new(2, 0, 0);
    let path = astar_find_path(&grid, start, goal).unwrap();
    assert_eq!(path, vec![start, Point3D::new(1, 0, 0), goal]);
    assert_eq!(cost_of(&grid, &path), 4);
}

#[test]
fn only_way_through_a_dear_cell_is_taken() {
    let mut grid = Grid::new(Point3D::new(0, 0, 0), Point3D::new(4, 0, 0), 1);
    grid.set_cost(Point3D::new(2, 0, 0), u16::MAX);
    let start = Point3D::new(0, 0, 0);
    let goal = Point3D::new(4, 0, 0);
    let path = astar_find_path(&grid, start, goal).unwrap();
    assert_eq!(path.len(), 5);
    assert_eq!(cost_of(&grid, &path), 3 + u16::MAX as u32);
}

#[test]
fn raising_a_cost_never_makes_the_route_cheaper() {
    let start = Point3D::new(0, 0, 0);
    let goal = Point3D::new(2, 2, 0);
    let mut grid = Grid::new(Point3D::new(0, 0, 0), Point3D::new(2, 2, 0), 1);
    let mut last = 0;
    for raise in [1u16, 2, 5, 9, 200] {
        grid.set_cost(Point3D::new(1, 1, 0), raise);
        grid.set_cost(Point3D::new(1, 0, 0), raise);
        let path = astar_find_path(&grid, start, goal).unwrap();
        let cost = cost_of(&grid, &path);
        assert!(cost >= last);
        last = cost;
        assert_route(&grid, &path, start, goal);
    }
    assert_eq!(last, 4);
}

#[test]
fn maze_is_solved_by_its_only_way() {
    // y = 0 plane, 5 x 5, walls leave one winding corridor
    let mut grid = Grid::new(Point3D::new(0, 0, 0), Point3D::new(4, 0, 4), 1);
    for (x, z) in [(1, 0), (1, 1), (1, 2), (1, 3), (3, 1), (3, 2), (3, 3), (3, 4)] {
        grid.set_cost(Point3D::new(x, 0, z), 0);
    }
    let start = Point3D::new(0, 0, 0);
    let goal = Point3D::new(4, 0, 4);
    let path = astar_find_path(&grid, start, goal).unwrap();
    assert_route(&grid, &path, start, goal);
    assert_eq!(path.len(), 17);
    assert_eq!(cost_of(&grid, &path), 16);
}

#[test]
fn search_gives_the_same_route_each_time() {
    let grid = cube();
    let start = Point3D::new(0, 0, 0);
    let goal = Point3D::new(2, 2, 2);
    let first = astar_find_path(&grid, start, goal);
    for _ in 0..5 {
        assert_eq!(astar_find_path(&grid, start, goal), first);
    }
}
