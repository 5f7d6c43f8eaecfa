use turtle_manager::pathfinder::{astar_find_path, path_to_moves, Grid, Point3D};

fn cube() -> Grid {
    Grid::new(Point3D::new(0, 0, 0), Point3D::new(2, 2, 2), 1)
}

fn words(moves: &[&str]) -> Vec<String> {
    moves.iter().map(|m| m.to_string()).collect()
}

#[test]
fn step_east_into_a_free_cell() {
    let grid = cube();
    let path = vec![Point3D::new(0, 0, 0), Point3D::new(1, 0, 0)];
    assert_eq!(path_to_moves(&grid, &path), Ok(words(&["east"])));
}

#[test]
fn step_east_into_a_cell_that_needs_digging() {
    let mut grid = cube();
    grid.set_cost(Point3D::new(1, 0, 0), 5);
    let path = vec![Point3D::new(0, 0, 0), Point3D::new(1, 0, 0)];
    assert_eq!(path_to_moves(&grid, &path), Ok(words(&["faceeast", "dig", "east"])));
}

#[test]
fn cost_one_never_digs_and_cost_two_does() {
    let mut grid = cube();
    let path = vec![Point3D::new(1, 1, 1), Point3D::new(0, 1, 1)];
    grid.set_cost(Point3D::new(0, 1, 1), 1);
    assert_eq!(path_to_moves(&grid, &path), Ok(words(&["west"])));
    grid.set_cost(Point3D::new(0, 1, 1), 2);
    assert_eq!(path_to_moves(&grid, &path), Ok(words(&["facewest", "dig", "west"])));
}

#[test]
fn north_is_minus_z_and_south_is_plus_z() {
    let mut grid = cube();
    let mid = Point3D::new(1, 1, 1);
    let north = Point3D::new(1, 1, 0);
    let south = Point3D::new(1, 1, 2);
    assert_eq!(path_to_moves(&grid, &[mid, north]), Ok(words(&["north"])));
    assert_eq!(path_to_moves(&grid, &[mid, south]), Ok(words(&["south"])));
    grid.set_cost(north, 2);
    grid.set_cost(south, 2);
    assert_eq!(path_to_moves(&grid, &[mid, north]), Ok(words(&["facenorth", "dig", "north"])));
    assert_eq!(path_to_moves(&grid, &[mid, south]), Ok(words(&["facesouth", "dig", "south"])));
}

#[test]
fn vertical_steps_dig_without_turning() {
    let mut grid = cube();
    let mid = Point3D::new(1, 1, 1);
    let above = Point3D::new(1, 2, 1);
    let below = Point3D::new(1, 0, 1);
    assert_eq!(path_to_moves(&grid, &[mid, above]), Ok(words(&["up"])));
    assert_eq!(path_to_moves(&grid, &[mid, below]), Ok(words(&["down"])));
    grid.set_cost(above, 3);
    grid.set_cost(below, 3);
    assert_eq!(path_to_moves(&grid, &[mid, above]), Ok(words(&["digup", "up"])));
    assert_eq!(path_to_moves(&grid, &[mid, below]), Ok(words(&["digdown", "down"])));
}

#[test]
fn short_paths_give_no_command() {
    let grid = cube();
    assert_eq!(path_to_moves(&grid, &[]), Ok(Vec::new()));
    assert_eq!(path_to_moves(&grid, &[Point3D::new(1, 1, 1)]), Ok(Vec::new()));
    assert_eq!(path_to_moves(&grid, &[Point3D::new(9, 9, 9)]), Ok(Vec::new()));
}

#[test]
fn commands_follow_the_steps_in_order() {
    let mut grid = cube();
    grid.set_cost(Point3D::new(1, 1, 0), 2);
    grid.set_cost(Point3D::new(1, 1, 1), 4);
    let path = vec![
        Point3D::new(0, 0, 0),
        Point3D::new(1, 0, 0),
        Point3D::new(1, 1, 0),
        Point3D::new(1, 1, 1),
        Point3D::new(0, 1, 1),
        Point3D::new(0, 0, 1),
        Point3D::new(0, 0, 0),
    ];
    assert_eq!(
        path_to_moves(&grid, &path),
        Ok(words(&["east", "digup", "up", "facesouth", "dig", "south", "west", "down", "north"]))
    );
}

#[test]
fn steps_outside_the_grid_never_dig() {
    let grid = cube();
    let path = vec![Point3D::new(2, 2, 2), Point3D::new(3, 2, 2), Point3D::new(3, 3, 2)];
    assert_eq!(path_to_moves(&grid, &path), Ok(words(&["east", "up"])));
}

#[test]
fn closed_cell_is_stepped_into_without_digging() {
    let mut grid = cube();
    grid.set_cost(Point3D::new(1, 0, 0), 0);
    let path = vec![Point3D::new(0, 0, 0), Point3D::new(1, 0, 0)];
    assert_eq!(path_to_moves(&grid, &path), Ok(words(&["east"])));
}

#[test]
fn jump_of_two_cells_is_an_invalid_step() {
    let grid = cube();
    let path = vec![Point3D::new(0, 0, 0), Point3D::new(2, 0, 0)];
    assert_eq!(
        path_to_moves(&grid, &path),
        Err("Invalid step from Point3D { x: 0, y: 0, z: 0 } to Point3D { x: 2, y: 0, z: 0 } (dx=2, dy=0, dz=0)"
            .to_string())
    );
}

#[test]
fn invalid_step_message_matches_the_debug_form_of_the_points() {
    let grid = cube();
    let a = Point3D::new(1, -2, 3);
    let b = Point3D::new(0, -1, 3);
    let expected = format!("Invalid step from {:?} to {:?} (dx={}, dy={}, dz={})", a, b, -1, 1, 0);
    assert_eq!(path_to_moves(&grid, &[a, b]), Err(expected));
}

#[test]
fn standing_still_is_an_invalid_step() {
    let grid = cube();
    let p = Point3D::new(1, 1, 1);
    assert_eq!(
        path_to_moves(&grid, &[p, p]),
        Err("Invalid step from Point3D { x: 1, y: 1, z: 1 } to Point3D { x: 1, y: 1, z: 1 } (dx=0, dy=0, dz=0)"
            .to_string())
    );
}

#[test]
fn first_invalid_step_is_the_one_reported() {
    let grid = cube();
    let path = vec![
        Point3D::new(0, 0, 0),
        Point3D::new(1, 0, 0),
        Point3D::new(2, 1, 0),
        Point3D::new(0, 0, 0),
    ];
    assert_eq!(
        path_to_moves(&grid, &path),
        Err("Invalid step from Point3D { x: 1, y: 0, z: 0 } to Point3D { x: 2, y: 1, z: 0 } (dx=1, dy=1, dz=0)"
            .to_string())
    );
}

#[test]
fn step_across_the_whole_axis_is_invalid() {
    let grid = cube();
    let path = vec![Point3D::new(i32::MIN, 0, 0), Point3D::new(i32::MAX, 0, 0)];
    assert_eq!(
        path_to_moves(&grid, &path),
        Err(format!(
            "Invalid step from Point3D {{ x: {}, y: 0, z: 0 }} to Point3D {{ x: {}, y: 0, z: 0 }} (dx={}, dy=0, dz=0)",
            i32::MIN,
            i32::MAX,
            u32::MAX
        ))
    );
}

#[test]
fn found_routes_always_give_commands() {
    let mut grid = cube();
    grid.set_cost(Point3D::new(1, 0, 0), 0);
    grid.set_cost(Point3D::new(0, 1, 0), 2);
    grid.set_cost(Point3D::new(0, 0, 1), 2);
    let path = astar_find_path(&grid, Point3D::new(0, 0, 0), Point3D::new(2, 2, 2)).unwrap();
    let moves = path_to_moves(&grid, &path).unwrap();
    let steps = moves
        .iter()
        .filter(|m| ["east", "west", "north", "south", "up", "down"].contains(&m.as_str()))
        .count();
    assert_eq!(steps, path.len() - 1);
    assert!(moves.iter().any(|m| m.starts_with("dig")));
}
