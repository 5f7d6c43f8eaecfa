use std::cmp::Reverse;
use std::collections::BinaryHeap;

use turtle_manager::pathfinder::{astar_find_path, Grid, Point3D};

/// A small generator of numbers that look random and are the same on each run.
struct Dice(u64);

impl Dice {
    fn roll(&mut self, sides: u32) -> u32 {
        self.0 = self.0.wrapping_mul(6364136223846793005).wrapping_add(1442695040888963407);
        ((self.0 >> 33) as u32) % sides
    }
}

struct Plain {
    dims: (i32, i32, i32),
    costs: Vec<u16>,
}

impl Plain {
    fn at(&self, p: (i32, i32, i32)) -> Option<usize> {
        let (x, y, z) = p;
        if x < 0 || y < 0 || z < 0 || x >= self.dims.0 || y >= self.dims.1 || z >= self.dims.2 {
            return None;
        }
        Some(((x * self.dims.1 + y) * self.dims.2 + z) as usize)
    }

    fn cell(&self, i: usize) -> (i32, i32, i32) {
        let plane = (self.dims.1 * self.dims.2) as usize;
        let x = i / plane;
        let y = (i % plane) / self.dims.2 as usize;
        let z = (i % plane) % self.dims.2 as usize;
        (x as i32, y as i32, z as i32)
    }
}

const STEPS: [(i32, i32, i32); 6] =
    [(1, 0, 0), (-1, 0, 0), (0, 1, 0), (0, -1, 0), (0, 0, 1), (0, 0, -1)];

fn distance(a: (i32, i32, i32), b: (i32, i32, i32)) -> u32 {
    ((a.0 - b.0).abs() + (a.1 - b.1).abs() + (a.2 - b.2).abs()) as u32
}

/// The same search written with the heap of the standard library. With
/// `guided` unset it looks at the cost so far alone.
fn plain_search(
    grid: &Plain,
    start: (i32, i32, i32),
    goal: (i32, i32, i32),
    guided: bool,
) -> Option<(Vec<(i32, i32, i32)>, u32)> {
    let s = grid.at(start)?;
    let t = grid.at(goal)?;
    if grid.costs[s] == 0 || grid.costs[t] == 0 {
        return None;
    }
    let mut best = vec![u32::MAX; grid.costs.len()];
    let mut parent = vec![usize::MAX; grid.costs.len()];
    let mut heap = BinaryHeap::new();
    best[s] = 0;
    heap.push(Reverse((if guided { distance(start, goal) } else { 0 }, 0u32, s)));
    while let Some(Reverse((_, g, cur))) = heap.pop() {
        if g != best[cur] {
            continue;
        }
        if cur == t {
            let mut path = vec![grid.cell(cur)];
            let mut i = cur;
            while parent[i] != usize::MAX {
                i = parent[i];
                path.push(grid.cell(i));
            }
            path.reverse();
            return Some((path, g));
        }
        let p = grid.cell(cur);
        for d in STEPS {
            let q = (p.0 + d.0, p.1 + d.1, p.2 + d.2);
            let Some(nb) = grid.at(q) else { continue };
            if grid.costs[nb] == 0 {
                continue;
            }
            let reached = g.saturating_add(grid.costs[nb] as u32);
            if reached < best[nb] {
                best[nb] = reached;
                parent[nb] = cur;
                let h = if guided { distance(q, goal) } else { 0 };
                heap.push(Reverse((reached.saturating_add(h), reached, nb)));
            }
        }
    }
    None
}

fn random_pair(dice: &mut Dice) -> (Plain, Grid) {
    let dims = (1 + dice.roll(4) as i32, 1 + dice.roll(4) as i32, 1 + dice.roll(4) as i32);
    let mut grid = Grid::new(Point3D::new(0, 0, 0), Point3D::new(dims.0 - 1, dims.1 - 1, dims.2 - 1), 1);
    let mut costs = Vec::new();
    for x in 0..dims.0 {
        for y in 0..dims.1 {
            for z in 0..dims.2 {
                let cost = [0u16, 1, 1, 1, 2, 3, 9, 1][dice.roll(8) as usize];
                grid.set_cost(Point3D::new(x, y, z), cost);
                costs.push(cost);
            }
        }
    }
    (Plain { dims, costs }, grid)
}

#[test]
fn search_agrees_with_a_search_on_the_standard_heap() {
    let mut dice = Dice(7);
    let mut found = 0;
    for _ in 0..400 {
        let (plain, grid) = random_pair(&mut dice);
        let start = (
            dice.roll(plain.dims.0 as u32) as i32,
            dice.roll(plain.dims.1 as u32) as i32,
            dice.roll(plain.dims.2 as u32) as i32,
        );
        let goal = (
            dice.roll(plain.dims.0 as u32) as i32,
            dice.roll(plain.dims.1 as u32) as i32,
            dice.roll(plain.dims.2 as u32) as i32,
        );
        let expected = plain_search(&plain, start, goal, true).map(|(path, _)| path);
        let got = astar_find_path(
            &grid,
            Point3D::new(start.0, start.1, start.2),
            Point3D::new(goal.0, goal.1, goal.2),
        )
        .map(|path| path.iter().map(|p| (p.x, p.y, p.z)).collect::<Vec<_>>());
        assert_eq!(got, expected);
        if got.is_some() {
            found += 1;
        }
    }
    assert!(found > 100);
}

#[test]
fn found_routes_are_as_cheap_as_any() {
    let mut dice = Dice(11);
    for _ in 0..400 {
        let (plain, grid) = random_pair(&mut dice);
        let start = (0, 0, 0);
        let goal = (plain.dims.0 - 1, plain.dims.1 - 1, plain.dims.2 - 1);
        let cheapest = plain_search(&plain, start, goal, false).map(|(_, cost)| cost);
        let got = astar_find_path(
            &grid,
            Point3D::new(start.0, start.1, start.2),
            Point3D::new(goal.0, goal.1, goal.2),
        )
        .map(|path| {
            path.iter().skip(1).map(|p| grid.cost_point(*p).unwrap() as u32).sum::<u32>()
        });
        assert_eq!(got, cheapest);
    }
}
