//! What a route through a grid is and what it costs.

use super::grid::GridModel;
use super::point::Point3D;
use vstd::prelude::*;

verus! {

/// `b` is a neighbour of `a`: exactly one coordinate differs, and by exactly one.
pub open spec fn unit_step(a: Point3D, b: Point3D) -> bool {
    ||| (b.x - a.x == 1 || b.x - a.x == -1) && b.y == a.y && b.z == a.z
    ||| b.x == a.x && (b.y - a.y == 1 || b.y - a.y == -1) && b.z == a.z
    ||| b.x == a.x && b.y == a.y && (b.z - a.z == 1 || b.z - a.z == -1)
}

/// The step from `path[i]` to `path[i + 1]` is a unit step.
pub open spec fn step_at(path: Seq<Point3D>, i: int) -> bool {
    unit_step(path[i], path[i + 1])
}

/// Every two consecutive points of `path` are neighbours.
pub open spec fn unit_steps(path: Seq<Point3D>) -> bool {
    forall|i: int| 0 <= i < path.len() - 1 ==> #[trigger] step_at(path, i)
}

/// `path` is a walk through cells of `g` that can be entered.
pub open spec fn is_route(g: GridModel, path: Seq<Point3D>) -> bool {
    &&& path.len() >= 1
    &&& forall|i: int| 0 <= i < path.len() ==> g.passable(#[trigger] path[i])
    &&& unit_steps(path)
}

/// `path` is a route that leads from `start` to `goal`.
pub open spec fn connects(g: GridModel, path: Seq<Point3D>, start: Point3D, goal: Point3D) -> bool {
    &&& is_route(g, path)
    &&& path[0] == start
    &&& path.last() == goal
}

/// The cost of walking `path`: the costs of all cells entered, which are
/// all its points but the first.
pub open spec fn path_cost(g: GridModel, path: Seq<Point3D>) -> int
    decreases path.len(),
{
    if path.len() <= 1 {
        0
    } else {
        path_cost(g, path.drop_last()) + g.cost(path.last())
    }
}

/// How often `path` enters `cell`.
pub open spec fn entries(path: Seq<Point3D>, cell: Point3D) -> int
    decreases path.len(),
{
    if path.len() <= 1 {
        0
    } else {
        entries(path.drop_last(), cell) + if path.last() == cell {
            1int
        } else {
            0int
        }
    }
}

/// A route of one point costs nothing, and each further step adds the cost
/// of the cell it enters.
pub proof fn lemma_cost_of_prefix(g: GridModel, path: Seq<Point3D>, k: int)
    requires
        1 <= k < path.len(),
    ensures
        path_cost(g, path.take(1)) == 0,
        path_cost(g, path.take(k + 1)) == path_cost(g, path.take(k)) + g.cost(path[k]),
{
    assert(path.take(k + 1).drop_last() =~= path.take(k));
}

/// A route costs at least one per step, and no fewer steps lead from any of
/// its points to its end than the Manhattan distance between the two.
pub proof fn lemma_rest_of_route(g: GridModel, path: Seq<Point3D>, j: int)
    requires
        is_route(g, path),
        0 <= j < path.len(),
    ensures
        path_cost(g, path.take(j + 1)) + path[j].distance(path.last()) <= path_cost(g, path),
    decreases path.len() - j,
{
    if j == path.len() - 1 {
        assert(path.take(j + 1) =~= path);
    } else {
        lemma_rest_of_route(g, path, j + 1);
        lemma_cost_of_prefix(g, path, j + 1);
        assert(step_at(path, j));
        assert(g.passable(path[j + 1]));
    }
}

/// A route that costs nothing has not moved.
pub proof fn lemma_free_route_is_one_point(g: GridModel, path: Seq<Point3D>)
    requires
        is_route(g, path),
        path_cost(g, path) <= 0,
    ensures
        path.len() == 1,
{
    if path.len() > 1 {
        lemma_rest_of_route(g, path, 0);
        lemma_rest_of_route(g, path, 1);
        lemma_cost_of_prefix(g, path, 1);
        assert(g.passable(path[1]));
    }
}

/// Raising the cost of one cell raises the cost of a path through the grid
/// by the raise for each time the path enters the cell: never less than
/// before, and more as soon as the path crosses the cell.
pub proof fn lemma_cost_is_monotone(g: GridModel, cell: Point3D, cost: u16, path: Seq<Point3D>)
    requires
        g.wf(),
        g.contains(cell),
        forall|i: int| 0 <= i < path.len() ==> g.contains(#[trigger] path[i]),
        cost >= g.cost(cell),
    ensures
        path_cost(g.with_cost(cell, cost), path) == path_cost(g, path) + (cost - g.cost(cell))
            * entries(path, cell),
        path_cost(g.with_cost(cell, cost), path) >= path_cost(g, path),
        entries(path, cell) >= 0,
    decreases path.len(),
{
    if path.len() > 1 {
        let raised = g.with_cost(cell, cost);
        let last = path.last();
        let front = path.drop_last();
        assert forall|i: int| 0 <= i < front.len() implies g.contains(#[trigger] front[i]) by {
            assert(front[i] == path[i]);
        }
        lemma_cost_is_monotone(g, cell, cost, front);
        g.lemma_index_in_range(cell);
        g.lemma_index_in_range(last);
        if last != cell {
            if g.index_of(last) == g.index_of(cell) {
                g.lemma_index_injective(last, cell);
            }
        }
        let raise = cost - g.cost(cell);
        let seen = entries(front, cell);
        assert(raise * (seen + 1) == raise * seen + raise) by (nonlinear_arith);
        assert(raise * seen >= 0) by (nonlinear_arith)
            requires
                raise >= 0,
                seen >= 0,
        ;
    } else {
        let raise = cost - g.cost(cell);
        assert(raise * 0 == 0) by (nonlinear_arith);
    }
}

} // verus!
