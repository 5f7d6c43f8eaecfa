//! Weighted A* over the six neighbours of each cell.
//!
//! The file states what the search yields, describes the search as a
//! function on its state, proves of that function that it yields a cheapest
//! route, and then gives the executable search, which follows the function
//! step by step.

use super::frontier::{Frontier, State};
use super::grid::{Grid, GridModel};
use super::point::Point3D;
use super::route::{
    connects, is_route, lemma_cost_is_monotone, lemma_cost_of_prefix,
    lemma_free_route_is_one_point, lemma_rest_of_route, path_cost, step_at, unit_step,
};
use vstd::multiset::Multiset;
use vstd::prelude::*;

verus! {

/// The mark of a cell that no route has reached yet.
const NO_PARENT: usize = usize::MAX;

/// `path` leads from `start` to `goal`, costs less than `u32::MAX`, and no
/// route between the two costs less.
pub open spec fn cheapest_route(
    g: GridModel,
    path: Seq<Point3D>,
    start: Point3D,
    goal: Point3D,
) -> bool {
    &&& connects(g, path, start, goal)
    &&& path_cost(g, path) < u32::MAX
    &&& forall|other: Seq<Point3D>| #[trigger]
        connects(g, other, start, goal) ==> path_cost(g, path) <= path_cost(g, other)
}

/// No route that costs less than `u32::MAX` leads from `start` to `goal`.
pub open spec fn no_route(g: GridModel, start: Point3D, goal: Point3D) -> bool {
    forall|other: Seq<Point3D>| #[trigger]
        connects(g, other, start, goal) ==> path_cost(g, other) >= u32::MAX
}

/// The route that a search of `g` from `start` to `goal` yields: of the
/// cheapest routes the one that the order of the frontier singles out, and
/// `None` where the search finds no route.
pub closed spec fn found_route(g: GridModel, start: Point3D, goal: Point3D) -> Option<
    Seq<Point3D>,
> {
    if g.passable(start) && g.passable(goal) {
        run(g, g.index_of(start), goal, initial(g, start, goal))
    } else {
        None
    }
}

/// What the search yields is a cheapest route, and it yields one wherever
/// a route that costs less than `u32::MAX` exists. It yields none where the
/// start or the goal cannot be entered, and the start alone where the two
/// are the same cell.
pub proof fn lemma_found_route(g: GridModel, start: Point3D, goal: Point3D)
    requires
        g.wf(),
    ensures
        match found_route(g, start, goal) {
            Some(path) => cheapest_route(g, path, start, goal),
            None => no_route(g, start, goal),
        },
        !g.passable(start) || !g.passable(goal) ==> found_route(g, start, goal) is None,
        start == goal && g.passable(start) ==> found_route(g, start, goal) == Some(seq![start]),
{
    if g.passable(start) && g.passable(goal) {
        lemma_init(g, start, goal);
        lemma_run(g, start, goal, initial(g, start, goal));
        if start == goal {
            let alone = seq![start];
            assert(connects(g, alone, start, goal));
            assert(path_cost(g, alone) == 0);
            let path = found_route(g, start, goal)->0;
            lemma_free_route_is_one_point(g, path);
            assert(path =~= alone);
        }
    } else {
        assert forall|other: Seq<Point3D>| #[trigger] connects(g, other, start, goal) implies false by {
            assert(g.passable(other[0]));
            assert(g.passable(other[other.len() - 1]));
        }
    }
}

/// Raising the cost of a cell that can be entered never makes the search
/// cheaper: the cheapest route of the grid with the raised cost costs, in
/// that grid, no less than the cheapest route of the grid before costs
/// there.
pub proof fn lemma_search_is_monotone(
    g: GridModel,
    cell: Point3D,
    cost: u16,
    start: Point3D,
    goal: Point3D,
    before: Seq<Point3D>,
    after: Seq<Point3D>,
)
    requires
        g.wf(),
        g.passable(cell),
        cost >= g.cost(cell),
        cheapest_route(g, before, start, goal),
        cheapest_route(g.with_cost(cell, cost), after, start, goal),
    ensures
        path_cost(g, before) <= path_cost(g.with_cost(cell, cost), after),
{
    let raised = g.with_cost(cell, cost);
    g.lemma_index_in_range(cell);
    assert forall|i: int| 0 <= i < after.len() implies g.passable(#[trigger] after[i]) by {
        assert(raised.passable(after[i]));
        g.lemma_index_in_range(after[i]);
    }
    assert(connects(g, after, start, goal));
    lemma_cost_is_monotone(g, cell, cost, after);
}

/// The state of a search: the best known cost of each cell, the cell from
/// which it was reached, and the frontier.
struct SearchModel {
    best: Seq<u32>,
    parent: Seq<usize>,
    open: Multiset<State>,
}

/// `v`, cut off at `u32::MAX`: what a saturating addition gives for the sum `v`.
spec fn capped(v: int) -> int {
    if v > u32::MAX {
        u32::MAX as int
    } else {
        v
    }
}

/// The estimated cost of the way from the cell at `i` to `goal`.
spec fn estimate(g: GridModel, goal: Point3D, i: int) -> int {
    capped(g.point_at(i).distance(goal) as int)
}

/// The state in which a search from `start` begins.
spec fn initial(g: GridModel, start: Point3D, goal: Point3D) -> SearchModel {
    SearchModel {
        best: Seq::new(g.costs.len(), |i: int| u32::MAX).update(g.index_of(start), 0u32),
        parent: Seq::new(g.costs.len(), |i: int| NO_PARENT),
        open: Multiset::<State>::empty().insert(
            State {
                f: capped(start.distance(goal) as int) as u32,
                g: 0,
                idx: g.index_of(start) as usize,
            },
        ),
    }
}

/// `e` is in `open` and leaves it before every other entry.
spec fn leaves_first(open: Multiset<State>, e: State) -> bool {
    &&& open.count(e) > 0
    &&& forall|x: State| open.count(x) > 0 ==> e.precedes(x)
}

/// The entry that leaves `open` first.
spec fn first_out(open: Multiset<State>) -> State {
    choose|e: State| leaves_first(open, e)
}

/// The neighbour of `p` in the direction `d`: +x, -x, +y, -y, +z, -z for
/// 0 to 5. There is none where the coordinate would leave the `i32` range.
spec fn step_to(p: Point3D, d: int) -> Option<Point3D> {
    if d == 0 {
        if p.x < i32::MAX {
            Some(Point3D { x: (p.x + 1) as i32, y: p.y, z: p.z })
        } else {
            None
        }
    } else if d == 1 {
        if p.x > i32::MIN {
            Some(Point3D { x: (p.x - 1) as i32, y: p.y, z: p.z })
        } else {
            None
        }
    } else if d == 2 {
        if p.y < i32::MAX {
            Some(Point3D { x: p.x, y: (p.y + 1) as i32, z: p.z })
        } else {
            None
        }
    } else if d == 3 {
        if p.y > i32::MIN {
            Some(Point3D { x: p.x, y: (p.y - 1) as i32, z: p.z })
        } else {
            None
        }
    } else if d == 4 {
        if p.z < i32::MAX {
            Some(Point3D { x: p.x, y: p.y, z: (p.z + 1) as i32 })
        } else {
            None
        }
    } else {
        if p.z > i32::MIN {
            Some(Point3D { x: p.x, y: p.y, z: (p.z - 1) as i32 })
        } else {
            None
        }
    }
}

/// The neighbour of cell `c` in the direction `d` can be entered and is
/// reached more cheaply through `c` than it was before.
spec fn improves(g: GridModel, st: SearchModel, c: int, d: int) -> bool {
    match step_to(g.point_at(c), d) {
        Some(q) => g.passable(q) && capped(st.best[c] + g.cost(q)) < st.best[g.index_of(q)],
        None => false,
    }
}

/// The state after the search has looked from cell `c` in the direction
/// `d`: where that improves the neighbour, the neighbour has its new cost
/// and parent and is in the frontier.
spec fn relax(g: GridModel, goal: Point3D, st: SearchModel, c: int, d: int) -> SearchModel {
    if improves(g, st, c, d) {
        let q = step_to(g.point_at(c), d)->0;
        let nb = g.index_of(q);
        let t = (st.best[c] + g.cost(q)) as u32;
        SearchModel {
            best: st.best.update(nb, t),
            parent: st.parent.update(nb, c as usize),
            open: st.open.insert(
                State { f: capped(t + estimate(g, goal, nb)) as u32, g: t, idx: nb as usize },
            ),
        }
    } else {
        st
    }
}

/// The state after the search has looked from cell `c` in the directions from `d` on.
spec fn expand_from(g: GridModel, goal: Point3D, st: SearchModel, c: int, d: int) -> SearchModel
    decreases 6 - d,
{
    if d >= 6 {
        st
    } else {
        expand_from(g, goal, relax(g, goal, st, c, d), c, d + 1)
    }
}

/// The cells from the start to cell `i`, along the parents.
spec fn chain(g: GridModel, start: int, goal: Point3D, st: SearchModel, i: int) -> Seq<Point3D>
    decreases st.best[i],
    when base_inv(g, start, goal, st) && 0 <= i < st.best.len() && st.best[i] < u32::MAX
{
    if st.parent[i] == NO_PARENT {
        seq![g.point_at(i)]
    } else {
        proof {
            assert(linked_at(g, start, st, i));
        }
        chain(g, start, goal, st, st.parent[i] as int).push(g.point_at(i))
    }
}

/// The sum of all best known costs.
spec fn total(s: Seq<u32>) -> int
    decreases s.len(),
{
    if s.len() == 0 {
        0
    } else {
        total(s.drop_last()) + s.last()
    }
}

/// The whole search from the state `st` on: the route on which the goal
/// is reached, or `None` where the frontier runs empty before.
spec fn run(g: GridModel, start: int, goal: Point3D, st: SearchModel) -> Option<Seq<Point3D>>
    decreases total(st.best), st.open.len(),
    when inv(g, start, goal, st)
    via run_terminates
{
    if st.open.len() == 0 {
        None
    } else {
        let e = first_out(st.open);
        let rest = SearchModel { open: st.open.remove(e), ..st };
        if e.g != st.best[e.idx as int] {
            run(g, start, goal, rest)
        } else if e.idx == g.index_of(goal) {
            Some(chain(g, start, goal, st, e.idx as int))
        } else {
            run(g, start, goal, expand_from(g, goal, rest, e.idx as int, 0))
        }
    }
}

/// The entry with which cell `i` is in the frontier at its best known cost.
spec fn entry_for(g: GridModel, goal: Point3D, best: Seq<u32>, i: int) -> State {
    State { f: capped(best[i] + estimate(g, goal, i)) as u32, g: best[i], idx: i as usize }
}

/// The frontier holds the entry of cell `i` at its best known cost.
spec fn live(g: GridModel, goal: Point3D, st: SearchModel, i: int) -> bool {
    st.open.count(entry_for(g, goal, st.best, i)) > 0
}

/// The best known cost of `q` is no more than what the step from cell `i` would give.
spec fn relaxed_to(g: GridModel, best: Seq<u32>, i: int, q: Point3D) -> bool {
    g.passable(q) ==> best[g.index_of(q)] <= best[i] + g.cost(q)
}

/// No step from cell `i` would improve a neighbour.
spec fn relaxed(g: GridModel, best: Seq<u32>, i: int) -> bool {
    forall|q: Point3D| #[trigger] unit_step(g.point_at(i), q) ==> relaxed_to(g, best, i, q)
}

/// A cell that was reached is waiting in the frontier or has been expanded at its best known cost.
spec fn settled_at(g: GridModel, goal: Point3D, st: SearchModel, i: int) -> bool {
    st.best[i] < u32::MAX ==> live(g, goal, st, i) || relaxed(g, st.best, i)
}

/// A cell that was reached, other than the start, has a neighbour as its
/// parent, from which it costs no more than its best known cost.
spec fn linked_at(g: GridModel, start: int, st: SearchModel, i: int) -> bool {
    st.best[i] < u32::MAX && i != start ==> {
        &&& st.parent[i] < st.best.len()
        &&& g.costs[i] != 0
        &&& unit_step(g.point_at(st.parent[i] as int), g.point_at(i))
        &&& st.best[st.parent[i] as int] + g.costs[i] <= st.best[i]
    }
}

/// The entry names a cell, was reached, and carries the estimate that belongs to its cost.
spec fn sound_entry(g: GridModel, goal: Point3D, cells: nat, e: State) -> bool {
    &&& e.idx < cells
    &&& e.g < u32::MAX
    &&& e.f == capped(e.g + estimate(g, goal, e.idx as int))
}

/// What holds of the costs, the parents and the entries at every moment of the search.
spec fn base_inv(g: GridModel, start: int, goal: Point3D, st: SearchModel) -> bool {
    &&& g.wf()
    &&& st.best.len() == g.costs.len()
    &&& st.parent.len() == g.costs.len()
    &&& 0 <= start < g.costs.len()
    &&& g.costs[start] != 0
    &&& st.best[start] == 0
    &&& st.parent[start] == NO_PARENT
    &&& forall|i: int| 0 <= i < st.best.len() ==> #[trigger] linked_at(g, start, st, i)
    &&& forall|e: State| #[trigger] st.open.count(e) > 0 ==> sound_entry(g, goal, st.best.len(), e)
}

/// What holds between two rounds of the search.
spec fn inv(g: GridModel, start: int, goal: Point3D, st: SearchModel) -> bool {
    &&& base_inv(g, start, goal, st)
    &&& g.contains(goal)
    &&& forall|i: int| 0 <= i < st.best.len() ==> #[trigger] settled_at(g, goal, st, i)
    &&& st.best[g.index_of(goal)] < u32::MAX ==> live(g, goal, st, g.index_of(goal))
}

/// The number of the direction of the unit step from `p` to `q`.
spec fn dir_of(p: Point3D, q: Point3D) -> int {
    if q.x - p.x == 1 {
        0
    } else if q.x - p.x == -1 {
        1
    } else if q.y - p.y == 1 {
        2
    } else if q.y - p.y == -1 {
        3
    } else if q.z - p.z == 1 {
        4
    } else {
        5
    }
}

/// What holds while cell `c` is expanded and its neighbours in the
/// directions below `d` have been looked at.
spec fn inv_expanding(
    g: GridModel,
    start: int,
    goal: Point3D,
    st: SearchModel,
    c: int,
    d: int,
) -> bool {
    &&& base_inv(g, start, goal, st)
    &&& g.contains(goal)
    &&& 0 <= c < st.best.len()
    &&& c != g.index_of(goal)
    &&& st.best[c] < u32::MAX
    &&& forall|i: int| 0 <= i < st.best.len() && i != c ==> #[trigger] settled_at(g, goal, st, i)
    &&& forall|q: Point3D| #[trigger]
        unit_step(g.point_at(c), q) && dir_of(g.point_at(c), q) < d ==> relaxed_to(g, st.best, c, q)
    &&& st.best[g.index_of(goal)] < u32::MAX ==> live(g, goal, st, g.index_of(goal))
}

/// Replacing one cost changes the sum by the difference.
proof fn lemma_total_update(s: Seq<u32>, i: int, v: u32)
    requires
        0 <= i < s.len(),
    ensures
        total(s.update(i, v)) == total(s) - s[i] + v,
        total(s) >= 0,
    decreases s.len(),
{
    lemma_total_nonnegative(s);
    if i == s.len() - 1 {
        assert(s.update(i, v).drop_last() =~= s.drop_last());
    } else {
        lemma_total_update(s.drop_last(), i, v);
        assert(s.update(i, v).drop_last() =~= s.drop_last().update(i, v));
    }
}

/// The sum of the costs is never negative.
proof fn lemma_total_nonnegative(s: Seq<u32>)
    ensures
        total(s) >= 0,
    decreases s.len(),
{
    if s.len() > 0 {
        lemma_total_nonnegative(s.drop_last());
    }
}

/// Taking out an entry leaves one entry fewer.
proof fn lemma_remove_len(open: Multiset<State>, e: State)
    requires
        open.count(e) > 0,
    ensures
        open.remove(e).len() == open.len() - 1,
{
    assert(Multiset::singleton(e).subset_of(open)) by {
        assert forall|x: State| Multiset::singleton(e).count(x) <= open.count(x) by {}
    }
    vstd::multiset::axiom_len_sub(open, Multiset::singleton(e));
}

/// Only one entry leaves first.
proof fn lemma_first_out(open: Multiset<State>, e: State)
    requires
        leaves_first(open, e),
    ensures
        first_out(open) == e,
{
    let other = first_out(open);
    assert(leaves_first(open, other));
    assert(e.precedes(other) && other.precedes(e));
}

/// A frontier that is not empty has an entry that leaves first.
proof fn lemma_first_exists(open: Multiset<State>)
    requires
        open.len() > 0,
    ensures
        leaves_first(open, first_out(open)),
    decreases open.len(),
{
    let a = open.choose();
    let others = open.remove(a);
    lemma_remove_len(open, a);
    if others.len() == 0 {
        assert forall|x: State| open.count(x) > 0 implies a.precedes(x) by {
            if x != a {
                assert(others.count(x) > 0);
                vstd::multiset::axiom_count_le_len(others, x);
            }
        }
        assert(leaves_first(open, a));
    } else {
        lemma_first_exists(others);
        let b = first_out(others);
        let least = if a.precedes(b) {
            a
        } else {
            b
        };
        assert forall|x: State| open.count(x) > 0 implies least.precedes(x) by {
            if x != a {
                assert(others.count(x) > 0);
                assert(b.precedes(x));
            }
        }
        assert(leaves_first(open, least));
    }
}

/// The search begins in a state in which all holds that holds between its rounds.
proof fn lemma_init(g: GridModel, start: Point3D, goal: Point3D)
    requires
        g.wf(),
        g.passable(start),
        g.contains(goal),
    ensures
        inv(g, g.index_of(start), goal, initial(g, start, goal)),
{
    let st = initial(g, start, goal);
    let s = g.index_of(start);
    g.lemma_index_in_range(start);
    g.lemma_index_in_range(goal);
    g.lemma_point_round_trip(start);
    assert(entry_for(g, goal, st.best, s) == State {
        f: capped(start.distance(goal) as int) as u32,
        g: 0,
        idx: s as usize,
    });
    assert(live(g, goal, st, s));
    assert forall|i: int| 0 <= i < st.best.len() implies #[trigger] settled_at(g, goal, st, i) by {}
    assert forall|i: int| 0 <= i < st.best.len() implies #[trigger] linked_at(g, s, st, i) by {}
}

/// Taking an entry out of the frontier leaves the costs and the parents
/// as they are and the entries that stay sound.
proof fn lemma_without_entry(g: GridModel, start: int, goal: Point3D, st: SearchModel, e: State)
    requires
        base_inv(g, start, goal, st),
    ensures
        base_inv(g, start, goal, SearchModel { open: st.open.remove(e), ..st }),
{
    let after = SearchModel { open: st.open.remove(e), ..st };
    assert forall|i: int| 0 <= i < after.best.len() implies #[trigger] linked_at(
        g,
        start,
        after,
        i,
    ) by {
        assert(linked_at(g, start, st, i));
    }
    assert forall|x: State| #[trigger] after.open.count(x) > 0 implies sound_entry(
        g,
        goal,
        after.best.len(),
        x,
    ) by {
        assert(st.open.count(x) > 0);
    }
}

/// Dropping an entry whose cost is no longer the best known of its cell changes nothing else.
proof fn lemma_stale(g: GridModel, start: int, goal: Point3D, st: SearchModel, e: State)
    requires
        inv(g, start, goal, st),
        st.open.count(e) > 0,
        e.g != st.best[e.idx as int],
    ensures
        inv(g, start, goal, SearchModel { open: st.open.remove(e), ..st }),
{
    let after = SearchModel { open: st.open.remove(e), ..st };
    g.lemma_index_in_range(goal);
    lemma_without_entry(g, start, goal, st, e);
    assert forall|i: int| 0 <= i < after.best.len() implies #[trigger] settled_at(
        g,
        goal,
        after,
        i,
    ) by {
        assert(settled_at(g, goal, st, i));
    }
}

/// Once the entry of a cell other than the goal has left at its best known
/// cost, the cell can be expanded.
proof fn lemma_begin_expand(g: GridModel, start: int, goal: Point3D, st: SearchModel, e: State)
    requires
        inv(g, start, goal, st),
        st.open.count(e) > 0,
        e.g == st.best[e.idx as int],
        e.idx != g.index_of(goal),
    ensures
        inv_expanding(g, start, goal, SearchModel { open: st.open.remove(e), ..st }, e.idx as int, 0),
{
    let after = SearchModel { open: st.open.remove(e), ..st };
    g.lemma_index_in_range(goal);
    assert(sound_entry(g, goal, st.best.len(), e));
    lemma_without_entry(g, start, goal, st, e);
    assert forall|i: int| 0 <= i < after.best.len() && i != e.idx implies #[trigger] settled_at(
        g,
        goal,
        after,
        i,
    ) by {
        assert(settled_at(g, goal, st, i));
    }
}

/// Looking from the cell that is expanded in one more direction keeps what
/// holds during the expansion.
proof fn lemma_relax(g: GridModel, start: int, goal: Point3D, st: SearchModel, c: int, d: int)
    requires
        inv_expanding(g, start, goal, st, c, d),
        0 <= d < 6,
    ensures
        inv_expanding(g, start, goal, relax(g, goal, st, c, d), c, d + 1),
{
    if improves(g, st, c, d) {
        let q = step_to(g.point_at(c), d)->0;
        lemma_improve(g, start, goal, st, c, d, q);
    } else {
        assert forall|r: Point3D| #[trigger]
            unit_step(g.point_at(c), r) && dir_of(g.point_at(c), r) == d implies relaxed_to(
            g,
            st.best,
            c,
            r,
        ) by {
            assert(step_to(g.point_at(c), d) == Some(r));
        }
    }
}

/// Where a step improves a neighbour, the new cost, parent and entry of
/// the neighbour are sound.
proof fn lemma_improve_base(
    g: GridModel,
    start: int,
    goal: Point3D,
    st: SearchModel,
    c: int,
    d: int,
    q: Point3D,
)
    requires
        inv_expanding(g, start, goal, st, c, d),
        0 <= d < 6,
        step_to(g.point_at(c), d) == Some(q),
        improves(g, st, c, d),
    ensures
        base_inv(g, start, goal, relax(g, goal, st, c, d)),
        g.index_of(q) != c,
        0 <= g.index_of(q) < st.best.len(),
        g.point_at(g.index_of(q)) == q,
        unit_step(g.point_at(c), q) && dir_of(g.point_at(c), q) == d,
{
    let nb = g.index_of(q);
    let after = relax(g, goal, st, c, d);
    let entry = entry_for(g, goal, after.best, nb);
    g.lemma_index_in_range(q);
    g.lemma_index_round_trip(c);
    g.lemma_point_round_trip(q);
    if nb == c {
        g.lemma_index_injective(g.point_at(c), q);
    }
    assert(after.open == st.open.insert(entry));
    assert forall|i: int| 0 <= i < after.best.len() implies #[trigger] linked_at(
        g,
        start,
        after,
        i,
    ) by {
        assert(linked_at(g, start, st, i));
    }
    assert forall|x: State| #[trigger] after.open.count(x) > 0 implies sound_entry(
        g,
        goal,
        after.best.len(),
        x,
    ) by {
        if x != entry {
            assert(st.open.count(x) > 0);
        }
    }
}

/// The same where the step improves the neighbour `q`.
proof fn lemma_improve(
    g: GridModel,
    start: int,
    goal: Point3D,
    st: SearchModel,
    c: int,
    d: int,
    q: Point3D,
)
    requires
        inv_expanding(g, start, goal, st, c, d),
        0 <= d < 6,
        step_to(g.point_at(c), d) == Some(q),
        improves(g, st, c, d),
    ensures
        inv_expanding(g, start, goal, relax(g, goal, st, c, d), c, d + 1),
{
    let nb = g.index_of(q);
    let after = relax(g, goal, st, c, d);
    let p = g.point_at(c);
    lemma_improve_base(g, start, goal, st, c, d, q);
    assert(live(g, goal, after, nb));
    assert forall|i: int| 0 <= i < after.best.len() && i != c implies #[trigger] settled_at(
        g,
        goal,
        after,
        i,
    ) by {
        assert(settled_at(g, goal, st, i));
        if i != nb && after.best[i] < u32::MAX {
            if live(g, goal, st, i) {
                assert(entry_for(g, goal, after.best, i) == entry_for(g, goal, st.best, i));
            } else {
                assert forall|r: Point3D| #[trigger] unit_step(g.point_at(i), r) implies relaxed_to(
                    g,
                    after.best,
                    i,
                    r,
                ) by {
                    assert(relaxed_to(g, st.best, i, r));
                    if g.passable(r) {
                        g.lemma_index_in_range(r);
                    }
                }
            }
        }
    }
    assert forall|r: Point3D| #[trigger]
        unit_step(p, r) && dir_of(p, r) < d + 1 implies relaxed_to(g, after.best, c, r) by {
        if g.passable(r) {
            g.lemma_index_in_range(r);
        }
        if dir_of(p, r) < d {
            assert(relaxed_to(g, st.best, c, r));
        } else {
            assert(r == q);
        }
    }
    let goal_idx = g.index_of(goal);
    g.lemma_index_in_range(goal);
    if after.best[goal_idx] < u32::MAX && goal_idx != nb {
        assert(entry_for(g, goal, after.best, goal_idx) == entry_for(g, goal, st.best, goal_idx));
    }
}

/// A cell that was looked around from in all six directions is expanded.
proof fn lemma_end_expand(g: GridModel, start: int, goal: Point3D, st: SearchModel, c: int)
    requires
        inv_expanding(g, start, goal, st, c, 6),
    ensures
        inv(g, start, goal, st),
{
    assert(relaxed(g, st.best, c));
    assert forall|i: int| 0 <= i < st.best.len() implies #[trigger] settled_at(g, goal, st, i) by {}
}

/// Looking in one direction lowers the sum of the best known costs or changes nothing.
proof fn lemma_relax_measure(g: GridModel, start: int, goal: Point3D, st: SearchModel, c: int, d: int)
    requires
        base_inv(g, start, goal, st),
        0 <= c < st.best.len(),
    ensures
        improves(g, st, c, d) ==> total(relax(g, goal, st, c, d).best) < total(st.best),
        !improves(g, st, c, d) ==> relax(g, goal, st, c, d) == st,
        total(st.best) >= 0,
{
    lemma_total_nonnegative(st.best);
    if improves(g, st, c, d) {
        let q = step_to(g.point_at(c), d)->0;
        g.lemma_index_in_range(q);
        lemma_total_update(st.best, g.index_of(q), (st.best[c] + g.cost(q)) as u32);
    }
}

/// Looking around from a cell leaves a state in which the search can go
/// on, and lowers the sum of the best known costs or changes nothing.
proof fn lemma_expand_measure(
    g: GridModel,
    start: int,
    goal: Point3D,
    st: SearchModel,
    c: int,
    d: int,
)
    requires
        inv_expanding(g, start, goal, st, c, d),
        0 <= d <= 6,
    ensures
        inv(g, start, goal, expand_from(g, goal, st, c, d)),
        total(expand_from(g, goal, st, c, d).best) < total(st.best) || expand_from(g, goal, st, c, d)
            == st,
    decreases 6 - d,
{
    if d >= 6 {
        lemma_end_expand(g, start, goal, st, c);
    } else {
        lemma_relax_measure(g, start, goal, st, c, d);
        lemma_relax(g, start, goal, st, c, d);
        lemma_expand_measure(g, start, goal, relax(g, goal, st, c, d), c, d + 1);
    }
}

/// Each round of the search takes an entry out of the frontier or lowers
/// the sum of the best known costs.
#[via_fn]
proof fn run_terminates(g: GridModel, start: int, goal: Point3D, st: SearchModel) {
    if st.open.len() > 0 {
        lemma_first_exists(st.open);
        let e = first_out(st.open);
        let rest = SearchModel { open: st.open.remove(e), ..st };
        lemma_remove_len(st.open, e);
        lemma_total_nonnegative(st.best);
        if e.g == st.best[e.idx as int] && e.idx != g.index_of(goal) {
            lemma_begin_expand(g, start, goal, st, e);
            lemma_expand_measure(g, start, goal, rest, e.idx as int, 0);
            lemma_total_nonnegative(expand_from(g, goal, rest, e.idx as int, 0).best);
        }
    }
}

/// Along any route from the start, either every point up to `k` has a best
/// known cost of at most what the route costs up to there, or an earlier
/// point of which this holds is waiting in the frontier.
proof fn lemma_route_bound(
    g: GridModel,
    start: int,
    goal: Point3D,
    st: SearchModel,
    route: Seq<Point3D>,
    k: int,
) -> (w: int)
    requires
        inv(g, start, goal, st),
        is_route(g, route),
        g.index_of(route[0]) == start,
        0 <= k < route.len(),
    ensures
        -1 <= w <= k,
        w == -1 ==> st.best[g.index_of(route[k])] <= path_cost(g, route.take(k + 1)),
        w >= 0 ==> live(g, goal, st, g.index_of(route[w])) && st.best[g.index_of(route[w])]
            <= path_cost(g, route.take(w + 1)),
    decreases k,
{
    if k == 0 {
        assert(route.take(1).len() == 1);
        -1
    } else {
        let w = lemma_route_bound(g, start, goal, st, route, k - 1);
        if w >= 0 {
            w
        } else {
            let i = g.index_of(route[k - 1]);
            assert(g.passable(route[k - 1]));
            assert(g.passable(route[k]));
            g.lemma_index_in_range(route[k - 1]);
            g.lemma_index_in_range(route[k]);
            g.lemma_point_round_trip(route[k - 1]);
            lemma_cost_of_prefix(g, route, k);
            assert(settled_at(g, goal, st, i));
            assert(step_at(route, k - 1));
            if st.best[i] == u32::MAX {
                -1
            } else if live(g, goal, st, i) {
                k - 1
            } else {
                assert(relaxed_to(g, st.best, i, route[k]));
                -1
            }
        }
    }
}

/// The entry that leaves the frontier first, if it is the goal's at its best
/// known cost, bounds the cost of every route to the goal from below.
proof fn lemma_found(
    g: GridModel,
    start: Point3D,
    goal: Point3D,
    st: SearchModel,
    e: State,
    route: Seq<Point3D>,
)
    requires
        inv(g, g.index_of(start), goal, st),
        st.open.count(e) > 0,
        forall|x: State| st.open.count(x) > 0 ==> e.precedes(x),
        e.idx == g.index_of(goal),
        e.g == st.best[e.idx as int],
        connects(g, route, start, goal),
    ensures
        e.g <= path_cost(g, route),
{
    let last = route.len() - 1;
    let w = lemma_route_bound(g, g.index_of(start), goal, st, route, last);
    assert(route.take(last + 1) =~= route);
    assert(sound_entry(g, goal, st.best.len(), e));
    g.lemma_index_in_range(goal);
    g.lemma_point_round_trip(goal);
    if w >= 0 {
        let i = g.index_of(route[w]);
        let x = entry_for(g, goal, st.best, i);
        assert(e.precedes(x));
        assert(g.passable(route[w]));
        g.lemma_point_round_trip(route[w]);
        lemma_rest_of_route(g, route, w);
    }
}

/// Once the frontier is empty, no route that costs less than `u32::MAX`
/// leads to a goal that was not reached.
proof fn lemma_exhausted(
    g: GridModel,
    start: Point3D,
    goal: Point3D,
    st: SearchModel,
    route: Seq<Point3D>,
)
    requires
        inv(g, g.index_of(start), goal, st),
        st.open.len() == 0,
        connects(g, route, start, goal),
    ensures
        path_cost(g, route) >= u32::MAX,
{
    let last = route.len() - 1;
    let w = lemma_route_bound(g, g.index_of(start), goal, st, route, last);
    assert(route.take(last + 1) =~= route);
    assert forall|x: State| st.open.count(x) == 0 by {
        if st.open.count(x) > 0 {
            vstd::multiset::axiom_count_le_len(st.open, x);
        }
    }
}

/// The chain of parents from a cell that was reached is a route from the
/// start to the cell and costs no more than the best known cost of the cell.
proof fn lemma_chain(g: GridModel, start: int, goal: Point3D, st: SearchModel, i: int)
    requires
        base_inv(g, start, goal, st),
        0 <= i < st.best.len(),
        st.best[i] < u32::MAX,
    ensures
        connects(g, chain(g, start, goal, st, i), g.point_at(start), g.point_at(i)),
        path_cost(g, chain(g, start, goal, st, i)) <= st.best[i],
    decreases st.best[i],
{
    let route = chain(g, start, goal, st, i);
    g.lemma_index_round_trip(i);
    g.lemma_index_round_trip(start);
    assert(linked_at(g, start, st, i));
    if st.parent[i] != NO_PARENT {
        let up = st.parent[i] as int;
        lemma_chain(g, start, goal, st, up);
        let front = chain(g, start, goal, st, up);
        assert(route.drop_last() =~= front);
        assert forall|k: int| 0 <= k < route.len() - 1 implies #[trigger] step_at(route, k) by {
            if k < front.len() - 1 {
                assert(step_at(front, k));
            }
        }
        assert forall|k: int| 0 <= k < route.len() implies g.passable(#[trigger] route[k]) by {
            if k < front.len() {
                assert(g.passable(front[k]));
            }
        }
    }
}

/// From any state that the search can be in, it yields a cheapest route,
/// or none where no route costs less than `u32::MAX`.
proof fn lemma_run(g: GridModel, start: Point3D, goal: Point3D, st: SearchModel)
    requires
        g.passable(start),
        inv(g, g.index_of(start), goal, st),
    ensures
        match run(g, g.index_of(start), goal, st) {
            Some(path) => cheapest_route(g, path, start, goal),
            None => no_route(g, start, goal),
        },
    decreases total(st.best), st.open.len(),
{
    let s = g.index_of(start);
    if st.open.len() == 0 {
        assert forall|other: Seq<Point3D>| #[trigger]
            connects(g, other, start, goal) implies path_cost(g, other) >= u32::MAX by {
            lemma_exhausted(g, start, goal, st, other);
        }
    } else {
        lemma_first_exists(st.open);
        let e = first_out(st.open);
        let rest = SearchModel { open: st.open.remove(e), ..st };
        lemma_remove_len(st.open, e);
        lemma_total_nonnegative(st.best);
        assert(sound_entry(g, goal, st.best.len(), e));
        if e.g != st.best[e.idx as int] {
            lemma_stale(g, s, goal, st, e);
            lemma_run(g, start, goal, rest);
        } else if e.idx == g.index_of(goal) {
            let path = chain(g, s, goal, st, e.idx as int);
            lemma_chain(g, s, goal, st, e.idx as int);
            g.lemma_point_round_trip(start);
            g.lemma_point_round_trip(goal);
            lemma_found(g, start, goal, st, e, path);
            assert forall|other: Seq<Point3D>| #[trigger]
                connects(g, other, start, goal) implies path_cost(g, path) <= path_cost(g, other) by {
                lemma_found(g, start, goal, st, e, other);
            }
        } else {
            lemma_begin_expand(g, s, goal, st, e);
            lemma_expand_measure(g, s, goal, rest, e.idx as int, 0);
            let next = expand_from(g, goal, rest, e.idx as int, 0);
            lemma_total_nonnegative(next.best);
            lemma_run(g, start, goal, next);
        }
    }
}

/// The neighbour of `p` in the direction `dir`, where its coordinates exist.
fn neighbor(p: Point3D, dir: u8) -> (q: Option<Point3D>)
    requires
        dir < 6,
    ensures
        q == step_to(p, dir as int),
{
    if dir == 0 {
        if p.x < i32::MAX {
            Some(Point3D { x: p.x + 1, y: p.y, z: p.z })
        } else {
            None
        }
    } else if dir == 1 {
        if p.x > i32::MIN {
            Some(Point3D { x: p.x - 1, y: p.y, z: p.z })
        } else {
            None
        }
    } else if dir == 2 {
        if p.y < i32::MAX {
            Some(Point3D { x: p.x, y: p.y + 1, z: p.z })
        } else {
            None
        }
    } else if dir == 3 {
        if p.y > i32::MIN {
            Some(Point3D { x: p.x, y: p.y - 1, z: p.z })
        } else {
            None
        }
    } else if dir == 4 {
        if p.z < i32::MAX {
            Some(Point3D { x: p.x, y: p.y, z: p.z + 1 })
        } else {
            None
        }
    } else {
        if p.z > i32::MIN {
            Some(Point3D { x: p.x, y: p.y, z: p.z - 1 })
        } else {
            None
        }
    }
}

/// The Manhattan distance from `p` to `goal`, cut off at `u32::MAX`.
fn heuristic(p: &Point3D, goal: &Point3D) -> (h: u32)
    ensures
        h == capped(p.distance(*goal) as int),
{
    let wide: u64 = p.distance_wide(goal);
    if wide > u32::MAX as u64 {
        u32::MAX
    } else {
        wide as u32
    }
}

/// Walks back from the cell at `from` along the parents to the start and
/// returns the cells in the order of the route.
fn reconstruct_path(
    grid: &Grid,
    parent: &Vec<usize>,
    from: usize,
    Ghost(start): Ghost<int>,
    Ghost(goal): Ghost<Point3D>,
    Ghost(st): Ghost<SearchModel>,
) -> (path: Vec<Point3D>)
    requires
        base_inv(grid@, start, goal, st),
        parent@ == st.parent,
        from < st.best.len(),
        st.best[from as int] < u32::MAX,
    ensures
        path@ == chain(grid@, start, goal, st, from as int),
{
    let ghost g = grid@;
    let ghost whole = chain(g, start, goal, st, from as int);
    let mut back: Vec<Point3D> = Vec::new();
    let mut cur: usize = from;
    assert(whole =~= whole + back@.reverse());
    loop
        invariant_except_break
            whole == chain(g, start, goal, st, cur as int) + back@.reverse(),
        invariant
            g == grid@,
            base_inv(g, start, goal, st),
            parent@ == st.parent,
            cur < st.best.len(),
            st.best[cur as int] < u32::MAX,
        ensures
            whole == back@.reverse(),
        decreases st.best[cur as int],
    {
        let ghost before = back@;
        let p = grid.point(cur);
        back.push(p);
        let up: usize = parent[cur];
        proof {
            assert(linked_at(g, start, st, cur as int));
            assert(back@.reverse() =~= seq![p] + before.reverse());
        }
        if up == NO_PARENT {
            assert(whole =~= back@.reverse());
            break;
        }
        proof {
            assert(linked_at(g, start, st, up as int));
            let front = chain(g, start, goal, st, up as int);
            assert(front.push(p) + before.reverse() =~= front + back@.reverse());
        }
        cur = up;
    }
    let len: usize = back.len();
    let mut path: Vec<Point3D> = Vec::new();
    let mut k: usize = len;
    while k > 0
        invariant
            len == back@.len(),
            k <= len,
            path@.len() == len - k,
            forall|j: int| 0 <= j < path@.len() ==> path@[j] == back@[len - 1 - j],
        decreases k,
    {
        k = k - 1;
        path.push(back[k]);
    }
    assert(path@ =~= back@.reverse());
    path
}

/// Searches `grid` for a cheapest route from `start` to `goal`.
///
/// The result is a route exactly when one that costs less than `u32::MAX`
/// exists; it then starts at `start`, ends at `goal`, moves by unit steps
/// through cells that can be entered, and no route between the two costs
/// less. With `start == goal` the route is that one point. The grid and
/// the two points determine the result: it is `found_route` of them.
pub fn astar_find_path(grid: &Grid, start: Point3D, goal: Point3D) -> (found: Option<Vec<Point3D>>)
    ensures
        match found {
            Some(path) => found_route(grid@, start, goal) == Some(path@),
            None => found_route(grid@, start, goal) is None,
        },
        found matches Some(path) ==> cheapest_route(grid@, path@, start, goal),
        found is None ==> no_route(grid@, start, goal),
        !grid@.passable(start) || !grid@.passable(goal) ==> found is None,
        start == goal && grid@.passable(start) ==> (found matches Some(path) && path@ == seq![start]),
{
    let ghost g = grid@;
    proof {
        use_type_invariant(grid);
        lemma_found_route(g, start, goal);
    }
    let start_idx: usize = match grid.idx(start) {
        Some(i) => i,
        None => {
            return None;
        },
    };
    let goal_idx: usize = match grid.idx(goal) {
        Some(i) => i,
        None => {
            return None;
        },
    };
    if grid.cost_idx(start_idx) == 0 || grid.cost_idx(goal_idx) == 0 {
        return None;
    }
    let n: usize = grid.cells();
    let mut best: Vec<u32> = vec![u32::MAX; n];
    best[start_idx] = 0;
    let mut parent: Vec<usize> = vec![NO_PARENT; n];
    let mut open = Frontier::new();
    let h0: u32 = heuristic(&start, &goal);
    open.push(State { f: h0, g: 0, idx: start_idx });
    proof {
        let st = SearchModel { best: best@, parent: parent@, open: open@ };
        assert(st.best =~= initial(g, start, goal).best);
        assert(st.parent =~= initial(g, start, goal).parent);
        assert(st == initial(g, start, goal));
        lemma_init(g, start, goal);
    }
    loop
        invariant
            g == grid@,
            n == g.costs.len(),
            start_idx == g.index_of(start),
            goal_idx == g.index_of(goal),
            inv(g, start_idx as int, goal, SearchModel { best: best@, parent: parent@, open: open@ }),
            run(g, start_idx as int, goal, SearchModel { best: best@, parent: parent@, open: open@ })
                == found_route(g, start, goal),
            match found_route(g, start, goal) {
                Some(path) => cheapest_route(g, path, start, goal),
                None => no_route(g, start, goal),
            },
            start == goal ==> found_route(g, start, goal) == Some(seq![start]),
        decreases total(best@), open@.len(),
    {
        let ghost st = SearchModel { best: best@, parent: parent@, open: open@ };
        let e: State = match open.pop() {
            Some(e) => e,
            None => {
                return None;
            },
        };
        proof {
            assert(base_inv(g, start_idx as int, goal, st));
            assert(st.open.count(e) > 0);
            assert(sound_entry(g, goal, st.best.len(), e));
            vstd::multiset::axiom_count_le_len(st.open, e);
            assert(leaves_first(st.open, e));
            lemma_first_out(st.open, e);
            lemma_total_nonnegative(best@);
        }
        let cur: usize = e.idx;
        if e.g != best[cur] {
            proof {
                lemma_stale(g, start_idx as int, goal, st, e);
            }
            continue;
        }
        if cur == goal_idx {
            let path = reconstruct_path(
                grid,
                &parent,
                cur,
                Ghost(start_idx as int),
                Ghost(goal),
                Ghost(st),
            );
            return Some(path);
        }
        let p: Point3D = grid.point(cur);
        proof {
            lemma_begin_expand(g, start_idx as int, goal, st, e);
        }
        let ghost rest = SearchModel { best: best@, parent: parent@, open: open@ };
        let ghost total0 = total(best@);
        let ghost len0 = st.open.len();
        let mut dir: u8 = 0;
        while dir < 6
            invariant
                g == grid@,
                n == g.costs.len(),
                dir <= 6,
                cur < n,
                p == g.point_at(cur as int),
                e.g == best@[cur as int],
                    inv_expanding(
                    g,
                    start_idx as int,
                    goal,
                    SearchModel { best: best@, parent: parent@, open: open@ },
                    cur as int,
                    dir as int,
                ),
                expand_from(
                    g,
                    goal,
                    SearchModel { best: best@, parent: parent@, open: open@ },
                    cur as int,
                    dir as int,
                ) == expand_from(g, goal, rest, cur as int, 0),
                total(best@) <= total0,
                total(best@) == total0 ==> open@.len() == len0 - 1,
            decreases 6 - dir,
        {
            let ghost now = SearchModel { best: best@, parent: parent@, open: open@ };
            proof {
                lemma_relax(g, start_idx as int, goal, now, cur as int, dir as int);
                lemma_relax_measure(g, start_idx as int, goal, now, cur as int, dir as int);
            }
            match neighbor(p, dir) {
                Some(q) => {
                    match grid.idx(q) {
                        Some(nb) => {
                            let step: u16 = grid.cost_idx(nb);
                            if step != 0 {
                                let tentative: u32 = e.g.saturating_add(step as u32);
                                if tentative < best[nb] {
                                    proof {
                                        g.lemma_point_round_trip(q);
                                    }
                                    best[nb] = tentative;
                                    parent[nb] = cur;
                                    let h: u32 = heuristic(&q, &goal);
                                    open.push(
                                        State { f: tentative.saturating_add(h), g: tentative, idx: nb },
                                    );
                                }
                            }
                        },
                        None => {},
                    }
                },
                None => {},
            }
            assert(SearchModel { best: best@, parent: parent@, open: open@ } == relax(
                g,
                goal,
                now,
                cur as int,
                dir as int,
            ));
            dir = dir + 1;
        }
        proof {
            lemma_end_expand(
                g,
                start_idx as int,
                goal,
                SearchModel { best: best@, parent: parent@, open: open@ },
                cur as int,
            );
            lemma_total_nonnegative(best@);
        }
    }
}

} // verus!
