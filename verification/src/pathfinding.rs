//! Shortest routes over the plate, and the choice of a troop's next target.
//!
//! A route moves from cell to cell along the four directions of the grid at
//! a cost of one per move. The search keeps its frontier in a queue ordered
//! by cost, takes the cheapest cell first and visits the neighbours of a
//! cell in a fixed order: one column on, one column back, one row on, one
//! row back. That order decides between routes of equal length.

use crate::cell::Cell;
use crate::position::{squared_distance, Pos};
use crate::scenery::Scenery;
use crate::troop::Troop;
use crate::units::MAX_FINENESS;
use crate::village::{footprint_holds, is_defensive_building, Component, ComponentId, Village};
use vstd::prelude::*;

verus! {

/// Whether `b` is one move away from `a`.
pub open spec fn adjacent(a: Cell, b: Cell) -> bool {
    ||| (a.y == b.y && (b.x == a.x + 1 || b.x == a.x - 1))
    ||| (a.x == b.x && (b.y == a.y + 1 || b.y == a.y - 1))
}

/// Whether a route to `goal` may enter `cell`: the cell lies on the plate
/// and is the goal itself or not blocked.
pub open spec fn enterable(village: Village, scenery: Scenery, goal: Cell, cell: Cell) -> bool {
    scenery.holds(cell) && (cell == goal || !village.blocked(cell))
}

/// Whether the move to the cell `i` of `route` is a move of a route to
/// `goal`: one move from the cell before it, to a cell that may be entered.
pub open spec fn step_allowed(
    route: Seq<Cell>,
    i: int,
    goal: Cell,
    village: Village,
    scenery: Scenery,
) -> bool {
    adjacent(route[i - 1], route[i]) && enterable(village, scenery, goal, route[i])
}

/// Whether `walk` leads from `start` to `end` on the way to `goal`: it
/// starts on the plate at `start`, ends at `end`, and each further cell is
/// one move from the cell before it and may be entered.
pub open spec fn is_walk(
    walk: Seq<Cell>,
    start: Cell,
    end: Cell,
    goal: Cell,
    village: Village,
    scenery: Scenery,
) -> bool {
    &&& walk.len() > 0
    &&& walk[0] == start
    &&& walk.last() == end
    &&& scenery.holds(start)
    &&& forall|i: int|
        0 < i < walk.len() ==> #[trigger] step_allowed(walk, i, goal, village, scenery)
}

/// Whether `route` leads from `start` to `goal`: it starts on the plate at
/// `start`, ends at `goal`, and each further cell is one move from the cell
/// before it and may be entered.
pub open spec fn is_route(
    route: Seq<Cell>,
    start: Cell,
    goal: Cell,
    village: Village,
    scenery: Scenery,
) -> bool {
    is_walk(route, start, goal, goal, village, scenery)
}

/// The rank of the move from `a` to `b` among the four moves: one column
/// on, one column back, one row on, one row back.
pub open spec fn move_rank(a: Cell, b: Cell) -> int {
    if b.y == a.y && b.x == a.x + 1 {
        0
    } else if b.y == a.y && b.x == a.x - 1 {
        1
    } else if b.x == a.x && b.y == a.y + 1 {
        2
    } else {
        3
    }
}

/// Whether `first` and `second` are the same up to the cell `i` and part
/// there, `first` by the move of lower rank.
pub open spec fn parts_at(first: Seq<Cell>, second: Seq<Cell>, i: int) -> bool {
    &&& 0 < i < first.len()
    &&& i < second.len()
    &&& first.take(i) == second.take(i)
    &&& move_rank(first[i - 1], first[i]) < move_rank(second[i - 1], second[i])
}

/// Whether `first` comes before `second` by its moves: where the two part,
/// `first` makes the move of lower rank.
pub open spec fn moves_first(first: Seq<Cell>, second: Seq<Cell>) -> bool {
    exists|i: int| #[trigger] parts_at(first, second, i)
}

/// Whether `route` is the route that the search finds: a route from `start`
/// to `goal` than which no route is shorter, and which comes before every
/// other route of its length by its moves.
pub open spec fn is_first_route(
    route: Seq<Cell>,
    start: Cell,
    goal: Cell,
    village: Village,
    scenery: Scenery,
) -> bool {
    &&& is_route(route, start, goal, village, scenery)
    &&& forall|other: Seq<Cell>| #[trigger]
        is_route(other, start, goal, village, scenery) ==> {
            ||| route.len() < other.len()
            ||| route.len() == other.len() && (other == route || moves_first(route, other))
        }
}

/// Routes that part make different moves, so only one route is the first.
pub proof fn lemma_first_route_unique(
    route: Seq<Cell>,
    other: Seq<Cell>,
    start: Cell,
    goal: Cell,
    village: Village,
    scenery: Scenery,
)
    requires
        is_first_route(route, start, goal, village, scenery),
        is_first_route(other, start, goal, village, scenery),
    ensures
        route == other,
{
    if route != other {
        let i = choose|i: int| #[trigger] parts_at(route, other, i);
        let j = choose|j: int| #[trigger] parts_at(other, route, j);
        if i < j {
            assert(other.take(j)[i] == route.take(j)[i]);
            assert(other.take(j)[i - 1] == route.take(j)[i - 1]);
        } else if j < i {
            assert(other.take(i)[j] == route.take(i)[j]);
            assert(other.take(i)[j - 1] == route.take(i)[j - 1]);
        } else {
            assert(other.take(i)[i - 1] == route.take(i)[i - 1]);
        }
    }
}

/// What comes first by its moves still does when both go one cell further.
proof fn lemma_moves_first_push(first: Seq<Cell>, second: Seq<Cell>, a: Cell, b: Cell)
    requires
        moves_first(first, second),
    ensures
        moves_first(first.push(a), second.push(b)),
{
    let i = choose|i: int| #[trigger] parts_at(first, second, i);
    assert(first.push(a).take(i) =~= first.take(i));
    assert(second.push(b).take(i) =~= second.take(i));
    assert(parts_at(first.push(a), second.push(b), i));
}

/// Of two walks that part at their last move, the one with the move of
/// lower rank comes first.
proof fn lemma_moves_first_last(walk: Seq<Cell>, a: Cell, b: Cell)
    requires
        walk.len() > 0,
        move_rank(walk.last(), a) < move_rank(walk.last(), b),
    ensures
        moves_first(walk.push(a), walk.push(b)),
{
    let i = walk.len() as int;
    assert(walk.push(a).take(i) =~= walk.push(b).take(i));
    assert(parts_at(walk.push(a), walk.push(b), i));
}

/// Coming first by the moves carries over.
proof fn lemma_moves_first_trans(first: Seq<Cell>, second: Seq<Cell>, third: Seq<Cell>)
    requires
        moves_first(first, second),
        moves_first(second, third),
    ensures
        moves_first(first, third),
{
    let i = choose|i: int| #[trigger] parts_at(first, second, i);
    let j = choose|j: int| #[trigger] parts_at(second, third, j);
    if i < j {
        assert(second.take(j)[i] == third.take(j)[i]);
        assert(second.take(j)[i - 1] == third.take(j)[i - 1]);
        assert(first.take(i) =~= third.take(i)) by {
            assert forall|k: int| 0 <= k < i implies first.take(i)[k] == third.take(i)[k] by {
                assert(first.take(i)[k] == second.take(i)[k]);
                assert(second.take(j)[k] == third.take(j)[k]);
            }
        }
        assert(parts_at(first, third, i));
    } else if j < i {
        assert(first.take(i)[j] == second.take(i)[j]);
        assert(first.take(i)[j - 1] == second.take(i)[j - 1]);
        assert(first.take(j) =~= third.take(j)) by {
            assert forall|k: int| 0 <= k < j implies first.take(j)[k] == third.take(j)[k] by {
                assert(first.take(i)[k] == second.take(i)[k]);
                assert(second.take(j)[k] == third.take(j)[k]);
            }
        }
        assert(parts_at(first, third, j));
    } else {
        assert(first.take(i)[i - 1] == second.take(i)[i - 1]);
        assert(second.take(i)[i - 1] == third.take(i)[i - 1]);
        assert(first.take(i) =~= third.take(i));
        assert(parts_at(first, third, i));
    }
}

/// The number of moves that it takes at least to go from `a` to `b`.
pub open spec fn moves_apart(a: Cell, b: Cell) -> int {
    (if a.x >= b.x {
        a.x - b.x
    } else {
        b.x - a.x
    }) + (if a.y >= b.y {
        a.y - b.y
    } else {
        b.y - a.y
    })
}

/// The cell one move from `from` towards `goal`: along the row first, then
/// along the column.
pub open spec fn stride(from: Cell, goal: Cell) -> Cell {
    if from.x < goal.x {
        Cell { y: from.y, x: (from.x + 1) as i16 }
    } else if from.x > goal.x {
        Cell { y: from.y, x: (from.x - 1) as i16 }
    } else if from.y < goal.y {
        Cell { y: (from.y + 1) as i16, x: from.x }
    } else {
        Cell { y: (from.y - 1) as i16, x: from.x }
    }
}

/// The cells from `from` to `goal` along the row of `from` and then along
/// the column of `goal`.
pub open spec fn straight(from: Cell, goal: Cell) -> Seq<Cell>
    decreases moves_apart(from, goal),
{
    if from == goal {
        seq![from]
    } else {
        seq![from] + straight(stride(from, goal), goal)
    }
}

/// No route enters a cell off the plate, nor a blocked cell other than its
/// goal, and every cell of a route is one move from the cell before it.
pub proof fn law_route_avoids_blocked(
    route: Seq<Cell>,
    start: Cell,
    goal: Cell,
    village: Village,
    scenery: Scenery,
    i: int,
)
    requires
        is_route(route, start, goal, village, scenery),
        0 < i < route.len(),
    ensures
        scenery.holds(route[i]),
        route[i] == goal || !village.blocked(route[i]),
        adjacent(route[i - 1], route[i]),
{
    assert(step_allowed(route, i, goal, village, scenery));
}

/// A route has at least one cell more than its ends are moves apart.
pub proof fn law_route_length(
    route: Seq<Cell>,
    start: Cell,
    goal: Cell,
    village: Village,
    scenery: Scenery,
)
    requires
        is_route(route, start, goal, village, scenery),
    ensures
        route.len() >= moves_apart(start, goal) + 1,
{
    lemma_route_reach(route, start, goal, village, scenery, route.len() - 1);
}

proof fn lemma_route_reach(
    route: Seq<Cell>,
    start: Cell,
    goal: Cell,
    village: Village,
    scenery: Scenery,
    i: int,
)
    requires
        is_route(route, start, goal, village, scenery),
        0 <= i < route.len(),
    ensures
        moves_apart(start, route[i]) <= i,
    decreases i,
{
    if i > 0 {
        lemma_route_reach(route, start, goal, village, scenery, i - 1);
        assert(step_allowed(route, i, goal, village, scenery));
    }
}

/// Where nothing blocks a cell of the plate, the cells straight from
/// `start` to `goal` are a route, and a shortest one.
pub proof fn law_open_plate(start: Cell, goal: Cell, village: Village, scenery: Scenery)
    requires
        scenery.holds(start),
        scenery.holds(goal),
        forall|cell: Cell| scenery.holds(cell) ==> !village.blocked(cell),
    ensures
        is_route(straight(start, goal), start, goal, village, scenery),
        straight(start, goal).len() == moves_apart(start, goal) + 1,
        forall|route: Seq<Cell>|
            is_route(route, start, goal, village, scenery) ==> route.len() >= straight(
                start,
                goal,
            ).len(),
    decreases moves_apart(start, goal),
{
    let route = straight(start, goal);
    if start != goal {
        let next = stride(start, goal);
        let rest = straight(next, goal);
        law_open_plate(next, goal, village, scenery);
        assert forall|i: int| 0 < i < route.len() implies #[trigger] step_allowed(
            route,
            i,
            goal,
            village,
            scenery,
        ) by {
            if i > 1 {
                assert(step_allowed(rest, i - 1, goal, village, scenery));
            }
        }
    }
    assert forall|other: Seq<Cell>|
        is_route(other, start, goal, village, scenery) implies other.len() >= route.len() by {
        law_route_length(other, start, goal, village, scenery);
    }
}

/// Whether `cell` lies in the columns `0..=width` and the rows `0..=height`.
pub open spec fn within(cell: Cell, width: i16, height: i16) -> bool {
    0 <= cell.x <= width && 0 <= cell.y <= height
}

/// The cell `dx` columns and `dy` rows from `point`, if it lies within the
/// bounds.
pub open spec fn step_to(point: Cell, dx: int, dy: int, width: i16, height: i16) -> Seq<Cell> {
    if 0 <= point.x + dx <= width && 0 <= point.y + dy <= height {
        seq![Cell { y: (point.y + dy) as i16, x: (point.x + dx) as i16 }]
    } else {
        Seq::empty()
    }
}

/// The neighbours of `point` within the bounds, in the order in which the
/// search visits them.
pub open spec fn neighbor_list(point: Cell, width: i16, height: i16) -> Seq<Cell> {
    step_to(point, 1, 0, width, height) + step_to(point, -1, 0, width, height) + step_to(
        point,
        0,
        1,
        width,
        height,
    ) + step_to(point, 0, -1, width, height)
}

/// The neighbours of `point` within the bounds: one column on, one column
/// back, one row on, one row back.
pub fn neighbors(point: Cell, width: i16, height: i16) -> (result: Vec<Cell>)
    ensures
        result@ == neighbor_list(point, width, height),
        forall|k: int|
            0 <= k < result@.len() ==> adjacent(point, #[trigger] result@[k]) && within(
                result@[k],
                width,
                height,
            ),
        forall|cell: Cell|
            adjacent(point, cell) && within(cell, width, height) ==> exists|k: int|
                0 <= k < result@.len() && #[trigger] result@[k] == cell,
        forall|a: int, b: int|
            0 <= a < b < result@.len() ==> move_rank(point, #[trigger] result@[a]) < move_rank(
                point,
                #[trigger] result@[b],
            ),
{
    let mut result: Vec<Cell> = Vec::new();
    let x: i32 = point.x as i32;
    let y: i32 = point.y as i32;
    let w: i32 = width as i32;
    let h: i32 = height as i32;
    if 0 <= x + 1 && x + 1 <= w && 0 <= y && y <= h {
        result.push(Cell { y: point.y, x: (x + 1) as i16 });
    }
    assert(result@ =~= step_to(point, 1, 0, width, height));
    if 0 <= x - 1 && x - 1 <= w && 0 <= y && y <= h {
        result.push(Cell { y: point.y, x: (x - 1) as i16 });
    }
    assert(result@ =~= step_to(point, 1, 0, width, height) + step_to(point, -1, 0, width, height));
    if 0 <= x && x <= w && 0 <= y + 1 && y + 1 <= h {
        result.push(Cell { y: (y + 1) as i16, x: point.x });
    }
    assert(result@ =~= step_to(point, 1, 0, width, height) + step_to(point, -1, 0, width, height)
        + step_to(point, 0, 1, width, height));
    if 0 <= x && x <= w && 0 <= y - 1 && y - 1 <= h {
        result.push(Cell { y: (y - 1) as i16, x: point.x });
    }
    assert(result@ =~= neighbor_list(point, width, height));
    proof {
        let first = step_to(point, 1, 0, width, height);
        let second = step_to(point, -1, 0, width, height);
        let third = step_to(point, 0, 1, width, height);
        assert forall|cell: Cell| adjacent(point, cell) && within(cell, width, height) implies exists|
            k: int,
        |
            0 <= k < result@.len() && #[trigger] result@[k] == cell by {
            if cell.y == point.y && cell.x == point.x + 1 {
                assert(result@[0] == cell);
            } else if cell.y == point.y && cell.x == point.x - 1 {
                assert(result@[first.len() as int] == cell);
            } else if cell.x == point.x && cell.y == point.y + 1 {
                assert(result@[(first.len() + second.len()) as int] == cell);
            } else {
                assert(result@[(first.len() + second.len() + third.len()) as int] == cell);
            }
        }
    }
    result
}

/// A cell of the frontier with the cost of reaching it.
#[derive(Copy, Clone, Eq, PartialEq, Debug, Structural)]
struct Node {
    position: Cell,
    cost: usize,
}

/// The state of a search: the queue of reached cells in the order in which
/// they were reached, how many of them have been expanded, and for each cell
/// of the plate its cost, the cell it was reached from and its place in the
/// queue.
struct Search {
    queue: Seq<Node>,
    head: int,
    g_score: Seq<Option<usize>>,
    came_from: Seq<Option<Cell>>,
    place: Seq<int>,
}

/// What holds of a search from `start` to `goal` at every moment.
spec fn search_inv(
    s: Search,
    start: Cell,
    goal: Cell,
    village: Village,
    scenery: Scenery,
) -> bool {
    let n = scenery.cell_count();
    &&& scenery.holds(start)
    &&& s.g_score.len() == n
    &&& s.came_from.len() == n
    &&& s.place.len() == n
    &&& 0 <= s.head <= s.queue.len()
    &&& s.queue.len() > 0
    &&& s.g_score[scenery.index_of(start)] == Some(0usize)
    // every cell of the queue is on the plate and carries its cost
    &&& forall|j: int|
        0 <= j < s.queue.len() ==> {
            &&& scenery.holds((#[trigger] s.queue[j]).position)
            &&& s.g_score[scenery.index_of(s.queue[j].position)] == Some(s.queue[j].cost)
            &&& s.queue[j].cost <= j
        }
    // every reached cell stands in the queue
    &&& forall|i: int|
        0 <= i < n && (#[trigger] s.g_score[i]) is Some ==> {
            &&& 0 <= s.place[i] < s.queue.len()
            &&& s.queue[s.place[i]].position == scenery.cell_of(i)
        }
    // the queue is ordered by cost, and its costs span at most one
    &&& forall|i: int, j: int|
        0 <= i <= j < s.queue.len() ==> (#[trigger] s.queue[i]).cost <= (#[trigger] s.queue[j]).cost
    &&& s.head < s.queue.len() ==> s.queue.last().cost <= s.queue[s.head].cost + 1
    // every reached cell but the start was reached by one move from a cell
    // that costs one less
    &&& forall|i: int|
        0 <= i < n && (#[trigger] s.g_score[i]) is Some && scenery.cell_of(i) != start ==> {
            &&& s.came_from[i] is Some
            &&& scenery.holds(s.came_from[i].unwrap())
            &&& s.g_score[scenery.index_of(s.came_from[i].unwrap())] is Some
            &&& s.g_score[i].unwrap() == s.g_score[scenery.index_of(
                s.came_from[i].unwrap(),
            )].unwrap() + 1
            &&& adjacent(s.came_from[i].unwrap(), scenery.cell_of(i))
            &&& enterable(village, scenery, goal, scenery.cell_of(i))
        }
    // what can be entered from an expanded cell has been reached
    &&& forall|j: int, cell: Cell|
        0 <= j < s.head && #[trigger] adjacent(s.queue[j].position, cell) && enterable(
            village,
            scenery,
            goal,
            cell,
        ) ==> {
            &&& s.g_score[scenery.index_of(cell)] is Some
            &&& s.g_score[scenery.index_of(cell)].unwrap() <= s.queue[j].cost + 1
        }
    // the goal has not been expanded
    &&& forall|j: int| 0 <= j < s.head ==> (#[trigger] s.queue[j]).position != goal
}

/// The search after `cell` has been reached from the cell at the head of
/// the queue.
spec fn reached(s: Search, scenery: Scenery, cell: Cell) -> Search {
    let index = scenery.index_of(cell);
    let cost = (s.queue[s.head].cost + 1) as usize;
    Search {
        queue: s.queue.push(Node { position: cell, cost }),
        head: s.head,
        g_score: s.g_score.update(index, Some(cost)),
        came_from: s.came_from.update(index, Some(s.queue[s.head].position)),
        place: s.place.update(index, s.queue.len() as int),
    }
}

/// The search after the cell at the head of the queue has been expanded.
spec fn expanded(s: Search) -> Search {
    Search { head: s.head + 1, ..s }
}

/// The number of cells that have not been reached.
spec fn unseen(g_score: Seq<Option<usize>>) -> nat
    decreases g_score.len(),
{
    if g_score.len() == 0 {
        0
    } else {
        unseen(g_score.drop_last()) + if g_score.last() is None {
            1nat
        } else {
            0nat
        }
    }
}

proof fn lemma_unseen_bound(g_score: Seq<Option<usize>>)
    ensures
        unseen(g_score) <= g_score.len(),
    decreases g_score.len(),
{
    if g_score.len() > 0 {
        lemma_unseen_bound(g_score.drop_last());
    }
}

proof fn lemma_unseen_update(g_score: Seq<Option<usize>>, i: int, cost: usize)
    requires
        0 <= i < g_score.len(),
        g_score[i] is None,
    ensures
        unseen(g_score.update(i, Some(cost))) + 1 == unseen(g_score),
    decreases g_score.len(),
{
    let updated = g_score.update(i, Some(cost));
    if i == g_score.len() - 1 {
        assert(updated.drop_last() =~= g_score.drop_last());
    } else {
        assert(updated.drop_last() =~= g_score.drop_last().update(i, Some(cost)));
        lemma_unseen_update(g_score.drop_last(), i, cost);
    }
}

/// Reaching a cell that was not reached before keeps the search sound.
proof fn lemma_reached(
    s: Search,
    start: Cell,
    goal: Cell,
    village: Village,
    scenery: Scenery,
    cell: Cell,
)
    requires
        search_inv(s, start, goal, village, scenery),
        s.head < s.queue.len(),
        adjacent(s.queue[s.head].position, cell),
        enterable(village, scenery, goal, cell),
        s.g_score[scenery.index_of(cell)] is None,
        s.queue.len() < usize::MAX,
    ensures
        search_inv(reached(s, scenery, cell), start, goal, village, scenery),
        unseen(reached(s, scenery, cell).g_score) + 1 == unseen(s.g_score),
{
    let t = reached(s, scenery, cell);
    let n = scenery.cell_count();
    let index = scenery.index_of(cell);
    let from = s.queue[s.head].position;
    scenery.lemma_cell_index(cell);
    scenery.lemma_cell_index(start);
    scenery.lemma_cell_index(from);
    lemma_unseen_update(s.g_score, index, (s.queue[s.head].cost + 1) as usize);
    assert(s.queue[s.head].cost <= s.head);
    assert forall|j: int| 0 <= j < t.queue.len() implies {
        &&& scenery.holds((#[trigger] t.queue[j]).position)
        &&& t.g_score[scenery.index_of(t.queue[j].position)] == Some(t.queue[j].cost)
        &&& t.queue[j].cost <= j
    } by {
        if j < s.queue.len() {
            assert(t.queue[j] == s.queue[j]);
            scenery.lemma_cell_index(s.queue[j].position);
        }
    }
    assert forall|i: int| 0 <= i < n && (#[trigger] t.g_score[i]) is Some implies {
        &&& 0 <= t.place[i] < t.queue.len()
        &&& t.queue[t.place[i]].position == scenery.cell_of(i)
    } by {
        if i != index {
            assert(s.g_score[i] is Some);
        }
    }
    assert forall|i: int, j: int| 0 <= i <= j < t.queue.len() implies (#[trigger] t.queue[i]).cost
        <= (#[trigger] t.queue[j]).cost by {
        if j < s.queue.len() {
            assert(s.queue[i].cost <= s.queue[j].cost);
        } else if i < s.queue.len() {
            assert(s.queue[i].cost <= s.queue[s.queue.len() - 1].cost);
        }
    }
    assert forall|i: int|
        0 <= i < n && (#[trigger] t.g_score[i]) is Some && scenery.cell_of(i) != start implies {
        &&& t.came_from[i] is Some
        &&& scenery.holds(t.came_from[i].unwrap())
        &&& t.g_score[scenery.index_of(t.came_from[i].unwrap())] is Some
        &&& t.g_score[i].unwrap() == t.g_score[scenery.index_of(t.came_from[i].unwrap())].unwrap()
            + 1
        &&& adjacent(t.came_from[i].unwrap(), scenery.cell_of(i))
        &&& enterable(village, scenery, goal, scenery.cell_of(i))
    } by {
        if i != index {
            assert(s.g_score[i] is Some);
            let parent = s.came_from[i].unwrap();
            scenery.lemma_cell_index(parent);
        }
    }
    assert forall|j: int, other: Cell|
        0 <= j < t.head && #[trigger] adjacent(t.queue[j].position, other) && enterable(
            village,
            scenery,
            goal,
            other,
        ) implies {
        &&& t.g_score[scenery.index_of(other)] is Some
        &&& t.g_score[scenery.index_of(other)].unwrap() <= t.queue[j].cost + 1
    } by {
        assert(t.queue[j] == s.queue[j]);
        assert(adjacent(s.queue[j].position, other));
        scenery.lemma_cell_index(other);
    }
    assert forall|j: int| 0 <= j < t.head implies (#[trigger] t.queue[j]).position != goal by {
        assert(t.queue[j] == s.queue[j]);
    }
}

/// Once every neighbour of the cell at the head of the queue that can be
/// entered has been reached, the head can move on.
proof fn lemma_expanded(s: Search, start: Cell, goal: Cell, village: Village, scenery: Scenery)
    requires
        search_inv(s, start, goal, village, scenery),
        s.head < s.queue.len(),
        s.queue[s.head].position != goal,
        forall|cell: Cell|
            adjacent(s.queue[s.head].position, cell) && #[trigger] enterable(
                village,
                scenery,
                goal,
                cell,
            ) ==> s.g_score[scenery.index_of(cell)] is Some,
    ensures
        search_inv(expanded(s), start, goal, village, scenery),
{
    let t = expanded(s);
    assert forall|j: int, cell: Cell|
        0 <= j < t.head && #[trigger] adjacent(t.queue[j].position, cell) && enterable(
            village,
            scenery,
            goal,
            cell,
        ) implies {
        &&& t.g_score[scenery.index_of(cell)] is Some
        &&& t.g_score[scenery.index_of(cell)].unwrap() <= t.queue[j].cost + 1
    } by {
        if j == s.head {
            let index = scenery.index_of(cell);
            scenery.lemma_cell_index(cell);
            assert(s.g_score[index] is Some);
            let at = s.place[index];
            assert(s.queue[at].position == cell);
            assert(s.queue[at].cost <= s.queue[s.queue.len() - 1].cost);
        } else {
            assert(adjacent(s.queue[j].position, cell));
        }
    }
    if t.head < t.queue.len() {
        assert(s.queue[s.head].cost <= s.queue[t.head].cost);
    }
}

/// Along any walk, the cell `i` has been reached at a cost of at most `i`,
/// unless the head of the queue costs less than `i`.
proof fn lemma_walk_costs(
    s: Search,
    start: Cell,
    goal: Cell,
    village: Village,
    scenery: Scenery,
    walk: Seq<Cell>,
    end: Cell,
    i: int,
)
    requires
        search_inv(s, start, goal, village, scenery),
        is_walk(walk, start, end, goal, village, scenery),
        0 <= i < walk.len(),
    ensures
        scenery.holds(walk[i]),
        ({
            &&& s.g_score[scenery.index_of(walk[i])] is Some
            &&& s.g_score[scenery.index_of(walk[i])].unwrap() <= i
        }) || (s.head < s.queue.len() && s.queue[s.head].cost < i),
    decreases i,
{
    if i > 0 {
        lemma_walk_costs(s, start, goal, village, scenery, walk, end, i - 1);
        let before = walk[i - 1];
        let cell = walk[i];
        assert(step_allowed(walk, i, goal, village, scenery));
        if !(s.head < s.queue.len() && s.queue[s.head].cost < i - 1) {
            let index = scenery.index_of(before);
            scenery.lemma_cell_index(before);
            assert(s.g_score[index] is Some);
            let at = s.place[index];
            assert(s.queue[at].position == before);
            if at < s.head {
                assert(adjacent(s.queue[at].position, cell));
            } else {
                assert(s.queue[s.head].cost <= s.queue[at].cost);
            }
        }
    }
}

/// What holds of the order in which a search reaches the cells.
///
/// `chains` holds for each reached cell the walk on which it was reached.
/// `low` is a rank above the moves by which the cell at the head of the
/// queue has reached cells so far.
spec fn order_inv(
    s: Search,
    chains: Seq<Seq<Cell>>,
    low: int,
    start: Cell,
    goal: Cell,
    village: Village,
    scenery: Scenery,
) -> bool {
    let n = scenery.cell_count();
    &&& chains.len() == n
    // the walk of a reached cell leads to it, has its cost for a length,
    // and is the walk of the cell it was reached from, one cell longer
    &&& forall|i: int|
        0 <= i < n && (#[trigger] s.g_score[i]) is Some ==> {
            &&& is_walk(chains[i], start, scenery.cell_of(i), goal, village, scenery)
            &&& chains[i].len() == s.g_score[i].unwrap() + 1
            &&& if scenery.cell_of(i) == start {
                chains[i] == seq![start]
            } else {
                chains[i] == chains[scenery.index_of(s.came_from[i].unwrap())].push(
                    scenery.cell_of(i),
                )
            }
        }
    // a cell was reached from a cell that has been expanded, or from the
    // head of the queue by a move of a rank below `low`
    &&& forall|i: int|
        0 <= i < n && (#[trigger] s.g_score[i]) is Some && scenery.cell_of(i) != start ==> {
            let parent = s.place[scenery.index_of(s.came_from[i].unwrap())];
            &&& 0 <= parent <= s.head
            &&& parent < s.queue.len()
            &&& s.queue[parent].position == s.came_from[i].unwrap()
            &&& parent == s.head ==> move_rank(s.queue[parent].position, scenery.cell_of(i)) < low
        }
    // every cell stands in the queue once
    &&& forall|j: int|
        0 <= j < s.queue.len() ==> s.place[scenery.index_of((#[trigger] s.queue[j]).position)] == j
    // cells of equal cost stand in the queue in the order of their walks
    &&& forall|a: int, b: int|
        0 <= a < b < s.queue.len() && (#[trigger] s.queue[a]).cost == (#[trigger] s.queue[b]).cost
            ==> moves_first(
            chains[scenery.index_of(s.queue[a].position)],
            chains[scenery.index_of(s.queue[b].position)],
        )
    // the walk of a reached cell comes first among the walks of its length
    &&& forall|i: int, walk: Seq<Cell>|
        0 <= i < n && s.g_score[i] is Some && #[trigger] is_walk(
            walk,
            start,
            scenery.cell_of(i),
            goal,
            village,
            scenery,
        ) && walk.len() == s.g_score[i].unwrap() + 1 ==> walk == chains[i] || moves_first(
            chains[i],
            walk,
        )
}

/// The walks after `cell` has been reached from the cell at the head of the
/// queue.
spec fn chained(s: Search, chains: Seq<Seq<Cell>>, scenery: Scenery, cell: Cell) -> Seq<Seq<Cell>> {
    chains.update(
        scenery.index_of(cell),
        chains[scenery.index_of(s.queue[s.head].position)].push(cell),
    )
}

/// The walk of a cell that is reached from the head of the queue comes
/// first among the walks of its length.
proof fn lemma_reached_first(
    s: Search,
    chains: Seq<Seq<Cell>>,
    low: int,
    start: Cell,
    goal: Cell,
    village: Village,
    scenery: Scenery,
    cell: Cell,
    walk: Seq<Cell>,
)
    requires
        search_inv(s, start, goal, village, scenery),
        order_inv(s, chains, low, start, goal, village, scenery),
        s.head < s.queue.len(),
        adjacent(s.queue[s.head].position, cell),
        enterable(village, scenery, goal, cell),
        s.g_score[scenery.index_of(cell)] is None,
        is_walk(walk, start, cell, goal, village, scenery),
        walk.len() == s.queue[s.head].cost + 2,
    ensures
        walk == chains[scenery.index_of(s.queue[s.head].position)].push(cell) || moves_first(
            chains[scenery.index_of(s.queue[s.head].position)].push(cell),
            walk,
        ),
{
    let from = s.queue[s.head].position;
    let from_index = scenery.index_of(from);
    let cost = s.queue[s.head].cost as int;
    let shorter = walk.drop_last();
    let before = shorter.last();
    scenery.lemma_cell_index(cell);
    scenery.lemma_cell_index(from);
    assert(step_allowed(walk, walk.len() - 1, goal, village, scenery));
    assert(before == walk[walk.len() - 2]);
    assert forall|k: int| 0 < k < shorter.len() implies #[trigger] step_allowed(
        shorter,
        k,
        goal,
        village,
        scenery,
    ) by {
        assert(step_allowed(walk, k, goal, village, scenery));
    }
    assert(is_walk(shorter, start, before, goal, village, scenery));
    lemma_walk_costs(s, start, goal, village, scenery, shorter, before, cost);
    let before_index = scenery.index_of(before);
    scenery.lemma_cell_index(before);
    assert(s.g_score[before_index] is Some);
    let at = s.place[before_index];
    assert(s.queue[at].position == before);
    if at < s.head {
        assert(adjacent(s.queue[at].position, cell));
        assert(false);
    }
    assert(s.queue[s.head].cost <= s.queue[at].cost);
    assert(s.g_score[before_index].unwrap() == cost);
    assert(s.g_score[from_index] is Some);
    // the walk to the cell before comes no earlier than the walk of the head
    assert(is_walk(shorter, start, scenery.cell_of(before_index), goal, village, scenery));
    if at > s.head {
        assert(moves_first(chains[from_index], chains[before_index]));
        if shorter != chains[before_index] {
            lemma_moves_first_trans(chains[from_index], chains[before_index], shorter);
        }
        lemma_moves_first_push(chains[from_index], shorter, cell, cell);
    } else {
        if shorter != chains[from_index] {
            lemma_moves_first_push(chains[from_index], shorter, cell, cell);
        }
    }
    assert(shorter.push(cell) =~= walk);
}

/// Reaching a cell that was not reached before keeps the order.
proof fn lemma_reached_order(
    s: Search,
    chains: Seq<Seq<Cell>>,
    low: int,
    above: int,
    start: Cell,
    goal: Cell,
    village: Village,
    scenery: Scenery,
    cell: Cell,
)
    requires
        search_inv(s, start, goal, village, scenery),
        order_inv(s, chains, low, start, goal, village, scenery),
        s.head < s.queue.len(),
        adjacent(s.queue[s.head].position, cell),
        enterable(village, scenery, goal, cell),
        s.g_score[scenery.index_of(cell)] is None,
        s.queue.len() < usize::MAX,
        low == move_rank(s.queue[s.head].position, cell),
        low < above,
    ensures
        order_inv(
            reached(s, scenery, cell),
            chained(s, chains, scenery, cell),
            above,
            start,
            goal,
            village,
            scenery,
        ),
{
    let t = reached(s, scenery, cell);
    let links = chained(s, chains, scenery, cell);
    let n = scenery.cell_count();
    let index = scenery.index_of(cell);
    let from = s.queue[s.head].position;
    let from_index = scenery.index_of(from);
    let cost = s.queue[s.head].cost as int;
    scenery.lemma_cell_index(cell);
    scenery.lemma_cell_index(from);
    scenery.lemma_cell_index(start);
    assert(s.g_score[from_index] is Some);
    assert(s.queue[s.head].cost <= s.head);
    let grown = chains[from_index].push(cell);
    assert(is_walk(grown, start, cell, goal, village, scenery)) by {
        assert forall|k: int| 0 < k < grown.len() implies #[trigger] step_allowed(
            grown,
            k,
            goal,
            village,
            scenery,
        ) by {
            if k < grown.len() - 1 {
                assert(step_allowed(chains[from_index], k, goal, village, scenery));
            }
        }
    }
    assert forall|i: int| 0 <= i < n && (#[trigger] t.g_score[i]) is Some implies {
        &&& is_walk(links[i], start, scenery.cell_of(i), goal, village, scenery)
        &&& links[i].len() == t.g_score[i].unwrap() + 1
        &&& if scenery.cell_of(i) == start {
            links[i] == seq![start]
        } else {
            links[i] == links[scenery.index_of(t.came_from[i].unwrap())].push(scenery.cell_of(i))
        }
    } by {
        if i != index {
            assert(s.g_score[i] is Some);
            if scenery.cell_of(i) != start {
                scenery.lemma_cell_index(s.came_from[i].unwrap());
            }
        }
    }
    assert forall|i: int|
        0 <= i < n && (#[trigger] t.g_score[i]) is Some && scenery.cell_of(i) != start implies {
        let parent = t.place[scenery.index_of(t.came_from[i].unwrap())];
        &&& 0 <= parent <= t.head
        &&& parent < t.queue.len()
        &&& t.queue[parent].position == t.came_from[i].unwrap()
        &&& parent == t.head ==> move_rank(t.queue[parent].position, scenery.cell_of(i)) < above
    } by {
        if i != index {
            assert(s.g_score[i] is Some);
            scenery.lemma_cell_index(s.came_from[i].unwrap());
        } else {
            assert(s.place[from_index] == s.head);
        }
    }
    assert forall|j: int| 0 <= j < t.queue.len() implies t.place[scenery.index_of(
        (#[trigger] t.queue[j]).position,
    )] == j by {
        if j < s.queue.len() {
            assert(t.queue[j] == s.queue[j]);
            scenery.lemma_cell_index(s.queue[j].position);
        }
    }
    assert forall|a: int, b: int|
        0 <= a < b < t.queue.len() && (#[trigger] t.queue[a]).cost == (
        #[trigger] t.queue[b]).cost implies moves_first(
        links[scenery.index_of(t.queue[a].position)],
        links[scenery.index_of(t.queue[b].position)],
    ) by {
        assert(t.queue[a] == s.queue[a]);
        let first = s.queue[a].position;
        let first_index = scenery.index_of(first);
        scenery.lemma_cell_index(first);
        assert(s.g_score[first_index] is Some);
        if b < s.queue.len() {
            assert(t.queue[b] == s.queue[b]);
            scenery.lemma_cell_index(s.queue[b].position);
            assert(s.queue[a].cost == s.queue[b].cost);
        } else {
            // a cell of the cost of the new one was reached from the head
            // by an earlier move, or from a cell before the head
            assert(first != start);
            let parent_cell = s.came_from[first_index].unwrap();
            let parent_index = scenery.index_of(parent_cell);
            let parent = s.place[parent_index];
            scenery.lemma_cell_index(parent_cell);
            assert(chains[first_index] == chains[parent_index].push(first));
            if parent == s.head {
                assert(parent_cell == from);
                assert(chains[from_index].last() == from);
                lemma_moves_first_last(chains[from_index], first, cell);
            } else {
                assert(s.queue[parent].cost == s.queue[s.head].cost);
                assert(moves_first(chains[parent_index], chains[from_index]));
                lemma_moves_first_push(chains[parent_index], chains[from_index], first, cell);
            }
        }
    }
    assert forall|i: int, walk: Seq<Cell>|
        0 <= i < n && t.g_score[i] is Some && #[trigger] is_walk(
            walk,
            start,
            scenery.cell_of(i),
            goal,
            village,
            scenery,
        ) && walk.len() == t.g_score[i].unwrap() + 1 implies walk == links[i] || moves_first(
        links[i],
        walk,
    ) by {
        if i != index {
            assert(s.g_score[i] is Some);
        } else {
            lemma_reached_first(s, chains, low, start, goal, village, scenery, cell, walk);
        }
    }
}

/// Moving the head on keeps the order.
proof fn lemma_expanded_order(
    s: Search,
    chains: Seq<Seq<Cell>>,
    low: int,
    start: Cell,
    goal: Cell,
    village: Village,
    scenery: Scenery,
)
    requires
        order_inv(s, chains, low, start, goal, village, scenery),
        s.head < s.queue.len(),
    ensures
        order_inv(expanded(s), chains, 0, start, goal, village, scenery),
{
    let t = expanded(s);
    let n = scenery.cell_count();
    assert forall|i: int|
        0 <= i < n && (#[trigger] t.g_score[i]) is Some && scenery.cell_of(i) != start implies {
        let parent = t.place[scenery.index_of(t.came_from[i].unwrap())];
        &&& 0 <= parent <= t.head
        &&& parent < t.queue.len()
        &&& t.queue[parent].position == t.came_from[i].unwrap()
        &&& parent == t.head ==> move_rank(t.queue[parent].position, scenery.cell_of(i)) < 0
    } by {
        assert(s.g_score[i] is Some);
    }
}

/// The walk that led the search to `current`, from the start on.
///
/// `came_from` holds for each reached cell but the start the cell it was
/// reached from, and `g_score` the cost of each reached cell.
fn reconstruct_path(
    came_from: &Vec<Option<Cell>>,
    g_score: &Vec<Option<usize>>,
    current: Cell,
    scenery: &Scenery,
    Ghost(s): Ghost<Search>,
    Ghost(chains): Ghost<Seq<Seq<Cell>>>,
    Ghost(low): Ghost<int>,
    Ghost(start): Ghost<Cell>,
    Ghost(goal): Ghost<Cell>,
    Ghost(village): Ghost<Village>,
) -> (path: Vec<Cell>)
    requires
        search_inv(s, start, goal, village, *scenery),
        order_inv(s, chains, low, start, goal, village, *scenery),
        came_from@ == s.came_from,
        g_score@ == s.g_score,
        scenery.holds(current),
        s.g_score[scenery.index_of(current)] is Some,
        s.queue.len() <= usize::MAX,
    ensures
        path@ == chains[scenery.index_of(current)],
{
    let cost = g_score[scenery.cell_index(current)].unwrap();
    let ghost target = scenery.index_of(current);
    proof {
        scenery.lemma_cell_index(current);
        let at = s.place[target];
        assert(s.queue[at].cost == cost);
    }
    let mut path: Vec<Cell> = Vec::new();
    let mut filled: usize = 0;
    while filled <= cost
        invariant
            filled <= cost + 1,
            cost < usize::MAX,
            path@.len() == filled,
        decreases cost + 1 - filled,
    {
        path.push(current);
        filled += 1;
    }
    let mut cell = current;
    let mut rank: usize = cost;
    while rank > 0
        invariant
            search_inv(s, start, goal, village, *scenery),
            order_inv(s, chains, low, start, goal, village, *scenery),
            came_from@ == s.came_from,
            g_score@ == s.g_score,
            path@.len() == cost + 1,
            rank <= cost,
            scenery.holds(cell),
            s.g_score[scenery.index_of(cell)] == Some(rank),
            0 <= target < scenery.cell_count(),
            chains[target].len() == cost + 1,
            chains[target].take(rank + 1) == chains[scenery.index_of(cell)],
            forall|k: int| rank < k <= cost ==> #[trigger] path@[k] == chains[target][k],
        decreases rank,
    {
        let index = scenery.cell_index(cell);
        proof {
            scenery.lemma_cell_index(cell);
            scenery.lemma_cell_index(start);
            assert(s.g_score[index as int] is Some);
            assert(chains[index as int].last() == cell);
            assert(chains[target].take(rank + 1)[rank as int] == cell);
        }
        path[rank] = cell;
        let previous = came_from[index].unwrap();
        proof {
            scenery.lemma_cell_index(previous);
            assert(chains[target].take(rank as int) =~= chains[target].take(rank + 1).drop_last());
            assert(chains[scenery.index_of(previous)].push(cell).drop_last()
                =~= chains[scenery.index_of(previous)]);
        }
        cell = previous;
        rank -= 1;
    }
    proof {
        let index = scenery.index_of(cell);
        scenery.lemma_cell_index(cell);
        scenery.lemma_cell_index(start);
        assert(s.g_score[index] is Some);
        assert(cell == start);
        assert(chains[target].take(1)[0] == start);
    }
    path[0] = cell;
    assert(path@ =~= chains[target]);
    path
}

/// A row of `n` slots that hold nothing.
fn empty_slots<T>(n: usize) -> (slots: Vec<Option<T>>)
    ensures
        slots@.len() == n,
        forall|i: int| 0 <= i < n ==> slots@[i] is None,
{
    let mut slots: Vec<Option<T>> = Vec::new();
    while slots.len() < n
        invariant
            slots@.len() <= n,
            forall|i: int| 0 <= i < slots@.len() ==> slots@[i] is None,
        decreases n - slots@.len(),
    {
        slots.push(None);
    }
    slots
}

/// A shortest route from `start` to `goal` over the plate of `scenery`.
///
/// A route may enter the goal whatever stands on it, and no other cell that
/// `village` blocks. The result is empty exactly when there is no route;
/// otherwise it is a route, no route is shorter, and of the routes of its
/// length it is the one that comes first by its moves. From a cell to
/// itself the route is that one cell.
pub fn pathfind(start: Cell, goal: Cell, village: &Village, scenery: &Scenery) -> (path: Vec<Cell>)
    requires
        village.wf(),
    ensures
        path@.len() == 0 <==> forall|route: Seq<Cell>|
            !is_route(route, start, goal, *village, *scenery),
        path@.len() > 0 ==> is_first_route(path@, start, goal, *village, *scenery),
{
    if !scenery.contains_cell(start) {
        return Vec::new();
    }
    let width: i16 = scenery.params().plate_width_cells as i16;
    let height: i16 = scenery.params().plate_height_cells as i16;
    let n = scenery.count_cells();

    let mut open_set: Vec<Node> = Vec::new();
    let mut head: usize = 0;
    let mut came_from: Vec<Option<Cell>> = empty_slots(n);
    let mut g_score: Vec<Option<usize>> = empty_slots(n);
    let ghost mut place: Seq<int> = Seq::new(n as nat, |i: int| 0int);

    let start_index = scenery.cell_index(start);
    open_set.push(Node { position: start, cost: 0 });
    proof {
        lemma_unseen_bound(g_score@);
        lemma_unseen_update(g_score@, start_index as int, 0);
    }
    g_score[start_index] = Some(0);

    let ghost mut s = Search {
        queue: open_set@,
        head: 0,
        g_score: g_score@,
        came_from: came_from@,
        place,
    };
    let ghost mut chains: Seq<Seq<Cell>> = Seq::new(n as nat, |i: int| seq![start]);
    proof {
        scenery.lemma_cell_index(start);
        scenery.lemma_cell_count_bound();
        assert forall|i: int| 0 <= i < n && (#[trigger] s.g_score[i]) is Some implies i
            == start_index by {}
        assert(search_inv(s, start, goal, *village, *scenery));
        assert forall|i: int, walk: Seq<Cell>|
            0 <= i < n && s.g_score[i] is Some && #[trigger] is_walk(
                walk,
                start,
                scenery.cell_of(i),
                goal,
                *village,
                *scenery,
            ) && walk.len() == s.g_score[i].unwrap() + 1 implies walk == chains[i] || moves_first(
            chains[i],
            walk,
        ) by {
            assert(walk =~= seq![start]);
        }
        assert(order_inv(s, chains, 0, start, goal, *village, *scenery));
    }

    while head < open_set.len()
        invariant
            village.wf(),
            search_inv(s, start, goal, *village, *scenery),
            order_inv(s, chains, 0, start, goal, *village, *scenery),
            s.queue == open_set@,
            s.head == head,
            s.g_score == g_score@,
            s.came_from == came_from@,
            n == scenery.cell_count(),
            width == scenery.params.plate_width_cells,
            height == scenery.params.plate_height_cells,
            open_set@.len() + unseen(g_score@) <= n + 1,
        decreases 2 * unseen(g_score@) + open_set@.len() - head,
    {
        let current = open_set[head];
        if current.position == goal {
            proof {
                scenery.lemma_cell_count_bound();
            }
            let path = reconstruct_path(
                &came_from,
                &g_score,
                current.position,
                scenery,
                Ghost(s),
                Ghost(chains),
                Ghost(0),
                Ghost(start),
                Ghost(goal),
                Ghost(*village),
            );
            proof {
                let index = scenery.index_of(goal);
                scenery.lemma_cell_index(goal);
                assert(s.g_score[index] is Some);
                assert(is_walk(chains[index], start, scenery.cell_of(index), goal, *village, *scenery));
                assert(is_route(path@, start, goal, *village, *scenery));
                assert forall|route: Seq<Cell>| #[trigger]
                    is_route(route, start, goal, *village, *scenery) implies {
                    ||| path@.len() < route.len()
                    ||| path@.len() == route.len() && (route == path@ || moves_first(path@, route))
                } by {
                    lemma_walk_costs(
                        s,
                        start,
                        goal,
                        *village,
                        *scenery,
                        route,
                        goal,
                        route.len() - 1,
                    );
                    if path@.len() == route.len() {
                        assert(is_walk(
                            route,
                            start,
                            scenery.cell_of(index),
                            goal,
                            *village,
                            *scenery,
                        ));
                    }
                }
            }
            return path;
        }
        let around = neighbors(current.position, width, height);
        let ghost entry = s;
        let ghost mut low: int = if around@.len() > 0 {
            move_rank(current.position, around@[0])
        } else {
            4
        };
        let mut k: usize = 0;
        while k < around.len()
            invariant
                village.wf(),
                search_inv(s, start, goal, *village, *scenery),
                order_inv(s, chains, low, start, goal, *village, *scenery),
                low == if k < around@.len() {
                    move_rank(current.position, around@[k as int])
                } else {
                    4
                },
                forall|a: int, b: int|
                    0 <= a < b < around@.len() ==> move_rank(
                        current.position,
                        #[trigger] around@[a],
                    ) < move_rank(current.position, #[trigger] around@[b]),
                s.queue == open_set@,
                s.head == head,
                s.g_score == g_score@,
                s.came_from == came_from@,
                n == scenery.cell_count(),
                head < open_set@.len(),
                open_set@[head as int] == current,
                current.position != goal,
                k <= around@.len(),
                around@.len() <= 4,
                forall|t: int|
                    0 <= t < around@.len() ==> adjacent(current.position, #[trigger] around@[t])
                        && within(around@[t], width, height),
                width == scenery.params.plate_width_cells,
                height == scenery.params.plate_height_cells,
                forall|t: int|
                    0 <= t < k && enterable(*village, *scenery, goal, #[trigger] around@[t])
                        ==> g_score@[scenery.index_of(around@[t])] is Some,
                open_set@.len() + unseen(g_score@) <= n + 1,
                2 * unseen(g_score@) + open_set@.len() <= 2 * unseen(entry.g_score)
                    + entry.queue.len(),
            decreases around@.len() - k,
        {
            let neighbor = around[k];
            let ghost above: int = if k + 1 < around@.len() {
                move_rank(current.position, around@[k + 1])
            } else {
                4
            };
            let enter = if goal == neighbor {
                true
            } else {
                !village.is_cell_blocked(neighbor)
            };
            if enter {
                let index = scenery.cell_index(neighbor);
                proof {
                    scenery.lemma_cell_index(neighbor);
                }
                if g_score[index].is_none() {
                    proof {
                        scenery.lemma_cell_count_bound();
                        lemma_reached(s, start, goal, *village, *scenery, neighbor);
                        lemma_reached_order(
                            s,
                            chains,
                            low,
                            above,
                            start,
                            goal,
                            *village,
                            *scenery,
                            neighbor,
                        );
                        assert(current.cost <= head);
                    }
                    let tentative_g_score = current.cost + 1;
                    came_from[index] = Some(current.position);
                    g_score[index] = Some(tentative_g_score);
                    open_set.push(Node { position: neighbor, cost: tentative_g_score });
                    proof {
                        let ghost before = s;
                        chains = chained(s, chains, *scenery, neighbor);
                        s = reached(s, *scenery, neighbor);
                        low = above;
                        assert forall|t: int|
                            0 <= t < k + 1 && enterable(
                                *village,
                                *scenery,
                                goal,
                                #[trigger] around@[t],
                            ) implies g_score@[scenery.index_of(around@[t])] is Some by {
                            if t < k {
                                assert(before.g_score[scenery.index_of(around@[t])] is Some);
                                scenery.lemma_cell_index(around@[t]);
                            }
                        }
                    }
                }
            }
            proof {
                low = above;
            }
            k += 1;
        }
        proof {
            lemma_expanded_order(s, chains, low, start, goal, *village, *scenery);
            assert forall|cell: Cell|
                adjacent(s.queue[s.head].position, cell) && #[trigger] enterable(
                    *village,
                    *scenery,
                    goal,
                    cell,
                ) implies s.g_score[scenery.index_of(cell)] is Some by {
                assert(within(cell, width, height));
                let t = choose|t: int| 0 <= t < around@.len() && #[trigger] around@[t] == cell;
                assert(enterable(*village, *scenery, goal, around@[t]));
            }
            lemma_expanded(s, start, goal, *village, *scenery);
            s = expanded(s);
        }
        head += 1;
    }
    proof {
        assert forall|route: Seq<Cell>| !is_route(route, start, goal, *village, *scenery) by {
            if is_route(route, start, goal, *village, *scenery) {
                lemma_walk_costs(
                    s,
                    start,
                    goal,
                    *village,
                    *scenery,
                    route,
                    goal,
                    route.len() - 1,
                );
                let index = scenery.index_of(goal);
                scenery.lemma_cell_index(goal);
                assert(s.g_score[index] is Some);
                let at = s.place[index];
                assert(s.queue[at].position == goal);
            }
        }
    }
    Vec::new()
}

/// Whether `a` comes before `b` when cells are listed column by column.
pub open spec fn column_before(a: Cell, b: Cell) -> bool {
    a.x < b.x || (a.x == b.x && a.y < b.y)
}

/// The cells of the footprint of `comp` placed at `cell`, column by column.
pub fn list_cells_of_component(cell: Cell, comp: &Component) -> (cells: Vec<Cell>)
    requires
        cell.x + comp.footprint().diameter() <= i16::MAX,
        cell.y + comp.footprint().diameter() <= i16::MAX,
    ensures
        forall|m: int|
            0 <= m < cells@.len() ==> footprint_holds(cell, comp.footprint(), #[trigger] cells@[m]),
        forall|inside: Cell|
            footprint_holds(cell, comp.footprint(), inside) ==> exists|m: int|
                0 <= m < cells@.len() && #[trigger] cells@[m] == inside,
        forall|m: int, n: int|
            0 <= m < n < cells@.len() ==> column_before(#[trigger] cells@[m], #[trigger] cells@[n]),
{
    let building_diameter: i16 = comp.get_plot_size().cell_diameter() as i16;
    let ghost size = comp.footprint();
    let mut cells: Vec<Cell> = Vec::new();
    let mut x: i16 = 0;
    while x < building_diameter
        invariant
            building_diameter == size.diameter(),
            1 <= building_diameter <= 4,
            cell.x + building_diameter <= i16::MAX,
            cell.y + building_diameter <= i16::MAX,
            0 <= x <= building_diameter,
            forall|m: int|
                0 <= m < cells@.len() ==> footprint_holds(cell, size, #[trigger] cells@[m])
                    && cells@[m].x < cell.x + x,
            forall|inside: Cell|
                footprint_holds(cell, size, inside) && inside.x < cell.x + x ==> exists|m: int|
                    0 <= m < cells@.len() && #[trigger] cells@[m] == inside,
            forall|m: int, n: int|
                0 <= m < n < cells@.len() ==> column_before(
                    #[trigger] cells@[m],
                    #[trigger] cells@[n],
                ),
        decreases building_diameter - x,
    {
        let mut y: i16 = 0;
        while y < building_diameter
            invariant
                building_diameter == size.diameter(),
                1 <= building_diameter <= 4,
                cell.x + building_diameter <= i16::MAX,
                cell.y + building_diameter <= i16::MAX,
                0 <= x < building_diameter,
                0 <= y <= building_diameter,
                forall|m: int|
                    0 <= m < cells@.len() ==> footprint_holds(cell, size, #[trigger] cells@[m]) && (
                    cells@[m].x < cell.x + x || (cells@[m].x == cell.x + x && cells@[m].y < cell.y
                        + y)),
                forall|inside: Cell|
                    footprint_holds(cell, size, inside) && (inside.x < cell.x + x || (inside.x
                        == cell.x + x && inside.y < cell.y + y)) ==> exists|m: int|
                        0 <= m < cells@.len() && #[trigger] cells@[m] == inside,
                forall|m: int, n: int|
                    0 <= m < n < cells@.len() ==> column_before(
                        #[trigger] cells@[m],
                        #[trigger] cells@[n],
                    ),
            decreases building_diameter - y,
        {
            let ghost before = cells@;
            let next = Cell { y: cell.y + y, x: cell.x + x };
            cells.push(next);
            proof {
                assert forall|inside: Cell|
                    footprint_holds(cell, size, inside) && (inside.x < cell.x + x || (inside.x
                        == cell.x + x && inside.y < cell.y + y + 1)) implies exists|m: int|
                    0 <= m < cells@.len() && #[trigger] cells@[m] == inside by {
                    if inside == next {
                        assert(cells@[before.len() as int] == inside);
                    } else {
                        let m = choose|m: int| 0 <= m < before.len() && #[trigger] before[m] == inside;
                        assert(cells@[m] == inside);
                    }
                }
            }
            y += 1;
        }
        x += 1;
    }
    cells
}

/// Whether a troop that prefers defenses or not goes for `component`: the
/// component is not destroyed, and it is a defense if the troop prefers
/// defenses and the village has a live one. A component without life points
/// is never destroyed.
pub open spec fn eligible(village: Village, prefers_defenses: bool, component: Component) -> bool {
    &&& !component.destroyed()
    &&& village.counted_defenses() > 0 && prefers_defenses ==> component.defensive()
}

/// Whether `cell` is a cell of a component that `troop` goes for, the one in
/// slot `id`.
pub open spec fn candidate(village: Village, troop: Troop, id: int, cell: Cell) -> bool {
    &&& 0 <= id < village@.len()
    &&& village@[id] is Some
    &&& eligible(village, troop.tpe.prefers_defenses(), village@[id].unwrap())
    &&& footprint_holds(village.cell_of(id), village@[id].unwrap().footprint(), cell)
}

/// Whether the first candidate is listed no later than the second: by slot,
/// then column by column.
pub open spec fn listed_first(id: int, cell: Cell, other_id: int, other_cell: Cell) -> bool {
    id < other_id || (id == other_id && (cell == other_cell || column_before(cell, other_cell)))
}

/// Whether `cell` in slot `id` is what `troop` goes for first: of the cells
/// of the components that it goes for the one nearest to where it stands,
/// and of several equally near the one listed first.
pub open spec fn is_nearest(village: Village, troop: Troop, id: int, cell: Cell) -> bool {
    &&& candidate(village, troop, id, cell)
    &&& forall|other_id: int, other_cell: Cell| #[trigger]
        candidate(village, troop, other_id, other_cell) ==> {
            ||| squared_distance(cell.corner_at(village.grain()), troop.pos) < squared_distance(
                other_cell.corner_at(village.grain()),
                troop.pos,
            )
            ||| squared_distance(cell.corner_at(village.grain()), troop.pos) == squared_distance(
                other_cell.corner_at(village.grain()),
                troop.pos,
            ) && listed_first(id, cell, other_id, other_cell)
        }
}

/// The component that `troop` goes for and the cell of it that is nearest
/// to the troop; nothing when there is no component that it goes for.
pub fn find_nearest_target(troop: &Troop, village: &Village) -> (target: Option<(ComponentId, Cell)>)
    requires
        village.wf(),
    ensures
        target is None <==> forall|id: int, cell: Cell| !candidate(*village, *troop, id, cell),
        target matches Some(found) ==> is_nearest(*village, *troop, found.0.0 as int, found.1),
{
    let mut closest: Option<(ComponentId, Cell, u128)> = None;
    let prefers = troop.tpe.prefer_defenses();
    let defended = village.state().remaining_defenses > 0;
    let slots = village.slot_count();
    let mut index: usize = 0;
    while index < slots
        invariant
            village.wf(),
            slots == village@.len(),
            index <= slots,
            prefers == troop.tpe.prefers_defenses(),
            defended == (village.counted_defenses() > 0),
            closest is None ==> forall|id: int, cell: Cell|
                id < index ==> !candidate(*village, *troop, id, cell),
            closest matches Some(best) ==> {
                &&& best.0.0 < index
                &&& candidate(*village, *troop, best.0.0 as int, best.1)
                &&& best.2 == squared_distance(best.1.corner_at(village.grain()), troop.pos)
                &&& forall|id: int, cell: Cell|
                    id < index && #[trigger] candidate(*village, *troop, id, cell) ==> {
                        ||| best.2 < squared_distance(cell.corner_at(village.grain()), troop.pos)
                        ||| best.2 == squared_distance(cell.corner_at(village.grain()), troop.pos) && listed_first(
                            best.0.0 as int,
                            best.1,
                            id,
                            cell,
                        )
                    }
            },
        decreases slots - index,
    {
        let id = ComponentId(index);
        match village.get_component(id) {
            Some(comp) => {
                let alive = !comp.is_destroyed();
                let wanted = alive && (!(defended && prefers) || is_defensive_building(comp));
                assert(wanted == eligible(*village, prefers, *comp));
                if wanted {
                    proof {
                        village.lemma_index_cell(index as int);
                        village.terrain().lemma_cell_count_bound();
                    }
                    let origin = village.scenery().cell_at(index);
                    let cells = list_cells_of_component(origin, comp);
                    let mut m: usize = 0;
                    while m < cells.len()
                        invariant
                            village.wf(),
                            index < village@.len(),
                            village@[index as int] == Some(*comp),
                            eligible(*village, troop.tpe.prefers_defenses(), *comp),
                            origin == village.cell_of(index as int),
                            id.0 == index,
                            m <= cells@.len(),
                            forall|k: int|
                                0 <= k < cells@.len() ==> footprint_holds(
                                    origin,
                                    comp.footprint(),
                                    #[trigger] cells@[k],
                                ),
                            forall|inside: Cell|
                                footprint_holds(origin, comp.footprint(), inside) ==> exists|k: int|
                                    0 <= k < cells@.len() && #[trigger] cells@[k] == inside,
                            forall|k: int, n: int|
                                0 <= k < n < cells@.len() ==> column_before(
                                    #[trigger] cells@[k],
                                    #[trigger] cells@[n],
                                ),
                            closest is None ==> m == 0 && forall|other: int, cell: Cell|
                                other < index ==> !candidate(*village, *troop, other, cell),
                            closest matches Some(best) ==> {
                                &&& best.0.0 <= index
                                &&& best.0.0 == index ==> exists|k: int|
                                    0 <= k < m && #[trigger] cells@[k] == best.1
                                &&& candidate(*village, *troop, best.0.0 as int, best.1)
                                &&& best.2 == squared_distance(best.1.corner_at(village.grain()), troop.pos)
                                &&& forall|other: int, cell: Cell|
                                    (other < index || (other == index && exists|k: int|
                                        0 <= k < m && #[trigger] cells@[k] == cell))
                                        && #[trigger] candidate(*village, *troop, other, cell) ==> {
                                        ||| best.2 < squared_distance(cell.corner_at(village.grain()), troop.pos)
                                        ||| best.2 == squared_distance(cell.corner_at(village.grain()), troop.pos)
                                            && listed_first(best.0.0 as int, best.1, other, cell)
                                    }
                            },
                        decreases cells@.len() - m,
                    {
                        let building_cell = cells[m];
                        assert(footprint_holds(origin, comp.footprint(), cells@[m as int]));
                        assert(village@[index as int] is Some);
                        let distance = building_cell.to_pos_at(village.fineness()).distance_squared(
                            troop.pos,
                        );
                        let closer = match closest {
                            Some(best) => distance < best.2,
                            None => true,
                        };
                        let ghost earlier = closest;
                        if closer {
                            closest = Some((id, building_cell, distance));
                        }
                        proof {
                            let best = closest.unwrap();
                            if closer {
                                assert(cells@[m as int] == best.1);
                            } else {
                                if best.0.0 == index {
                                    let k = choose|k: int| 0 <= k < m && #[trigger] cells@[k] == best.1;
                                    assert(cells@[k] == best.1);
                                }
                            }
                            assert forall|other: int, cell: Cell|
                                (other < index || (other == index && exists|k: int|
                                    0 <= k < m + 1 && #[trigger] cells@[k] == cell))
                                    && #[trigger] candidate(
                                    *village,
                                    *troop,
                                    other,
                                    cell,
                                ) implies {
                                ||| best.2 < squared_distance(cell.corner_at(village.grain()), troop.pos)
                                ||| best.2 == squared_distance(cell.corner_at(village.grain()), troop.pos)
                                    && listed_first(best.0.0 as int, best.1, other, cell)
                            } by {
                                if other == index {
                                    let k = choose|k: int| 0 <= k < m + 1 && #[trigger] cells@[k] == cell;
                                    if k < m {
                                        assert(exists|k: int| 0 <= k < m && #[trigger] cells@[k] == cell);
                                    } else {
                                        if !closer && best.0.0 == index {
                                            let b = choose|b: int|
                                                0 <= b < m && #[trigger] cells@[b] == best.1;
                                            assert(column_before(cells@[b], cells@[m as int]));
                                        }
                                    }
                                }
                            }
                        }
                        m += 1;
                    }
                    proof {
                        assert forall|other: int, cell: Cell|
                            other < index + 1 && #[trigger] candidate(
                                *village,
                                *troop,
                                other,
                                cell,
                            ) implies (other < index || (other == index && exists|k: int|
                            0 <= k < cells@.len() && #[trigger] cells@[k] == cell)) by {}
                        assert(footprint_holds(origin, comp.footprint(), origin));
                        assert(closest is Some);
                    }
                }
            },
            None => {},
        }
        index += 1;
    }
    match closest {
        Some(best) => {
            assert(candidate(*village, *troop, best.0.0 as int, best.1));
            Some((best.0, best.1))
        },
        None => None,
    }
}

/// The corners of the cells of a route, for troops that stand at
/// `fineness`-ths of a step.
pub open spec fn corners(route: Seq<Cell>, fineness: int) -> Seq<Pos> {
    Seq::new(route.len(), |i: int| route[i].corner_at(fineness))
}

/// Whether `path` is the way from `from` to `goal`: the corners of the cells
/// of the route that the search finds from the cell at whose corner `from`
/// lies, or nothing where `from` is no corner of a cell or no route leads to
/// the goal. Positions are at the fineness of the village.
pub open spec fn is_way(path: Seq<Pos>, from: Pos, goal: Cell, village: Village, scenery: Scenery) -> bool {
    let fineness = village.grain();
    if from.on_corner(fineness) && exists|route: Seq<Cell>|
        is_route(route, from.cell_at(fineness), goal, village, scenery) {
        exists|route: Seq<Cell>| #[trigger]
            is_first_route(route, from.cell_at(fineness), goal, village, scenery) && path
                == corners(route, fineness)
    } else {
        path.len() == 0
    }
}

/// The way from `from` to `goal`; see [`is_way`].
pub fn find_way(from: Pos, goal: Cell, village: &Village, scenery: &Scenery) -> (path: Vec<Pos>)
    requires
        village.wf(),
    ensures
        is_way(path@, from, goal, *village, *scenery),
{
    let fineness = village.fineness();
    let start = match from.corner_cell(fineness) {
        Some(cell) => cell,
        None => {
            return Vec::new();
        },
    };
    let route = pathfind(start, goal, village, scenery);
    let mut path: Vec<Pos> = Vec::new();
    let mut i: usize = 0;
    while i < route.len()
        invariant
            i <= route@.len(),
            path@.len() == i,
            1 <= fineness <= MAX_FINENESS,
            route@.len() > 0 ==> is_route(route@, start, goal, *village, *scenery),
            0 <= start.x <= 255,
            0 <= start.y <= 255,
            forall|k: int| 0 <= k < i ==> path@[k] == route@[k].corner_at(fineness as int),
        decreases route@.len() - i,
    {
        proof {
            if i > 0 {
                assert(step_allowed(route@, i as int, goal, *village, *scenery));
            }
        }
        path.push(route[i].to_pos_at(fineness));
        i += 1;
    }
    proof {
        if route@.len() > 0 {
            assert(path@ =~= corners(route@, fineness as int));
        }
    }
    path
}

/// The component that `troop` goes for, with the way to the cell of it that
/// is nearest to the troop.
///
/// There is no result when no component is left that the troop goes for.
/// The way is empty when no route leads to that cell.
pub fn find_route_to_next_building(troop: &Troop, village: &Village, scenery: &Scenery) -> (found:
    Option<(Vec<Pos>, ComponentId)>)
    requires
        village.wf(),
    ensures
        found is None <==> forall|id: int, cell: Cell| !candidate(*village, *troop, id, cell),
        found matches Some(route) ==> exists|cell: Cell|
            {
                &&& #[trigger] is_nearest(*village, *troop, route.1.0 as int, cell)
                &&& is_way(route.0@, troop.pos, cell, *village, *scenery)
            },
{
    match find_nearest_target(troop, village) {
        Some((id, cell)) => {
            let path = find_way(troop.pos, cell, village, scenery);
            let found = Some((path, id));
            assert(is_nearest(*village, *troop, found.unwrap().1.0 as int, cell) && is_way(
                found.unwrap().0@,
                troop.pos,
                cell,
                *village,
                *scenery,
            ));
            found
        },
        None => None,
    }
}

} // verus!
