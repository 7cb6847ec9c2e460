//! The maze with a turn cost: a walker stands on a cell facing one of four
//! directions; a step forward costs 1 and a quarter turn costs 1000.
//!
//! A state is a cell together with a direction. States are numbered row by
//! row, four to a cell, and the maze becomes a graph on those numbers that
//! the best-path search of this library works on.

use crate::grid::{
    cell_at, content_at, content_cells, content_columns, content_rows, lemma_cell_of_index,
    lemma_index_of_cell, rectangular, step, step_spec, turn_left, turn_right, width, Direction,
    MapContent,
};
pub use crate::grid::find_start;
use crate::arith::one_if;
use crate::search::{
    best_costs, cheapest_to_target, closed_graph, edge_lists, lemma_leads_iff_on_cheapest_walk,
    modest, no_walk_to, none_cheaper, on_cheapest_walk, passes, pred_lists, reaches_at, search,
    trace_back, walk_cost, walk_end, walk_ok, Edge, UNREACHED,
};
use array2d::Array2D;
use vstd::prelude::*;

verus! {

/// The cost of one step forward.
pub const STEP_COST: u64 = 1;

/// The cost of a quarter turn in place.
pub const TURN_COST: u64 = 1000;

/// Where the walker stands and which way it faces.
#[derive(Clone, Copy, Debug)]
pub struct State {
    pub location: (usize, usize),
    pub direction: Direction,
}

/// The number of states: four for every cell.
pub open spec fn state_count(cells: Seq<Seq<MapContent>>) -> int {
    cells.len() * width(cells) * 4
}

/// The number of the state at `(row, column)` facing `d`.
pub open spec fn state_index(cells: Seq<Seq<MapContent>>, row: int, column: int, d: Direction) -> int {
    (row * width(cells) + column) * 4 + d.index()
}

/// The row of the cell of state `s`.
pub open spec fn state_row(cells: Seq<Seq<MapContent>>, s: int) -> int {
    (s / 4) / width(cells)
}

/// The column of the cell of state `s`.
pub open spec fn state_column(cells: Seq<Seq<MapContent>>, s: int) -> int {
    (s / 4) % width(cells)
}

/// The direction that state `s` faces.
pub open spec fn state_direction(s: int) -> Direction {
    Direction::of_index(s % 4)
}

/// The state on the cell of `s` that faces `d`.
pub open spec fn turned(s: int, d: Direction) -> int {
    (s / 4) * 4 + d.index()
}

/// The state one step forward of `s`, where that cell exists and is no wall.
pub open spec fn forward(cells: Seq<Seq<MapContent>>, s: int) -> Option<int> {
    let d = state_direction(s);
    match step_spec((state_row(cells, s), state_column(cells, s)), d, cells.len() as int, width(cells)) {
        Some(q) => if cells[q.0][q.1] != MapContent::Wall {
            Some(state_index(cells, q.0, q.1, d))
        } else {
            None
        },
        None => None,
    }
}

/// The moves out of state `s`: a step forward where the way is free, then a
/// turn to the left and a turn to the right.
pub open spec fn successors(cells: Seq<Seq<MapContent>>, s: int) -> Seq<Edge> {
    let d = state_direction(s);
    let turns = seq![
        Edge { to: turned(s, d.left()) as usize, cost: TURN_COST },
        Edge { to: turned(s, d.right()) as usize, cost: TURN_COST },
    ];
    match forward(cells, s) {
        Some(t) => seq![Edge { to: t as usize, cost: STEP_COST }] + turns,
        None => turns,
    }
}

/// The graph of the maze: the moves out of every state.
pub open spec fn maze_graph(cells: Seq<Seq<MapContent>>) -> Seq<Seq<Edge>> {
    Seq::new(state_count(cells) as nat, |s: int| successors(cells, s))
}

/// State `s` stands on an end cell.
pub open spec fn is_end_state(cells: Seq<Seq<MapContent>>, s: int) -> bool {
    &&& 0 <= s < state_count(cells)
    &&& cell_at(cells, state_row(cells, s), state_column(cells, s)) == Some(MapContent::End)
}

/// `best` is the cost of a cheapest walk from state `start` to an end cell,
/// or `None` where no walk leads from `start` to an end cell.
pub open spec fn cheapest_end(cells: Seq<Seq<MapContent>>, start: int, best: Option<u64>) -> bool {
    let g = maze_graph(cells);
    match best {
        Some(c) => {
            &&& c < UNREACHED
            &&& exists|e: int| #[trigger] is_end_state(cells, e) && reaches_at(g, start, e, c as int)
            &&& forall|e: int| #[trigger] is_end_state(cells, e) ==> none_cheaper(g, start, e, c as int)
        },
        None => forall|e: int| #[trigger] is_end_state(cells, e) ==> no_walk_to(g, start, e),
    }
}

/// The largest number of states of a maze in which the cost of every walk
/// without a circle fits in 64 bits.
pub open spec fn most_states() -> int {
    (UNREACHED - 1) / (TURN_COST as int)
}

proof fn lemma_maze_is_modest(cells: Seq<Seq<MapContent>>)
    requires
        0 <= state_count(cells) <= most_states(),
    ensures
        modest(maze_graph(cells)),
{
    let g = maze_graph(cells);
    let n = g.len() as int;
    if n > 0 {
        assert(most_states() == 18446744073709551);
        assert((UNREACHED - 1) / n >= 1000) by (nonlinear_arith)
            requires
                0 < n <= 18446744073709551,
                UNREACHED == 18446744073709551615,
        ;
    }
    assert forall|u: int, k: int| 0 <= u < g.len() && 0 <= k < g[u].len() implies (
    #[trigger] g[u][k]).cost <= crate::search::cost_cap(g) by {
        let d = state_direction(u);
        assert(g[u] == successors(cells, u));
    }
}

/// The maze as successor lists, one list for every state.
pub fn build_graph(map: &Array2D<MapContent>) -> (graph: Vec<Vec<Edge>>)
    requires
        state_count(content_cells(*map)) <= usize::MAX,
    ensures
        edge_lists(graph@) == maze_graph(content_cells(*map)),
        closed_graph(maze_graph(content_cells(*map))),
        graph.len() == state_count(content_cells(*map)),
{
    let ghost cells = content_cells(*map);
    let rows = content_rows(map);
    let mut graph: Vec<Vec<Edge>> = Vec::new();
    if rows == 0 {
        assert(edge_lists(graph@) =~= maze_graph(cells));
        return graph;
    }
    let cols = content_columns(map);
    assert(cols == width(cells));
    if cols == 0 {
        assert(state_count(cells) == 0) by (nonlinear_arith)
            requires
                width(cells) == 0,
        ;
        assert(edge_lists(graph@) =~= maze_graph(cells));
        return graph;
    }
    assert(rows * cols <= rows * cols * 4) by (nonlinear_arith)
        requires
            rows >= 0,
            cols >= 0,
    ;
    let count = rows * cols * 4;
    let mut s: usize = 0;
    while s < count
        invariant
            s <= count,
            count == state_count(cells),
            count == rows * cols * 4,
            rows == cells.len(),
            cols == width(cells),
            cols > 0,
            rectangular(cells, cols as int),
            cells == content_cells(*map),
            graph.len() == s,
            forall|t: int| 0 <= t < s ==> (#[trigger] graph[t])@ == successors(cells, t),
            forall|t: int, k: int|
                0 <= t < s && 0 <= k < graph[t].len() ==> (#[trigger] graph[t][k]).to < count,
        decreases count - s,
    {
        let cell = s / 4;
        let r = cell / cols;
        let c = cell % cols;
        let d = Direction::from_number(s % 4);
        proof {
            lemma_cell_of_index(cell as int, rows as int, cols as int);
        }
        let mut moves: Vec<Edge> = Vec::new();
        match step((r, c), d, rows, cols) {
            Some(q) => {
                let there = content_at(map, q.0, q.1);
                assert(there == Some(cells[q.0 as int][q.1 as int]));
                if there != Some(MapContent::Wall) {
                    proof {
                        lemma_index_of_cell(q.0 as int, q.1 as int, rows as int, cols as int);
                    }
                    moves.push(Edge { to: (q.0 * cols + q.1) * 4 + d.number(), cost: STEP_COST });
                }
            },
            None => {},
        }
        moves.push(Edge { to: cell * 4 + turn_left(d).number(), cost: TURN_COST });
        moves.push(Edge { to: cell * 4 + turn_right(d).number(), cost: TURN_COST });
        assert(moves@ =~= successors(cells, s as int));
        graph.push(moves);
        s += 1;
    }
    proof {
        assert(edge_lists(graph@) =~= maze_graph(cells));
        assert forall|u: int, k: int|
            0 <= u < maze_graph(cells).len() && 0 <= k < maze_graph(cells)[u].len() implies (
        #[trigger] maze_graph(cells)[u][k]).to < maze_graph(cells).len() by {
            assert(graph[u][k].to < count);
        }
    }
    graph
}

/// The cost of a cheapest walk from `start` to an end cell of the maze.
///
/// The walker may step forward onto any cell that is no wall and may turn
/// left or right in place. `None` says that no walk leads to an end cell.
pub fn explore(map: &Array2D<MapContent>, start: &State) -> (best: Option<u64>)
    requires
        state_count(content_cells(*map)) <= usize::MAX,
        state_count(content_cells(*map)) <= most_states(),
        cell_at(
            content_cells(*map),
            start.location.0 as int,
            start.location.1 as int,
        ).is_some(),
    ensures
        cheapest_end(
            content_cells(*map),
            state_index(
                content_cells(*map),
                start.location.0 as int,
                start.location.1 as int,
                start.direction,
            ),
            best,
        ),
{
    let ghost cells = content_cells(*map);
    let ghost g = maze_graph(cells);
    let graph = build_graph(map);
    let rows = content_rows(map);
    let cols = content_columns(map);
    let count = graph.len();
    proof {
        lemma_index_of_cell(
            start.location.0 as int,
            start.location.1 as int,
            rows as int,
            cols as int,
        );
        assert(rows * cols * 4 == state_count(cells));
    }
    let origin = (start.location.0 * cols + start.location.1) * 4 + start.direction.number();
    let mut heuristic: Vec<u64> = Vec::new();
    let mut i: usize = 0;
    while i < count
        invariant
            i <= count,
            heuristic.len() == i,
        decreases count - i,
    {
        heuristic.push(0);
        i += 1;
    }
    let paths = search(&graph, origin, &heuristic);
    let mut best: u64 = UNREACHED;
    let ghost mut best_at: int = 0;
    let mut s: usize = 0;
    while s < count
        invariant
            s <= count,
            count == state_count(cells),
            count == rows * cols * 4,
            rows == cells.len(),
            rows > 0,
            cols > 0,
            cols == width(cells),
            rectangular(cells, cols as int),
            cells == content_cells(*map),
            g == maze_graph(cells),
            paths.dist.len() == count,
            best_costs(g, origin as int, paths.dist@),
            forall|e: int| 0 <= e < s && #[trigger] is_end_state(cells, e) ==> best <= paths.dist[e],
            best != UNREACHED ==> is_end_state(cells, best_at) && paths.dist[best_at] == best,
        decreases count - s,
    {
        let cell = s / 4;
        proof {
            lemma_cell_of_index(cell as int, rows as int, cols as int);
        }
        let here = content_at(map, cell / cols, cell % cols);
        if here == Some(MapContent::End) && paths.dist[s] < best {
            best = paths.dist[s];
            proof {
                best_at = s as int;
            }
        }
        s += 1;
    }
    proof {
        assert forall|e: int| #[trigger] is_end_state(cells, e) implies none_cheaper(
            g,
            origin as int,
            e,
            best as int,
        ) by {
            assert(none_cheaper(g, origin as int, e, paths.dist[e] as int));
        }
        if best != UNREACHED {
            assert(reaches_at(g, origin as int, best_at, best as int));
        } else {
            lemma_maze_is_modest(cells);
            assert forall|e: int| #[trigger] is_end_state(cells, e) implies no_walk_to(
                g,
                origin as int,
                e,
            ) by {
                assert(paths.dist[e] == UNREACHED);
            }
        }
    }
    if best == UNREACHED {
        None
    } else {
        Some(best)
    }
}

/// State `s` lies on a walk from `start` to an end cell that costs `cost`.
pub open spec fn on_walk_of_cost(cells: Seq<Seq<MapContent>>, start: int, cost: int, s: int) -> bool {
    let g = maze_graph(cells);
    exists|steps: Seq<int>|
        #[trigger] walk_ok(g, start, steps) && is_end_state(cells, walk_end(g, start, steps))
            && walk_cost(g, start, steps) == cost && passes(g, start, steps, s)
}

/// Cell number `cell` lies, facing some direction, on a walk from `start`
/// to an end cell that costs `cost`.
pub open spec fn is_seat(cells: Seq<Seq<MapContent>>, start: int, cost: int, cell: int) -> bool {
    ||| on_walk_of_cost(cells, start, cost, cell * 4)
    ||| on_walk_of_cost(cells, start, cost, cell * 4 + 1)
    ||| on_walk_of_cost(cells, start, cost, cell * 4 + 2)
    ||| on_walk_of_cost(cells, start, cost, cell * 4 + 3)
}

/// The number of cells below number `upto` that lie on a walk from `start`
/// to an end cell that costs `cost`.
pub open spec fn seats(cells: Seq<Seq<MapContent>>, start: int, cost: int, upto: int) -> int
    decreases upto,
{
    if upto <= 0 {
        0
    } else {
        seats(cells, start, cost, upto - 1) + one_if(is_seat(cells, start, cost, upto - 1))
    }
}

/// The cost of a cheapest walk from `start` to an end cell, and the number
/// of cells that lie on at least one such walk; `None` and 0 where no walk
/// leads to an end cell.
///
/// The cells are found by following the predecessor lists of the search
/// back from every end state that is reached at the cheapest cost.
pub fn best_seats(map: &Array2D<MapContent>, start: &State) -> (found: (Option<u64>, usize))
    requires
        state_count(content_cells(*map)) <= usize::MAX,
        state_count(content_cells(*map)) <= most_states(),
        cell_at(
            content_cells(*map),
            start.location.0 as int,
            start.location.1 as int,
        ).is_some(),
    ensures
        ({
            let cells = content_cells(*map);
            let origin = state_index(
                cells,
                start.location.0 as int,
                start.location.1 as int,
                start.direction,
            );
            &&& cheapest_end(cells, origin, found.0)
            &&& match found.0 {
                Some(c) => found.1 == seats(cells, origin, c as int, cells.len() * width(cells)),
                None => found.1 == 0,
            }
        }),
{
    let ghost cells = content_cells(*map);
    let ghost g = maze_graph(cells);
    let graph = build_graph(map);
    let rows = content_rows(map);
    let cols = content_columns(map);
    let count = graph.len();
    proof {
        lemma_index_of_cell(
            start.location.0 as int,
            start.location.1 as int,
            rows as int,
            cols as int,
        );
        assert(rows * cols * 4 == state_count(cells));
    }
    let origin = (start.location.0 * cols + start.location.1) * 4 + start.direction.number();
    let mut heuristic: Vec<u64> = Vec::new();
    let mut i: usize = 0;
    while i < count
        invariant
            i <= count,
            heuristic.len() == i,
        decreases count - i,
    {
        heuristic.push(0);
        i += 1;
    }
    let paths = search(&graph, origin, &heuristic);
    let ghost dist = paths.dist@;
    let ghost preds = pred_lists(paths.preds@);
    let mut best: u64 = UNREACHED;
    let ghost mut best_at: int = 0;
    let mut s: usize = 0;
    while s < count
        invariant
            s <= count,
            count == state_count(cells),
            count == rows * cols * 4,
            rows == cells.len(),
            rows > 0,
            cols > 0,
            cols == width(cells),
            rectangular(cells, cols as int),
            cells == content_cells(*map),
            paths.dist.len() == count,
            forall|e: int| 0 <= e < s && #[trigger] is_end_state(cells, e) ==> best <= paths.dist[e],
            best != UNREACHED ==> is_end_state(cells, best_at) && paths.dist[best_at] == best,
        decreases count - s,
    {
        let cell = s / 4;
        proof {
            lemma_cell_of_index(cell as int, rows as int, cols as int);
        }
        let here = content_at(map, cell / cols, cell % cols);
        if here == Some(MapContent::End) && paths.dist[s] < best {
            best = paths.dist[s];
            proof {
                best_at = s as int;
            }
        }
        s += 1;
    }
    proof {
        assert forall|e: int| #[trigger] is_end_state(cells, e) implies none_cheaper(
            g,
            origin as int,
            e,
            best as int,
        ) by {
            assert(none_cheaper(g, origin as int, e, paths.dist[e] as int));
        }
        if best != UNREACHED {
            assert(reaches_at(g, origin as int, best_at, best as int));
        } else {
            lemma_maze_is_modest(cells);
            assert forall|e: int| #[trigger] is_end_state(cells, e) implies no_walk_to(
                g,
                origin as int,
                e,
            ) by {
                assert(paths.dist[e] == UNREACHED);
            }
        }
    }
    if best == UNREACHED {
        return (None, 0);
    }
    let mut targets: Vec<usize> = Vec::new();
    let mut e: usize = 0;
    while e < count
        invariant
            e <= count,
            count == state_count(cells),
            count == rows * cols * 4,
            rows == cells.len(),
            cols > 0,
            cols == width(cells),
            rectangular(cells, cols as int),
            cells == content_cells(*map),
            paths.dist.len() == count,
            dist == paths.dist@,
            best != UNREACHED,
            forall|t: int|
                0 <= t < targets.len() ==> (#[trigger] targets[t]) < count && is_end_state(
                    cells,
                    targets[t] as int,
                ) && dist[targets[t] as int] == best,
            forall|k: usize|
                k < e && is_end_state(cells, k as int) && dist[k as int] == best
                    ==> #[trigger] targets@.contains(k),
        decreases count - e,
    {
        let cell = e / 4;
        proof {
            lemma_cell_of_index(cell as int, rows as int, cols as int);
        }
        let here = content_at(map, cell / cols, cell % cols);
        if here == Some(MapContent::End) && paths.dist[e] == best {
            let ghost before = targets@;
            targets.push(e);
            proof {
                assert(targets@[before.len() as int] == e);
                assert forall|k: usize|
                    k < e + 1 && is_end_state(cells, k as int) && dist[k as int]
                        == best implies #[trigger] targets@.contains(k) by {
                    if k < e {
                        assert(before.contains(k));
                        let t = choose|t: int| 0 <= t < before.len() && before[t] == k;
                        assert(targets@[t] == k);
                    }
                }
            }
        }
        e += 1;
    }
    proof {
        assert forall|v: int, j: int|
            0 <= v < paths.preds.len() && 0 <= j < paths.preds[v].len() implies (
        #[trigger] paths.preds[v][j]) < paths.preds.len() by {
            assert(preds[v][j] < g.len());
        }
    }
    let marks = trace_back(&paths.preds, &targets);
    proof {
        assert forall|node: usize| node < count implies (#[trigger] marks[node as int]
            <==> on_walk_of_cost(cells, origin as int, best as int, node as int)) by {
            lemma_leads_iff_on_cheapest_walk(g, origin as int, dist, preds, targets@, node);
            if on_cheapest_walk(g, origin as int, dist, node as int, targets@) {
                let steps = choose|steps: Seq<int>|
                    #[trigger] cheapest_to_target(g, origin as int, dist, steps, targets@)
                        && passes(g, origin as int, steps, node as int);
                let last = walk_end(g, origin as int, steps) as usize;
                let t = choose|t: int| 0 <= t < targets@.len() && targets@[t] == last;
                assert(walk_ok(g, origin as int, steps));
            }
            if on_walk_of_cost(cells, origin as int, best as int, node as int) {
                let steps = choose|steps: Seq<int>|
                    #[trigger] walk_ok(g, origin as int, steps) && is_end_state(
                        cells,
                        walk_end(g, origin as int, steps),
                    ) && walk_cost(g, origin as int, steps) == best && passes(
                        g,
                        origin as int,
                        steps,
                        node as int,
                    );
                let last = walk_end(g, origin as int, steps);
                assert(none_cheaper(g, origin as int, last, dist[last] as int));
                assert(targets@.contains(last as usize));
                assert(cheapest_to_target(g, origin as int, dist, steps, targets@));
            }
        }
    }
    let cell_count = rows * cols;
    let mut found: usize = 0;
    let mut c: usize = 0;
    while c < cell_count
        invariant
            c <= cell_count,
            cell_count == rows * cols,
            count == cell_count * 4,
            marks.len() == count,
            found <= c,
            found == seats(cells, origin as int, best as int, c as int),
            forall|node: usize|
                node < count ==> (#[trigger] marks[node as int] <==> on_walk_of_cost(
                    cells,
                    origin as int,
                    best as int,
                    node as int,
                )),
        decreases cell_count - c,
    {
        if marks[c * 4] || marks[c * 4 + 1] || marks[c * 4 + 2] || marks[c * 4 + 3] {
            found += 1;
        }
        c += 1;
    }
    (Some(best), found)
}

} // verus!
