//! A memory space onto which bytes fall: the fewest steps from the corner
//! at the top left to the corner at the bottom right, around the cells that
//! a byte has made unsafe, and the first byte that cuts the way off.

use crate::grid::{
    byte_at, byte_cells, byte_columns, byte_filled, byte_put, byte_rows, cell_at,
    lemma_cell_of_index, lemma_index_of_cell, manhattan_distance, rectangular, step, step_spec,
    width, with_cell, Direction,
};
use crate::search::{
    closed_graph, cost_cap, edge_lists, modest, none_cheaper, reaches_at, search, no_walk_to,
    Edge, UNREACHED,
};
use array2d::Array2D;
use vstd::prelude::*;

verus! {

/// The order in which the moves out of a cell are listed: north, south,
/// west, east.
pub open spec fn move_order(k: int) -> Direction {
    if k == 0 {
        Direction::North
    } else if k == 1 {
        Direction::South
    } else if k == 2 {
        Direction::West
    } else {
        Direction::East
    }
}

/// The number of cells of the grid.
pub open spec fn cell_count(cells: Seq<Seq<u8>>) -> int {
    cells.len() * width(cells)
}

/// The move from cell number `k` in direction number `d`, where it leads to
/// a cell of the grid that is safe.
pub open spec fn move_to(cells: Seq<Seq<u8>>, k: int, d: int) -> Seq<Edge> {
    match step_spec(
        (k / width(cells), k % width(cells)),
        move_order(d),
        cells.len() as int,
        width(cells),
    ) {
        Some(q) => if cells[q.0][q.1] != 1 {
            seq![Edge { to: (q.0 * width(cells) + q.1) as usize, cost: 1 }]
        } else {
            seq![]
        },
        None => seq![],
    }
}

/// The moves out of cell number `k`, each one step long.
pub open spec fn moves(cells: Seq<Seq<u8>>, k: int) -> Seq<Edge> {
    move_to(cells, k, 0) + move_to(cells, k, 1) + move_to(cells, k, 2) + move_to(cells, k, 3)
}

/// The graph of the memory space: the moves out of every cell.
pub open spec fn space_graph(cells: Seq<Seq<u8>>) -> Seq<Seq<Edge>> {
    Seq::new(cell_count(cells) as nat, |k: int| moves(cells, k))
}

/// `best` is the smallest number of steps from `start` to `end`, or `None`
/// where no walk leads from `start` to `end`.
pub open spec fn fewest_steps(cells: Seq<Seq<u8>>, start: int, end: int, best: Option<u64>) -> bool {
    let g = space_graph(cells);
    match best {
        Some(c) => c < UNREACHED && reaches_at(g, start, end, c as int) && none_cheaper(
            g,
            start,
            end,
            c as int,
        ),
        None => no_walk_to(g, start, end),
    }
}

proof fn lemma_space_is_modest(cells: Seq<Seq<u8>>)
    requires
        0 <= cell_count(cells) <= isize::MAX,
    ensures
        modest(space_graph(cells)),
{
    let g = space_graph(cells);
    let n = g.len() as int;
    if n > 0 {
        assert((UNREACHED - 1) / n >= 1) by (nonlinear_arith)
            requires
                0 < n <= 0x7fff_ffff_ffff_ffff,
                UNREACHED == 18446744073709551615,
        ;
    }
    assert forall|u: int, k: int| 0 <= u < g.len() && 0 <= k < g[u].len() implies (
    #[trigger] g[u][k]).cost <= cost_cap(g) by {
        assert(g[u] == moves(cells, u));
        lemma_move_costs_one(cells, u, 0);
        lemma_move_costs_one(cells, u, 1);
        lemma_move_costs_one(cells, u, 2);
        lemma_move_costs_one(cells, u, 3);
    }
}

proof fn lemma_move_costs_one(cells: Seq<Seq<u8>>, u: int, d: int)
    ensures
        move_to(cells, u, d).len() <= 1,
        forall|i: int| 0 <= i < move_to(cells, u, d).len() ==> (#[trigger] move_to(cells, u, d)[i]).cost == 1,
{
}

fn try_move(k: usize) -> (d: Direction)
    requires
        k < 4,
    ensures
        d == move_order(k as int),
{
    if k == 0 {
        Direction::North
    } else if k == 1 {
        Direction::South
    } else if k == 2 {
        Direction::West
    } else {
        Direction::East
    }
}

/// The memory space as successor lists, one list for every cell.
pub fn build_graph(map: &Array2D<u8>) -> (graph: Vec<Vec<Edge>>)
    requires
        cell_count(byte_cells(*map)) <= usize::MAX,
    ensures
        edge_lists(graph@) == space_graph(byte_cells(*map)),
        closed_graph(space_graph(byte_cells(*map))),
        graph.len() == cell_count(byte_cells(*map)),
{
    let ghost cells = byte_cells(*map);
    let rows = byte_rows(map);
    let mut graph: Vec<Vec<Edge>> = Vec::new();
    if rows == 0 {
        assert(edge_lists(graph@) =~= space_graph(cells));
        return graph;
    }
    let cols = byte_columns(map);
    if cols == 0 {
        assert(cell_count(cells) == 0) by (nonlinear_arith)
            requires
                width(cells) == 0,
                cell_count(cells) == cells.len() * width(cells),
        ;
        assert(edge_lists(graph@) =~= space_graph(cells));
        return graph;
    }
    let count = rows * cols;
    let mut k: usize = 0;
    while k < count
        invariant
            k <= count,
            count == cell_count(cells),
            count == rows * cols,
            rows == cells.len(),
            cols == width(cells),
            cols > 0,
            rectangular(cells, cols as int),
            cells == byte_cells(*map),
            graph.len() == k,
            forall|t: int| 0 <= t < k ==> (#[trigger] graph[t])@ == moves(cells, t),
            forall|t: int, e: int|
                0 <= t < k && 0 <= e < graph[t].len() ==> (#[trigger] graph[t][e]).to < count,
        decreases count - k,
    {
        let r = k / cols;
        let c = k % cols;
        proof {
            lemma_cell_of_index(k as int, rows as int, cols as int);
        }
        let mut list: Vec<Edge> = Vec::new();
        let mut d: usize = 0;
        while d < 4
            invariant
                d <= 4,
                count == rows * cols,
                rows == cells.len(),
                cols == width(cells),
                cols > 0,
                r == k / cols,
                c == k % cols,
                r < rows,
                c < cols,
                rectangular(cells, cols as int),
                cells == byte_cells(*map),
                list@ == if d == 0 {
                    seq![]
                } else if d == 1 {
                    move_to(cells, k as int, 0)
                } else if d == 2 {
                    move_to(cells, k as int, 0) + move_to(cells, k as int, 1)
                } else if d == 3 {
                    move_to(cells, k as int, 0) + move_to(cells, k as int, 1) + move_to(
                        cells,
                        k as int,
                        2,
                    )
                } else {
                    moves(cells, k as int)
                },
                forall|e: int| 0 <= e < list.len() ==> (#[trigger] list[e]).to < count,
            decreases 4 - d,
        {
            let ghost before = list@;
            match step((r, c), try_move(d), rows, cols) {
                Some(q) => {
                    let there = byte_at(map, q.0, q.1);
                    assert(there == Some(cells[q.0 as int][q.1 as int]));
                    if there != Some(1) {
                        proof {
                            lemma_index_of_cell(q.0 as int, q.1 as int, rows as int, cols as int);
                        }
                        list.push(Edge { to: q.0 * cols + q.1, cost: 1 });
                    }
                },
                None => {},
            }
            assert(list@ =~= before + move_to(cells, k as int, d as int));
            d += 1;
        }
        graph.push(list);
        k += 1;
    }
    proof {
        assert(edge_lists(graph@) =~= space_graph(cells));
        assert forall|u: int, e: int|
            0 <= u < space_graph(cells).len() && 0 <= e < space_graph(cells)[u].len() implies (
        #[trigger] space_graph(cells)[u][e]).to < space_graph(cells).len() by {
            assert(graph[u][e].to < count);
        }
    }
    graph
}

/// The fewest steps from `start_location` to `end_location` over cells that
/// are safe; a cell that holds 1 is unsafe. The search prefers cells that
/// are close to the end by Manhattan distance.
pub fn explore(map: &Array2D<u8>, start_location: (usize, usize), end_location: (usize, usize)) -> (best: Option<
    u64,
>)
    requires
        cell_count(byte_cells(*map)) <= isize::MAX,
        cell_at(
            byte_cells(*map),
            start_location.0 as int,
            start_location.1 as int,
        ).is_some(),
        cell_at(byte_cells(*map), end_location.0 as int, end_location.1 as int).is_some(),
    ensures
        fewest_steps(
            byte_cells(*map),
            start_location.0 * width(byte_cells(*map)) + start_location.1,
            end_location.0 * width(byte_cells(*map)) + end_location.1,
            best,
        ),
{
    let ghost cells = byte_cells(*map);
    let graph = build_graph(map);
    let rows = byte_rows(map);
    let cols = byte_columns(map);
    let count = graph.len();
    proof {
        lemma_index_of_cell(
            start_location.0 as int,
            start_location.1 as int,
            rows as int,
            cols as int,
        );
        lemma_index_of_cell(end_location.0 as int, end_location.1 as int, rows as int, cols as int);
    }
    let origin = start_location.0 * cols + start_location.1;
    let target = end_location.0 * cols + end_location.1;
    let mut heuristic: Vec<u64> = Vec::new();
    let mut k: usize = 0;
    while k < count
        invariant
            k <= count,
            cols > 0,
            heuristic.len() == k,
        decreases count - k,
    {
        heuristic.push(manhattan_distance((k / cols, k % cols), end_location));
        k += 1;
    }
    let paths = search(&graph, origin, &heuristic);
    let best = paths.dist[target];
    proof {
        let g = space_graph(cells);
        assert(none_cheaper(g, origin as int, target as int, best as int));
        if best != UNREACHED {
            assert(reaches_at(g, origin as int, target as int, best as int));
        } else {
            lemma_space_is_modest(cells);
        }
    }
    if best == UNREACHED {
        None
    } else {
        Some(best)
    }
}

/// The largest row among the first `upto` places.
pub open spec fn last_row(coords: Seq<(usize, usize)>, upto: int) -> int
    decreases upto,
{
    if upto <= 0 {
        0
    } else if coords[upto - 1].0 > last_row(coords, upto - 1) {
        coords[upto - 1].0 as int
    } else {
        last_row(coords, upto - 1)
    }
}

/// The largest column among the first `upto` places.
pub open spec fn last_column(coords: Seq<(usize, usize)>, upto: int) -> int
    decreases upto,
{
    if upto <= 0 {
        0
    } else if coords[upto - 1].1 > last_column(coords, upto - 1) {
        coords[upto - 1].1 as int
    } else {
        last_column(coords, upto - 1)
    }
}

/// The memory space of `rows` by `columns` cells after the first `fallen`
/// bytes have fallen: a cell holds 1 where a byte fell and 0 elsewhere.
pub open spec fn space_after(
    coords: Seq<(usize, usize)>,
    rows: int,
    columns: int,
    fallen: int,
) -> Seq<Seq<u8>>
    decreases fallen,
{
    if fallen <= 0 {
        Seq::new(rows as nat, |r: int| Seq::new(columns as nat, |c: int| 0u8))
    } else {
        with_cell(
            space_after(coords, rows, columns, fallen - 1),
            coords[fallen - 1].0 as int,
            coords[fallen - 1].1 as int,
            1,
        )
    }
}

/// With the first `fallen` bytes fallen, no walk leads from the top left
/// corner to the bottom right corner.
pub open spec fn cut_off(coords: Seq<(usize, usize)>, fallen: int) -> bool {
    let rows = last_row(coords, coords.len() as int) + 1;
    let columns = last_column(coords, coords.len() as int) + 1;
    fewest_steps(space_after(coords, rows, columns, fallen), 0, rows * columns - 1, None)
}

proof fn lemma_last_in_range(coords: Seq<(usize, usize)>, upto: int)
    requires
        0 <= upto <= coords.len(),
    ensures
        0 <= last_row(coords, upto) <= usize::MAX,
        0 <= last_column(coords, upto) <= usize::MAX,
    decreases upto,
{
    if upto > 0 {
        lemma_last_in_range(coords, upto - 1);
    }
}

proof fn lemma_last_bounds(coords: Seq<(usize, usize)>, upto: int, k: int)
    requires
        0 <= k < upto <= coords.len(),
    ensures
        coords[k].0 <= last_row(coords, upto) <= usize::MAX,
        coords[k].1 <= last_column(coords, upto) <= usize::MAX,
    decreases upto,
{
    lemma_last_in_range(coords, upto);
    lemma_last_in_range(coords, upto - 1);
    if k < upto - 1 {
        lemma_last_bounds(coords, upto - 1, k);
    }
}

proof fn lemma_space_shape(coords: Seq<(usize, usize)>, rows: int, columns: int, fallen: int)
    requires
        0 <= fallen <= coords.len(),
        0 < rows,
        0 < columns,
        forall|k: int| 0 <= k < coords.len() ==> (#[trigger] coords[k]).0 < rows && coords[k].1 < columns,
    ensures
        space_after(coords, rows, columns, fallen).len() == rows,
        rectangular(space_after(coords, rows, columns, fallen), columns),
        width(space_after(coords, rows, columns, fallen)) == columns,
    decreases fallen,
{
    if fallen > 0 {
        lemma_space_shape(coords, rows, columns, fallen - 1);
        let before = space_after(coords, rows, columns, fallen - 1);
        let after = space_after(coords, rows, columns, fallen);
        assert forall|r: int| 0 <= r < after.len() implies (#[trigger] after[r]).len() == columns by {
            assert(before[r].len() == columns);
        }
    }
}

/// The number of the first byte, not counting the first `already` bytes,
/// that cuts the bottom right corner off from the top left corner: with
/// the bytes up to and including it fallen there is no way, and with every
/// byte before it, from number `already` on, there still is one. The space
/// reaches to the largest row and the largest column of any byte.
pub fn first_cut(coords: &Vec<(usize, usize)>, already: usize) -> (index: Option<usize>)
    requires
        (last_row(coords@, coords.len() as int) + 1) * (last_column(coords@, coords.len() as int)
            + 1) <= isize::MAX,
    ensures
        match index {
            Some(i) => {
                &&& already <= i < coords.len()
                &&& cut_off(coords@, i + 1)
                &&& forall|j: int| already <= j < i ==> !#[trigger] cut_off(coords@, j + 1)
            },
            None => forall|j: int|
                already <= j < coords.len() ==> !#[trigger] cut_off(coords@, j + 1),
        },
{
    if coords.len() == 0 {
        return None;
    }
    let mut max_row: usize = 0;
    let mut max_col: usize = 0;
    let mut k: usize = 0;
    while k < coords.len()
        invariant
            k <= coords.len(),
            max_row == last_row(coords@, k as int),
            max_col == last_column(coords@, k as int),
        decreases coords.len() - k,
    {
        if coords[k].0 > max_row {
            max_row = coords[k].0;
        }
        if coords[k].1 > max_col {
            max_col = coords[k].1;
        }
        k += 1;
    }
    assert(max_row + 1 <= (max_row + 1) * (max_col + 1) && max_col + 1 <= (max_row + 1) * (max_col
        + 1)) by (nonlinear_arith)
        requires
            max_row >= 0,
            max_col >= 0,
    ;
    let rows = max_row + 1;
    let cols = max_col + 1;
    let ghost all = coords@;
    proof {
        assert forall|j: int| 0 <= j < all.len() implies (#[trigger] all[j]).0 < rows && all[j].1
            < cols by {
            lemma_last_bounds(all, all.len() as int, j);
        }
    }
    let mut map = byte_filled(0, rows, cols);
    let end = (max_row, max_col);
    let mut n: usize = 0;
    while n < coords.len()
        invariant
            n <= coords.len(),
            all == coords@,
            rows == last_row(all, all.len() as int) + 1,
            cols == last_column(all, all.len() as int) + 1,
            end == (max_row, max_col),
            rows == max_row + 1,
            cols == max_col + 1,
            rows * cols <= isize::MAX,
            forall|j: int| 0 <= j < all.len() ==> (#[trigger] all[j]).0 < rows && all[j].1 < cols,
            byte_cells(map) == space_after(all, rows as int, cols as int, n as int),
            forall|j: int| already <= j < n ==> !#[trigger] cut_off(all, j + 1),
        decreases coords.len() - n,
    {
        proof {
            lemma_space_shape(all, rows as int, cols as int, n as int);
            lemma_space_shape(all, rows as int, cols as int, n + 1);
        }
        assert(cell_at(byte_cells(map), coords[n as int].0 as int, coords[n as int].1 as int).is_some());
        byte_put(&mut map, coords[n].0, coords[n].1, 1);
        assert(byte_cells(map) == space_after(all, rows as int, cols as int, n + 1));
        if n >= already {
            let ghost cells = byte_cells(map);
            assert(width(cells) == cols);
            assert(cells.len() == rows);
            assert(cell_at(cells, 0, 0).is_some());
            assert(cell_at(cells, max_row as int, max_col as int).is_some());
            assert(rows * cols - 1 == max_row * cols + max_col) by (nonlinear_arith)
                requires
                    rows == max_row + 1,
                    cols == max_col + 1,
            ;
            let best = explore(&map, (0, 0), end);
            assert(end.0 * width(cells) + end.1 == rows * cols - 1);
            assert(0 * width(cells) + 0 == 0);
            assert(fewest_steps(cells, 0 * width(cells) + 0, end.0 * width(cells) + end.1, best));
            assert(fewest_steps(cells, 0, rows * cols - 1, best));
            match best {
                None => {
                    assert(cut_off(all, n + 1));
                    return Some(n);
                },
                Some(c) => {
                    assert(!cut_off(all, n + 1)) by {
                        let g = crate::memory::space_graph(cells);
                        assert(reaches_at(g, 0, rows * cols - 1, c as int));
                    }
                },
            }
        }
        n += 1;
    }
    None
}

} // verus!
