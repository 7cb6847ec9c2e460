//! Regions of a garden: maximal sets of cells with the same label that hang
//! together through orthogonal steps, priced by area times fence length or
//! by area times the number of straight fence sides.
//!
//! Cells are numbered row by row. Which cells hang together is computed by
//! `petgraph`; what is then priced is verified for every list of parts.

use crate::arith::{fits, one_if};
use crate::grid::{
    cell_at, char_at, char_cells, char_columns, char_rows, lemma_cell_of_index,
    lemma_index_of_cell, rectangular, width,
};
use array2d::Array2D;
use petgraph::algo::kosaraju_scc;
use petgraph::graph::{Graph, NodeIndex};
use petgraph::Undirected;
use vstd::arithmetic::overflow::CheckedU64;
use vstd::prelude::*;

verus! {

/// The parts of a division of the cells as sequences.
pub open spec fn part_lists(parts: Seq<Vec<usize>>) -> Seq<Seq<usize>> {
    parts.map_values(|part: Vec<usize>| part@)
}

/// The numbers `0, 1, ..` below `nodes`.
pub open spec fn node_numbers(nodes: nat) -> Seq<usize> {
    Seq::new(nodes, |i: int| i as usize)
}

/// The parts hold numbers below `nodes` only, and together they hold every
/// such number exactly once.
pub open spec fn partitions(parts: Seq<Seq<usize>>, nodes: nat) -> bool {
    &&& forall|p: int, j: int|
        0 <= p < parts.len() && 0 <= j < parts[p].len() ==> (#[trigger] parts[p][j]) < nodes
    &&& parts.flatten().to_multiset() == node_numbers(nodes).to_multiset()
}

/// Some part holds both `a` and `b`.
pub open spec fn together(parts: Seq<Seq<usize>>, a: usize, b: usize) -> bool {
    exists|p: int| 0 <= p < parts.len() && (#[trigger] parts[p]).contains(a) && parts[p].contains(b)
}

/// The two ends of every edge lie in one part.
pub open spec fn keeps_edges_together(parts: Seq<Seq<usize>>, edges: Seq<(usize, usize)>) -> bool {
    forall|e: int|
        0 <= e < edges.len() ==> together(parts, (#[trigger] edges[e]).0, edges[e].1)
}

/// Some edge joins `a` and `b`, in either direction.
pub open spec fn joined(edges: Seq<(usize, usize)>, a: usize, b: usize) -> bool {
    exists|e: int| 0 <= e < edges.len() && (#[trigger] edges[e] == (a, b) || edges[e] == (b, a))
}

/// The chain is a list of nodes in which an edge joins every node to the
/// next.
pub open spec fn chained(edges: Seq<(usize, usize)>, chain: Seq<usize>) -> bool {
    chain.len() >= 1 && forall|i: int|
        0 <= i < chain.len() - 1 ==> joined(edges, #[trigger] chain[i], chain[i + 1])
}

/// Any two nodes of a part are joined by a chain of edges.
pub open spec fn hang_together(parts: Seq<Seq<usize>>, edges: Seq<(usize, usize)>) -> bool {
    forall|p: int, i: int, j: int|
        0 <= p < parts.len() && 0 <= i < parts[p].len() && 0 <= j < parts[p].len() ==> exists|
            chain: Seq<usize>,
        |
            #[trigger] chained(edges, chain) && chain[0] == (#[trigger] parts[p][i])
                && chain.last() == #[trigger] parts[p][j]
}

/// The largest number of cells of a grid whose regions are computed: the
/// graph of a larger grid would not fit into memory.
pub const MOST_CELLS: usize = 0xff_ffff;

/// The connected components that `petgraph` finds in the undirected graph
/// with the nodes `0, 1, ..` below `nodes` and the given edges, as lists of
/// node numbers in the order in which it returns them.
pub uninterp spec fn component_lists(nodes: nat, edges: Seq<(usize, usize)>) -> Seq<Seq<usize>>;

/// `petgraph::algo::kosaraju_scc` on an undirected `petgraph::graph::Graph`
/// built with `add_node` and `add_edge`. Believed of it: the components are
/// a function of the node count and the edge list; every node lies in
/// exactly one component; the two ends of an edge lie in the same one; and
/// any two nodes of a component are joined by a chain of edges.
/// The bounds on nodes and edges keep the graph within what its vectors
/// can hold.
#[verifier::external_body]
fn connected_components(nodes: usize, edges: &Vec<(usize, usize)>) -> (parts: Vec<Vec<usize>>)
    requires
        nodes <= MOST_CELLS,
        edges.len() <= 2 * MOST_CELLS,
        forall|e: int| 0 <= e < edges.len() ==> (#[trigger] edges[e]).0 < nodes && edges[e].1 < nodes,
    ensures
        part_lists(parts@) == component_lists(nodes as nat, edges@),
        partitions(part_lists(parts@), nodes as nat),
        keeps_edges_together(part_lists(parts@), edges@),
        hang_together(part_lists(parts@), edges@),
{
    let mut graph: Graph<(), (), Undirected, usize> = Graph::default();
    for _ in 0..nodes {
        graph.add_node(());
    }
    for edge in edges.iter() {
        graph.add_edge(NodeIndex::new(edge.0), NodeIndex::new(edge.1), ());
    }
    kosaraju_scc(&graph).into_iter().map(|part| part.into_iter().map(|n| n.index()).collect()).collect()
}

/// The cell at `(row2, column2)` exists and has the label of `(row, column)`.
pub open spec fn same_label(cells: Seq<Seq<char>>, row: int, column: int, row2: int, column2: int) -> bool {
    cell_at(cells, row, column).is_some() && cell_at(cells, row2, column2) == cell_at(
        cells,
        row,
        column,
    )
}

/// The row of cell number `k`.
pub open spec fn row_of(cells: Seq<Seq<char>>, k: int) -> int {
    k / width(cells)
}

/// The column of cell number `k`.
pub open spec fn column_of(cells: Seq<Seq<char>>, k: int) -> int {
    k % width(cells)
}

/// The number of cells of the grid.
pub open spec fn cell_count(cells: Seq<Seq<char>>) -> int {
    cells.len() * width(cells)
}

/// The edges that cell `k` adds: one to the cell above and one to the cell
/// to its left, where that cell has the same label.
pub open spec fn cell_edges(cells: Seq<Seq<char>>, k: int) -> Seq<(usize, usize)> {
    let r = row_of(cells, k);
    let c = column_of(cells, k);
    let up = if same_label(cells, r, c, r - 1, c) {
        seq![((k - width(cells)) as usize, k as usize)]
    } else {
        seq![]
    };
    let left = if same_label(cells, r, c, r, c - 1) {
        seq![((k - 1) as usize, k as usize)]
    } else {
        seq![]
    };
    up + left
}

/// The edges between orthogonal neighbours with the same label, for the
/// cells below number `upto`.
pub open spec fn adjacency(cells: Seq<Seq<char>>, upto: int) -> Seq<(usize, usize)>
    decreases upto,
{
    if upto <= 0 {
        seq![]
    } else {
        adjacency(cells, upto - 1) + cell_edges(cells, upto - 1)
    }
}

/// The regions of the grid, as `petgraph` returns them.
pub open spec fn regions(cells: Seq<Seq<char>>) -> Seq<Seq<usize>> {
    component_lists(cell_count(cells) as nat, adjacency(cells, cell_count(cells)))
}

/// The number of orthogonal neighbours of cell `k` that have its label.
pub open spec fn like_neighbours(cells: Seq<Seq<char>>, k: int) -> int {
    let r = row_of(cells, k);
    let c = column_of(cells, k);
    one_if(same_label(cells, r, c, r - 1, c)) + one_if(same_label(cells, r, c, r + 1, c)) + one_if(
        same_label(cells, r, c, r, c - 1),
    ) + one_if(same_label(cells, r, c, r, c + 1))
}

/// The fence around the cells of a part: each cell needs a piece on every
/// side where no neighbour has its label.
pub open spec fn fence(cells: Seq<Seq<char>>, part: Seq<usize>) -> int
    decreases part.len(),
{
    if part.len() == 0 {
        0
    } else {
        fence(cells, part.drop_last()) + 4 - like_neighbours(cells, part.last() as int)
    }
}

/// Whether cell `(r, c)` has a corner of its region towards the diagonal
/// `(dr, dc)`: an outer corner where neither orthogonal neighbour on that
/// side has its label, an inner corner where both have it and the diagonal
/// neighbour has not.
pub open spec fn corner(cells: Seq<Seq<char>>, r: int, c: int, dr: int, dc: int) -> bool {
    let beside_row = same_label(cells, r, c, r + dr, c);
    let beside_column = same_label(cells, r, c, r, c + dc);
    let across = same_label(cells, r, c, r + dr, c + dc);
    (!beside_row && !beside_column) || (beside_row && beside_column && !across)
}

/// The number of corners that cell `k` has.
pub open spec fn corners(cells: Seq<Seq<char>>, k: int) -> int {
    let r = row_of(cells, k);
    let c = column_of(cells, k);
    one_if(corner(cells, r, c, -1, -1)) + one_if(corner(cells, r, c, -1, 1)) + one_if(
        corner(cells, r, c, 1, -1),
    ) + one_if(corner(cells, r, c, 1, 1))
}

/// The number of straight sides of the fence of a part, counted as the
/// corners of its cells.
pub open spec fn sides(cells: Seq<Seq<char>>, part: Seq<usize>) -> int
    decreases part.len(),
{
    if part.len() == 0 {
        0
    } else {
        sides(cells, part.drop_last()) + corners(cells, part.last() as int)
    }
}

/// The sum over the parts of area times fence length.
pub open spec fn fence_price(cells: Seq<Seq<char>>, parts: Seq<Seq<usize>>) -> int
    decreases parts.len(),
{
    if parts.len() == 0 {
        0
    } else {
        fence_price(cells, parts.drop_last()) + parts.last().len() * fence(cells, parts.last())
    }
}

/// The sum over the parts of area times number of sides.
pub open spec fn side_price(cells: Seq<Seq<char>>, parts: Seq<Seq<usize>>) -> int
    decreases parts.len(),
{
    if parts.len() == 0 {
        0
    } else {
        side_price(cells, parts.drop_last()) + parts.last().len() * sides(cells, parts.last())
    }
}

/// The sum of the areas of the parts.
pub open spec fn total_area(parts: Seq<Seq<usize>>) -> int
    decreases parts.len(),
{
    if parts.len() == 0 {
        0
    } else {
        total_area(parts.drop_last()) + parts.last().len()
    }
}

proof fn lemma_area_is_flat_length(parts: Seq<Seq<usize>>)
    ensures
        total_area(parts) == parts.flatten_alt().len(),
    decreases parts.len(),
{
    if parts.len() > 0 {
        lemma_area_is_flat_length(parts.drop_last());
    }
}

/// The areas of the parts of a division of the cells add up to the number
/// of cells.
pub proof fn lemma_areas_cover_grid(parts: Seq<Seq<usize>>, nodes: nat)
    requires
        partitions(parts, nodes),
    ensures
        total_area(parts) == nodes,
{
    lemma_area_is_flat_length(parts);
    parts.lemma_flatten_and_flatten_alt_are_equivalent();
    vstd::seq_lib::to_multiset_len(parts.flatten());
    vstd::seq_lib::to_multiset_len(node_numbers(nodes));
}

/// The areas of the regions of a grid add up to its rows times its columns.
pub proof fn lemma_region_areas(cells: Seq<Seq<char>>)
    requires
        partitions(regions(cells), cell_count(cells) as nat),
    ensures
        total_area(regions(cells)) == cells.len() * width(cells),
{
    lemma_areas_cover_grid(regions(cells), cell_count(cells) as nat);
    assert(cells.len() * width(cells) >= 0) by (nonlinear_arith)
        requires
            cells.len() >= 0,
            width(cells) >= 0,
    ;
}

/// The cell reached from `(r, c)` by `dr` rows and `dc` columns.
fn neighbour(map: &Array2D<char>, r: usize, c: usize, dr: i8, dc: i8) -> (cell: Option<char>)
    requires
        -1 <= dr <= 1,
        -1 <= dc <= 1,
    ensures
        cell == cell_at(char_cells(*map), r + dr, c + dc),
{
    let rows = char_rows(map);
    let cols = char_columns(map);
    if (dr < 0 && r == 0) || (dr > 0 && r >= rows) || (dc < 0 && c == 0) || (dc > 0 && c
        == usize::MAX) {
        return None;
    }
    let r2: usize = if dr < 0 {
        r - 1
    } else if dr > 0 {
        r + 1
    } else {
        r
    };
    let c2: usize = if dc < 0 {
        c - 1
    } else if dc > 0 {
        c + 1
    } else {
        c
    };
    if r2 < rows && c2 >= cols {
        return None;
    }
    char_at(map, r2, c2)
}

/// Whether the neighbour of `(r, c)` at the given offset has its label.
fn is_same(map: &Array2D<char>, r: usize, c: usize, dr: i8, dc: i8) -> (same: bool)
    requires
        -1 <= dr <= 1,
        -1 <= dc <= 1,
    ensures
        same == same_label(char_cells(*map), r as int, c as int, r + dr, c + dc),
{
    let here = char_at(map, r, c);
    let there = neighbour(map, r, c, dr, dc);
    match (here, there) {
        (Some(a), Some(b)) => a == b,
        _ => false,
    }
}

fn has_corner(map: &Array2D<char>, r: usize, c: usize, dr: i8, dc: i8) -> (found: bool)
    requires
        dr == 1 || dr == -1,
        dc == 1 || dc == -1,
    ensures
        found == corner(char_cells(*map), r as int, c as int, dr as int, dc as int),
{
    let beside_row = is_same(map, r, c, dr, 0);
    let beside_column = is_same(map, r, c, 0, dc);
    let across = is_same(map, r, c, dr, dc);
    (!beside_row && !beside_column) || (beside_row && beside_column && !across)
}

/// The columns of the grid as the cell numbering sees them.
fn columns(map: &Array2D<char>) -> (cols: usize)
    ensures
        cols == width(char_cells(*map)),
        rectangular(char_cells(*map), cols as int),
{
    if char_rows(map) == 0 {
        0
    } else {
        char_columns(map)
    }
}

/// The number of pieces of fence that cell `k` needs.
fn cell_fence(map: &Array2D<char>, k: usize) -> (pieces: u64)
    requires
        width(char_cells(*map)) > 0,
    ensures
        pieces == 4 - like_neighbours(char_cells(*map), k as int),
{
    let cols = columns(map);
    let r = k / cols;
    let c = k % cols;
    let mut pieces: u64 = 4;
    if is_same(map, r, c, -1, 0) {
        pieces -= 1;
    }
    if is_same(map, r, c, 1, 0) {
        pieces -= 1;
    }
    if is_same(map, r, c, 0, -1) {
        pieces -= 1;
    }
    if is_same(map, r, c, 0, 1) {
        pieces -= 1;
    }
    pieces
}

/// The number of corners of cell `k`.
fn cell_corners(map: &Array2D<char>, k: usize) -> (count: u64)
    requires
        width(char_cells(*map)) > 0,
    ensures
        count == corners(char_cells(*map), k as int),
{
    let cols = columns(map);
    let r = k / cols;
    let c = k % cols;
    let mut count: u64 = 0;
    if has_corner(map, r, c, -1, -1) {
        count += 1;
    }
    if has_corner(map, r, c, -1, 1) {
        count += 1;
    }
    if has_corner(map, r, c, 1, -1) {
        count += 1;
    }
    if has_corner(map, r, c, 1, 1) {
        count += 1;
    }
    count
}

/// The price of fencing the given parts of the grid: the sum over the parts
/// of the number of cells times the pieces of fence its cells need, or
/// `None` where that does not fit in 64 bits.
pub fn price_by_fence(map: &Array2D<char>, parts: &Vec<Vec<usize>>) -> (price: Option<u64>)
    requires
        width(char_cells(*map)) > 0,
    ensures
        fits(price, fence_price(char_cells(*map), part_lists(parts@))),
{
    let ghost cells = char_cells(*map);
    let ghost lists = part_lists(parts@);
    let mut price = CheckedU64::new(0);
    let mut p: usize = 0;
    while p < parts.len()
        invariant
            p <= parts.len(),
            cells == char_cells(*map),
            width(cells) > 0,
            lists == part_lists(parts@),
            price@ == fence_price(cells, lists.take(p as int)),
        decreases parts.len() - p,
    {
        let part = &parts[p];
        let mut length = CheckedU64::new(0);
        let mut j: usize = 0;
        while j < part.len()
            invariant
                j <= part.len(),
                cells == char_cells(*map),
                width(cells) > 0,
                length@ == fence(cells, part@.take(j as int)),
            decreases part.len() - j,
        {
            assert(part@.take(j + 1).drop_last() =~= part@.take(j as int));
            length = length.add_value(cell_fence(map, part[j]));
            j += 1;
        }
        assert(part@.take(part.len() as int) =~= part@);
        assert(lists.take(p + 1).drop_last() =~= lists.take(p as int));
        assert(lists.take(p + 1).last() == part@);
        price = price.add_checked(&length.mul_value(part.len() as u64));
        assert(price@ == fence_price(cells, lists.take(p + 1))) by (nonlinear_arith)
            requires
                price@ == fence_price(cells, lists.take(p as int)) + fence(cells, part@)
                    * part@.len(),
                fence_price(cells, lists.take(p + 1)) == fence_price(cells, lists.take(p as int))
                    + part@.len() * fence(cells, part@),
        ;
        p += 1;
    }
    assert(lists.take(parts.len() as int) =~= lists);
    price.to_option()
}

/// The price of fencing the given parts by sides: the sum over the parts of
/// the number of cells times the corners of its cells, or `None` where that
/// does not fit in 64 bits.
pub fn price_by_sides(map: &Array2D<char>, parts: &Vec<Vec<usize>>) -> (price: Option<u64>)
    requires
        width(char_cells(*map)) > 0,
    ensures
        fits(price, side_price(char_cells(*map), part_lists(parts@))),
{
    let ghost cells = char_cells(*map);
    let ghost lists = part_lists(parts@);
    let mut price = CheckedU64::new(0);
    let mut p: usize = 0;
    while p < parts.len()
        invariant
            p <= parts.len(),
            cells == char_cells(*map),
            width(cells) > 0,
            lists == part_lists(parts@),
            price@ == side_price(cells, lists.take(p as int)),
        decreases parts.len() - p,
    {
        let part = &parts[p];
        let mut count = CheckedU64::new(0);
        let mut j: usize = 0;
        while j < part.len()
            invariant
                j <= part.len(),
                cells == char_cells(*map),
                width(cells) > 0,
                count@ == sides(cells, part@.take(j as int)),
            decreases part.len() - j,
        {
            assert(part@.take(j + 1).drop_last() =~= part@.take(j as int));
            count = count.add_value(cell_corners(map, part[j]));
            j += 1;
        }
        assert(part@.take(part.len() as int) =~= part@);
        assert(lists.take(p + 1).drop_last() =~= lists.take(p as int));
        assert(lists.take(p + 1).last() == part@);
        price = price.add_checked(&count.mul_value(part.len() as u64));
        assert(price@ == side_price(cells, lists.take(p + 1))) by (nonlinear_arith)
            requires
                price@ == side_price(cells, lists.take(p as int)) + sides(cells, part@)
                    * part@.len(),
                side_price(cells, lists.take(p + 1)) == side_price(cells, lists.take(p as int))
                    + part@.len() * sides(cells, part@),
        ;
        p += 1;
    }
    assert(lists.take(parts.len() as int) =~= lists);
    price.to_option()
}

/// The edges between orthogonal neighbours with the same label.
pub fn same_label_edges(map: &Array2D<char>) -> (edges: Vec<(usize, usize)>)
    requires
        cell_count(char_cells(*map)) <= usize::MAX,
    ensures
        edges@ == adjacency(char_cells(*map), cell_count(char_cells(*map))),
        edges.len() <= 2 * cell_count(char_cells(*map)),
        forall|e: int|
            0 <= e < edges.len() ==> (#[trigger] edges[e]).0 < cell_count(char_cells(*map))
                && edges[e].1 < cell_count(char_cells(*map)),
{
    let ghost cells = char_cells(*map);
    let rows = char_rows(map);
    let cols = columns(map);
    let mut edges: Vec<(usize, usize)> = Vec::new();
    if cols == 0 {
        assert(cell_count(cells) == 0) by (nonlinear_arith)
            requires
                width(cells) == 0,
                cell_count(cells) == cells.len() * width(cells),
        ;
        return edges;
    }
    let count = rows * cols;
    let mut k: usize = 0;
    while k < count
        invariant
            k <= count,
            count == cell_count(cells),
            rows == cells.len(),
            cols == width(cells),
            cols > 0,
            rectangular(cells, cols as int),
            cells == char_cells(*map),
            edges@ == adjacency(cells, k as int),
            edges.len() <= 2 * k,
            forall|e: int| 0 <= e < edges.len() ==> (#[trigger] edges[e]).0 < count && edges[e].1 < count,
        decreases count - k,
    {
        let r = k / cols;
        let c = k % cols;
        proof {
            lemma_cell_of_index(k as int, rows as int, cols as int);
        }
        let ghost before = edges@;
        if is_same(map, r, c, -1, 0) {
            assert(k >= cols) by (nonlinear_arith)
                requires
                    r >= 1,
                    r * cols + c == k,
                    cols > 0,
            ;
            edges.push((k - cols, k));
        }
        if is_same(map, r, c, 0, -1) {
            edges.push((k - 1, k));
        }
        assert(edges@ =~= before + cell_edges(cells, k as int));
        k += 1;
    }
    edges
}

/// The total price of fencing all regions of the garden, each at its area
/// times the length of its fence; `None` where the price does not fit in 64
/// bits.
pub fn part1(map: &Array2D<char>) -> (price: Option<u64>)
    requires
        cell_count(char_cells(*map)) <= MOST_CELLS,
    ensures
        fits(price, fence_price(char_cells(*map), regions(char_cells(*map)))),
        partitions(regions(char_cells(*map)), cell_count(char_cells(*map)) as nat),
        keeps_edges_together(
            regions(char_cells(*map)),
            adjacency(char_cells(*map), cell_count(char_cells(*map))),
        ),
        hang_together(
            regions(char_cells(*map)),
            adjacency(char_cells(*map), cell_count(char_cells(*map))),
        ),
{
    let ghost cells = char_cells(*map);
    let rows = char_rows(map);
    let cols = columns(map);
    assert(rows * cols >= 0) by (nonlinear_arith)
        requires
            rows >= 0,
            cols >= 0,
    ;
    let edges = same_label_edges(map);
    let parts = connected_components(rows * cols, &edges);
    if cols == 0 {
        proof {
            lemma_areas_cover_grid(part_lists(parts@), 0);
            lemma_no_area_no_price(cells, part_lists(parts@));
        }
        return Some(0);
    }
    price_by_fence(map, &parts)
}

/// The total price of fencing all regions of the garden, each at its area
/// times the number of straight sides of its fence; `None` where the price
/// does not fit in 64 bits.
pub fn part2(map: &Array2D<char>) -> (price: Option<u64>)
    requires
        cell_count(char_cells(*map)) <= MOST_CELLS,
    ensures
        fits(price, side_price(char_cells(*map), regions(char_cells(*map)))),
        partitions(regions(char_cells(*map)), cell_count(char_cells(*map)) as nat),
        keeps_edges_together(
            regions(char_cells(*map)),
            adjacency(char_cells(*map), cell_count(char_cells(*map))),
        ),
        hang_together(
            regions(char_cells(*map)),
            adjacency(char_cells(*map), cell_count(char_cells(*map))),
        ),
{
    let ghost cells = char_cells(*map);
    let rows = char_rows(map);
    let cols = columns(map);
    assert(rows * cols >= 0) by (nonlinear_arith)
        requires
            rows >= 0,
            cols >= 0,
    ;
    let edges = same_label_edges(map);
    let parts = connected_components(rows * cols, &edges);
    if cols == 0 {
        proof {
            lemma_areas_cover_grid(part_lists(parts@), 0);
            lemma_no_area_no_price(cells, part_lists(parts@));
        }
        return Some(0);
    }
    price_by_sides(map, &parts)
}

/// Parts without cells cost nothing.
proof fn lemma_no_area_no_price(cells: Seq<Seq<char>>, parts: Seq<Seq<usize>>)
    requires
        total_area(parts) == 0,
    ensures
        fence_price(cells, parts) == 0,
        side_price(cells, parts) == 0,
    decreases parts.len(),
{
    if parts.len() > 0 {
        lemma_area_nonnegative(parts.drop_last());
        lemma_no_area_no_price(cells, parts.drop_last());
        assert(parts.last().len() == 0);
    }
}

proof fn lemma_area_nonnegative(parts: Seq<Seq<usize>>)
    ensures
        total_area(parts) >= 0,
    decreases parts.len(),
{
    if parts.len() > 0 {
        lemma_area_nonnegative(parts.drop_last());
    }
}

/// How many of its two ends the edge has at node `k`.
pub open spec fn touches(edge: (usize, usize), k: int) -> int {
    one_if(edge.0 == k) + one_if(edge.1 == k)
}

/// The number of ends that the edges have at node `k`.
pub open spec fn incident(edges: Seq<(usize, usize)>, k: int) -> int
    decreases edges.len(),
{
    if edges.len() == 0 {
        0
    } else {
        incident(edges.drop_last(), k) + touches(edges.last(), k)
    }
}

/// The number of edges that have both ends in the part.
pub open spec fn inner_edges(edges: Seq<(usize, usize)>, part: Seq<usize>) -> int
    decreases edges.len(),
{
    if edges.len() == 0 {
        0
    } else {
        inner_edges(edges.drop_last(), part) + one_if(
            part.contains(edges.last().0) && part.contains(edges.last().1),
        )
    }
}

/// The number of ends that the edges have in the part.
pub open spec fn ends_inside(edges: Seq<(usize, usize)>, part: Seq<usize>) -> int
    decreases edges.len(),
{
    if edges.len() == 0 {
        0
    } else {
        ends_inside(edges.drop_last(), part) + one_if(part.contains(edges.last().0)) + one_if(
            part.contains(edges.last().1),
        )
    }
}

/// The sum over the nodes of the part of the ends that the edges have
/// there.
pub open spec fn degree_sum(edges: Seq<(usize, usize)>, part: Seq<usize>) -> int
    decreases part.len(),
{
    if part.len() == 0 {
        0
    } else {
        degree_sum(edges, part.drop_last()) + incident(edges, part.last() as int)
    }
}

/// The sum over the cells of the part of their neighbours with the same
/// label.
pub open spec fn like_sum(cells: Seq<Seq<char>>, part: Seq<usize>) -> int
    decreases part.len(),
{
    if part.len() == 0 {
        0
    } else {
        like_sum(cells, part.drop_last()) + like_neighbours(cells, part.last() as int)
    }
}

/// No edge leads out of the part.
pub open spec fn closed_part(edges: Seq<(usize, usize)>, part: Seq<usize>) -> bool {
    forall|i: int|
        0 <= i < edges.len() ==> part.contains((#[trigger] edges[i]).0) == part.contains(
            edges[i].1,
        )
}

proof fn lemma_fence_by_likes(cells: Seq<Seq<char>>, part: Seq<usize>)
    ensures
        fence(cells, part) == 4 * part.len() - like_sum(cells, part),
    decreases part.len(),
{
    if part.len() > 0 {
        lemma_fence_by_likes(cells, part.drop_last());
    }
}

proof fn lemma_incident_concat(a: Seq<(usize, usize)>, b: Seq<(usize, usize)>, k: int)
    ensures
        incident(a + b, k) == incident(a, k) + incident(b, k),
    decreases b.len(),
{
    if b.len() == 0 {
        assert(a + b =~= a);
    } else {
        assert((a + b).drop_last() =~= a + b.drop_last());
        assert((a + b).last() == b.last());
        lemma_incident_concat(a, b.drop_last(), k);
    }
}

/// 1 where cell `j` has the label of the cell above it.
pub open spec fn joins_up(cells: Seq<Seq<char>>, j: int) -> int {
    one_if(same_label(cells, row_of(cells, j), column_of(cells, j), row_of(cells, j) - 1, column_of(cells, j)))
}

/// 1 where cell `j` has the label of the cell to its left.
pub open spec fn joins_left(cells: Seq<Seq<char>>, j: int) -> int {
    one_if(same_label(cells, row_of(cells, j), column_of(cells, j), row_of(cells, j), column_of(cells, j) - 1))
}

proof fn lemma_cell_edges_touch(cells: Seq<Seq<char>>, j: int, k: int)
    requires
        width(cells) > 0,
        rectangular(cells, width(cells)),
        0 <= j < cell_count(cells),
        cell_count(cells) <= usize::MAX,
        0 <= k,
    ensures
        incident(cell_edges(cells, j), k) == (if j == k {
            joins_up(cells, j) + joins_left(cells, j)
        } else {
            0
        }) + (if j == k + width(cells) {
            joins_up(cells, j)
        } else {
            0
        }) + (if j == k + 1 {
            joins_left(cells, j)
        } else {
            0
        }),
{
    let w = width(cells);
    let r = row_of(cells, j);
    let c = column_of(cells, j);
    lemma_cell_of_index(j, cells.len() as int, w);
    let up: Seq<(usize, usize)> = if same_label(cells, r, c, r - 1, c) {
        seq![((j - w) as usize, j as usize)]
    } else {
        seq![]
    };
    let left: Seq<(usize, usize)> = if same_label(cells, r, c, r, c - 1) {
        seq![((j - 1) as usize, j as usize)]
    } else {
        seq![]
    };
    lemma_incident_concat(up, left, k);
    assert(cell_edges(cells, j) == up + left);
    assert(r * w + c == j);
    if same_label(cells, r, c, r - 1, c) {
        assert(r >= 1);
        assert(j >= w) by (nonlinear_arith)
            requires
                r >= 1,
                r * w + c == j,
                c >= 0,
                w > 0,
        ;
        assert(up.drop_last() =~= Seq::<(usize, usize)>::empty());
        assert(incident(up.drop_last(), k) == 0);
        assert(up.last() == ((j - w) as usize, j as usize));
        assert(incident(up, k) == one_if(j - w == k) + one_if(j == k));
    } else {
        assert(incident(up, k) == 0);
    }
    if same_label(cells, r, c, r, c - 1) {
        assert(c >= 1);
        assert(j >= 1);
        assert(left.drop_last() =~= Seq::<(usize, usize)>::empty());
        assert(incident(left.drop_last(), k) == 0);
        assert(left.last() == ((j - 1) as usize, j as usize));
        assert(incident(left, k) == one_if(j - 1 == k) + one_if(j == k));
    } else {
        assert(incident(left, k) == 0);
    }
}

/// What the edges of the cells below number `upto` have at cell `k`.
pub open spec fn ends_at(cells: Seq<Seq<char>>, k: int, upto: int) -> int {
    let w = width(cells);
    (if k < upto {
        joins_up(cells, k) + joins_left(cells, k)
    } else {
        0
    }) + (if k + w < upto {
        joins_up(cells, k + w)
    } else {
        0
    }) + (if k + 1 < upto {
        joins_left(cells, k + 1)
    } else {
        0
    })
}

proof fn lemma_incident_of_adjacency(cells: Seq<Seq<char>>, k: int, upto: int)
    requires
        width(cells) > 0,
        rectangular(cells, width(cells)),
        0 <= upto <= cell_count(cells),
        cell_count(cells) <= usize::MAX,
        0 <= k,
    ensures
        incident(adjacency(cells, upto), k) == ends_at(cells, k, upto),
    decreases upto,
{
    if upto > 0 {
        let j = upto - 1;
        lemma_incident_of_adjacency(cells, k, j);
        lemma_incident_concat(adjacency(cells, j), cell_edges(cells, j), k);
        lemma_cell_edges_touch(cells, j, k);
    }
}

/// The neighbours of a cell with its label are the ends that the edges
/// between neighbours with the same label have at the cell.
proof fn lemma_likes_are_ends(cells: Seq<Seq<char>>, k: int)
    requires
        width(cells) > 0,
        rectangular(cells, width(cells)),
        0 <= k < cell_count(cells),
        cell_count(cells) <= usize::MAX,
    ensures
        like_neighbours(cells, k) == incident(adjacency(cells, cell_count(cells)), k),
{
    let w = width(cells);
    let rows = cells.len() as int;
    let n = cell_count(cells);
    lemma_incident_of_adjacency(cells, k, n);
    lemma_cell_of_index(k, rows, w);
    let r = row_of(cells, k);
    let c = column_of(cells, k);
    assert(cells[r].len() == w);
    assert(cell_at(cells, r, c).is_some());
    assert(r * w + c == k);
    if k + w < n {
        assert(r + 1 < rows) by (nonlinear_arith)
            requires
                r * w + c == k,
                k + w < rows * w,
                0 <= c < w,
        ;
        lemma_index_of_cell(r + 1, c, rows, w);
        assert((r + 1) * w + c == k + w) by (nonlinear_arith)
            requires
                r * w + c == k,
        ;
        assert(row_of(cells, k + w) == r + 1);
        assert(column_of(cells, k + w) == c);
        assert(cells[r + 1].len() == w);
    } else {
        assert(r + 1 >= rows) by (nonlinear_arith)
            requires
                r * w + c == k,
                k + w >= rows * w,
                0 <= c < w,
        ;
    }
    if c + 1 < w {
        lemma_index_of_cell(r, c + 1, rows, w);
        assert(r * w + (c + 1) == k + 1);
        assert(k + 1 < n);
        assert(row_of(cells, k + 1) == r);
        assert(column_of(cells, k + 1) == c + 1);
    } else if k + 1 < n {
        assert(r + 1 < rows) by (nonlinear_arith)
            requires
                r * w + c == k,
                k + 1 < rows * w,
                c == w - 1,
                w > 0,
        ;
        lemma_index_of_cell(r + 1, 0, rows, w);
        assert((r + 1) * w + 0 == k + 1) by (nonlinear_arith)
            requires
                r * w + c == k,
                c == w - 1,
        ;
        assert(row_of(cells, k + 1) == r + 1);
        assert(column_of(cells, k + 1) == 0);
    }
}

proof fn lemma_like_sum_is_degree_sum(cells: Seq<Seq<char>>, part: Seq<usize>)
    requires
        width(cells) > 0,
        rectangular(cells, width(cells)),
        cell_count(cells) <= usize::MAX,
        forall|i: int| 0 <= i < part.len() ==> (#[trigger] part[i]) < cell_count(cells),
    ensures
        like_sum(cells, part) == degree_sum(adjacency(cells, cell_count(cells)), part),
    decreases part.len(),
{
    if part.len() > 0 {
        lemma_like_sum_is_degree_sum(cells, part.drop_last());
        lemma_likes_are_ends(cells, part.last() as int);
    }
}

/// How often the node occurs in a list without repetitions: once or never.
proof fn lemma_touch_once(part: Seq<usize>, edge: (usize, usize))
    requires
        part.no_duplicates(),
    ensures
        touch_sum(part, edge) == one_if(part.contains(edge.0)) + one_if(part.contains(edge.1)),
    decreases part.len(),
{
    if part.len() > 0 {
        let rest = part.drop_last();
        let last = part.last();
        assert forall|a: int, b: int| 0 <= a < rest.len() && 0 <= b < rest.len() && a
            != b implies rest[a] != rest[b] by {
            assert(rest[a] == part[a] && rest[b] == part[b]);
        }
        lemma_touch_once(rest, edge);
        assert(part[part.len() - 1] == last);
        assert forall|x: usize| part.contains(x) <==> rest.contains(x) || x == last by {
            if rest.contains(x) {
                let i = choose|i: int| 0 <= i < rest.len() && rest[i] == x;
                assert(part[i] == x);
            }
            if part.contains(x) {
                let i = choose|i: int| 0 <= i < part.len() && part[i] == x;
                if i < rest.len() {
                    assert(rest[i] == x);
                }
            }
        }
        assert(!rest.contains(last)) by {
            if rest.contains(last) {
                let i = choose|i: int| 0 <= i < rest.len() && rest[i] == last;
                assert(part[i] == part[part.len() - 1]);
            }
        }
    }
}

/// The ends that the edge has at the nodes of the part, added up.
pub open spec fn touch_sum(part: Seq<usize>, edge: (usize, usize)) -> int
    decreases part.len(),
{
    if part.len() == 0 {
        0
    } else {
        touch_sum(part.drop_last(), edge) + touches(edge, part.last() as int)
    }
}

proof fn lemma_degree_sum_push(edges: Seq<(usize, usize)>, edge: (usize, usize), part: Seq<usize>)
    ensures
        degree_sum(edges.push(edge), part) == degree_sum(edges, part) + touch_sum(part, edge),
    decreases part.len(),
{
    if part.len() > 0 {
        lemma_degree_sum_push(edges, edge, part.drop_last());
        assert(edges.push(edge).drop_last() =~= edges);
    }
}

proof fn lemma_degree_sum_empty(part: Seq<usize>)
    ensures
        degree_sum(Seq::empty(), part) == 0,
    decreases part.len(),
{
    if part.len() > 0 {
        lemma_degree_sum_empty(part.drop_last());
    }
}

/// Counting the ends of the edges node by node or edge by edge gives the
/// same number.
proof fn lemma_degree_sum_is_ends_inside(edges: Seq<(usize, usize)>, part: Seq<usize>)
    requires
        part.no_duplicates(),
    ensures
        degree_sum(edges, part) == ends_inside(edges, part),
    decreases edges.len(),
{
    if edges.len() == 0 {
        assert(edges =~= Seq::empty());
        lemma_degree_sum_empty(part);
    } else {
        let rest = edges.drop_last();
        assert(rest.push(edges.last()) =~= edges);
        lemma_degree_sum_is_ends_inside(rest, part);
        lemma_degree_sum_push(rest, edges.last(), part);
        lemma_touch_once(part, edges.last());
    }
}

proof fn lemma_ends_of_closed_part(edges: Seq<(usize, usize)>, part: Seq<usize>)
    requires
        closed_part(edges, part),
    ensures
        ends_inside(edges, part) == 2 * inner_edges(edges, part),
    decreases edges.len(),
{
    if edges.len() > 0 {
        let rest = edges.drop_last();
        assert forall|i: int| 0 <= i < rest.len() implies part.contains((#[trigger] rest[i]).0)
            == part.contains(rest[i].1) by {
            assert(rest[i] == edges[i]);
        }
        lemma_ends_of_closed_part(rest, part);
        assert(edges[edges.len() - 1] == edges.last());
    }
}

/// The fence of a part that no edge leads out of is four pieces for every
/// cell, less two for every edge between two of its cells: an edge joins
/// two neighbours with the same label, and each of the two saves the piece
/// between them.
pub proof fn lemma_fence_of_closed_part(cells: Seq<Seq<char>>, part: Seq<usize>)
    requires
        width(cells) > 0,
        rectangular(cells, width(cells)),
        cell_count(cells) <= usize::MAX,
        part.no_duplicates(),
        forall|i: int| 0 <= i < part.len() ==> (#[trigger] part[i]) < cell_count(cells),
        closed_part(adjacency(cells, cell_count(cells)), part),
    ensures
        fence(cells, part) == 4 * part.len() - 2 * inner_edges(
            adjacency(cells, cell_count(cells)),
            part,
        ),
{
    let edges = adjacency(cells, cell_count(cells));
    lemma_fence_by_likes(cells, part);
    lemma_like_sum_is_degree_sum(cells, part);
    lemma_degree_sum_is_ends_inside(edges, part);
    lemma_ends_of_closed_part(edges, part);
}

/// How often the node occurs in the parts taken together.
pub open spec fn occurrences(parts: Seq<Seq<usize>>, x: usize) -> nat
    decreases parts.len(),
{
    if parts.len() == 0 {
        0
    } else {
        occurrences(parts.drop_last(), x) + parts.last().to_multiset().count(x)
    }
}

proof fn lemma_occurrences_in_flat(parts: Seq<Seq<usize>>, x: usize)
    ensures
        parts.flatten().to_multiset().count(x) == occurrences(parts, x),
    decreases parts.len(),
{
    broadcast use vstd::multiset::group_multiset_axioms;

    parts.lemma_flatten_and_flatten_alt_are_equivalent();
    if parts.len() == 0 {
        assert(parts.flatten_alt() =~= Seq::<usize>::empty());
        assert(parts.flatten_alt().to_multiset().count(x) == 0) by {
            vstd::seq_lib::to_multiset_len(parts.flatten_alt());
        }
    } else {
        let rest = parts.drop_last();
        rest.lemma_flatten_and_flatten_alt_are_equivalent();
        lemma_occurrences_in_flat(rest, x);
        vstd::seq_lib::lemma_multiset_commutative(rest.flatten_alt(), parts.last());
    }
}

proof fn lemma_occurrences_bound(parts: Seq<Seq<usize>>, x: usize, p: int, q: int)
    requires
        0 <= p < parts.len(),
        0 <= q < parts.len(),
    ensures
        parts[p].to_multiset().count(x) <= occurrences(parts, x),
        p != q ==> parts[p].to_multiset().count(x) + parts[q].to_multiset().count(x) <= occurrences(
            parts,
            x,
        ),
    decreases parts.len(),
{
    let rest = parts.drop_last();
    let last = parts.len() - 1;
    if p < last && q < last {
        lemma_occurrences_bound(rest, x, p, q);
    } else if p < last {
        lemma_occurrences_bound(rest, x, p, p);
    } else if q < last {
        lemma_occurrences_bound(rest, x, q, q);
    }
}

/// In a division of the nodes, no part names a node twice, and no edge
/// whose ends are kept together leads out of a part.
pub proof fn lemma_parts_are_closed(
    parts: Seq<Seq<usize>>,
    nodes: nat,
    edges: Seq<(usize, usize)>,
    p: int,
)
    requires
        nodes <= usize::MAX,
        partitions(parts, nodes),
        keeps_edges_together(parts, edges),
        0 <= p < parts.len(),
    ensures
        parts[p].no_duplicates(),
        closed_part(edges, parts[p]),
{
    broadcast use vstd::multiset::group_multiset_axioms;

    let numbers = node_numbers(nodes);
    assert forall|i: int, j: int|
        0 <= i < numbers.len() && 0 <= j < numbers.len() && i != j implies numbers[i]
        != numbers[j] by {
        assert(numbers[i] == i as usize);
        assert(numbers[j] == j as usize);
    }
    assert(numbers.no_duplicates());
    numbers.lemma_multiset_has_no_duplicates();
    assert forall|x: usize| occurrences(parts, x) <= 1 by {
        lemma_occurrences_in_flat(parts, x);
        if numbers.to_multiset().count(x) > 0 {
            assert(numbers.to_multiset().contains(x));
        }
    }
    assert forall|x: usize| parts[p].to_multiset().contains(x) implies parts[p].to_multiset().count(
        x,
    ) == 1 by {
        lemma_occurrences_bound(parts, x, p, p);
    }
    parts[p].lemma_multiset_has_no_duplicates_conv();
    assert forall|i: int| 0 <= i < edges.len() implies parts[p].contains((#[trigger] edges[i]).0)
        == parts[p].contains(edges[i].1) by {
        let a = edges[i].0;
        let b = edges[i].1;
        assert(together(parts, a, b));
        let q = choose|q: int|
            0 <= q < parts.len() && (#[trigger] parts[q]).contains(a) && parts[q].contains(b);
        vstd::seq_lib::to_multiset_contains(parts[q], a);
        vstd::seq_lib::to_multiset_contains(parts[q], b);
        vstd::seq_lib::to_multiset_contains(parts[p], a);
        vstd::seq_lib::to_multiset_contains(parts[p], b);
        if q != p {
            lemma_occurrences_bound(parts, a, p, q);
            lemma_occurrences_bound(parts, b, p, q);
        }
    }
}

/// For every region of a grid, the fence is four pieces for every cell
/// less two for every pair of neighbouring cells of the region: the
/// perimeter is four times the area minus twice the number of inner edges.
pub proof fn lemma_fence_of_region(cells: Seq<Seq<char>>, p: int)
    requires
        width(cells) > 0,
        rectangular(cells, width(cells)),
        cell_count(cells) <= usize::MAX,
        partitions(regions(cells), cell_count(cells) as nat),
        keeps_edges_together(regions(cells), adjacency(cells, cell_count(cells))),
        0 <= p < regions(cells).len(),
    ensures
        fence(cells, regions(cells)[p]) == 4 * regions(cells)[p].len() - 2 * inner_edges(
            adjacency(cells, cell_count(cells)),
            regions(cells)[p],
        ),
{
    let edges = adjacency(cells, cell_count(cells));
    lemma_parts_are_closed(regions(cells), cell_count(cells) as nat, edges, p);
    lemma_fence_of_closed_part(cells, regions(cells)[p]);
}

} // verus!
