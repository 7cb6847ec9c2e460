//! A warehouse in which a robot pushes boxes: the robot moves one cell at a
//! time, and a row of boxes in its way moves with it where the cell behind
//! the row is empty.

use crate::arith::fits;
use crate::grid::{
    cell_at, content_at, content_cells, content_columns, content_copy, content_put,
    content_rows, rectangular, step, with_cell, Direction, MapContent,
};
use array2d::Array2D;
use vstd::arithmetic::overflow::CheckedU64;
use vstd::prelude::*;

verus! {

/// The place `b` away from `a`, where its row and column are not negative.
pub open spec fn added(a: (int, int), b: (int, int)) -> Option<(int, int)> {
    if a.0 + b.0 >= 0 && a.1 + b.1 >= 0 {
        Some((a.0 + b.0, a.1 + b.1))
    } else {
        None
    }
}

/// Adds a signed offset to a place; `None` where a coordinate would be
/// negative or would not fit.
pub fn add_coords(a: (usize, usize), b: (i32, i32)) -> (sum: Option<(usize, usize)>)
    ensures
        match sum {
            Some(p) => added((a.0 as int, a.1 as int), (b.0 as int, b.1 as int)) == Some(
                (p.0 as int, p.1 as int),
            ),
            None => match added((a.0 as int, a.1 as int), (b.0 as int, b.1 as int)) {
                Some(p) => p.0 > usize::MAX || p.1 > usize::MAX,
                None => true,
            },
        },
{
    let row: i128 = a.0 as i128 + b.0 as i128;
    let column: i128 = a.1 as i128 + b.1 as i128;
    if row < 0 || column < 0 || row > usize::MAX as i128 || column > usize::MAX as i128 {
        None
    } else {
        Some((row as usize, column as usize))
    }
}

/// The place one step from `p`.
pub open spec fn ahead(p: (int, int), d: Direction) -> (int, int) {
    (p.0 + d.offset().0, p.1 + d.offset().1)
}

/// How many cells lie from `p` to the edge of the map in direction `d`,
/// `p` included.
pub open spec fn room(cells: Seq<Seq<MapContent>>, p: (int, int), d: Direction) -> int {
    match d {
        Direction::North => p.0 + 1,
        Direction::South => cells.len() - p.0,
        Direction::West => p.1 + 1,
        Direction::East => cells[p.0].len() - p.1,
    }
}

/// The first place from `p` on, going in direction `d`, that holds no box.
pub open spec fn beyond_boxes(cells: Seq<Seq<MapContent>>, p: (int, int), d: Direction) -> (int, int)
    decreases room(cells, p, d),
{
    if cell_at(cells, p.0, p.1) == Some(MapContent::Box) {
        beyond_boxes(cells, ahead(p, d), d)
    } else {
        p
    }
}

/// The map and the robot's place after the robot at `at` tries to move one
/// step in direction `d`.
///
/// Onto an empty cell it simply moves. Against a row of boxes with an empty
/// cell behind it, it moves and the row moves with it. Otherwise, and at
/// the edge of the map, nothing changes.
pub open spec fn moved(cells: Seq<Seq<MapContent>>, at: (int, int), d: Direction) -> (
    Seq<Seq<MapContent>>,
    (int, int),
) {
    let to = ahead(at, d);
    match cell_at(cells, to.0, to.1) {
        Some(MapContent::Empty) => (
            with_cell(
                with_cell(cells, at.0, at.1, MapContent::Empty),
                to.0,
                to.1,
                MapContent::Robot,
            ),
            to,
        ),
        Some(MapContent::Box) => {
            let gap = beyond_boxes(cells, ahead(to, d), d);
            if cell_at(cells, gap.0, gap.1) == Some(MapContent::Empty) {
                (
                    with_cell(
                        with_cell(
                            with_cell(cells, gap.0, gap.1, MapContent::Box),
                            at.0,
                            at.1,
                            MapContent::Empty,
                        ),
                        to.0,
                        to.1,
                        MapContent::Robot,
                    ),
                    to,
                )
            } else {
                (cells, at)
            }
        },
        _ => (cells, at),
    }
}

/// The map and the robot's place after a list of moves.
pub open spec fn after_moves(cells: Seq<Seq<MapContent>>, at: (int, int), moves: Seq<Direction>) -> (
    Seq<Seq<MapContent>>,
    (int, int),
)
    decreases moves.len(),
{
    if moves.len() == 0 {
        (cells, at)
    } else {
        let before = after_moves(cells, at, moves.drop_last());
        moved(before.0, before.1, moves.last())
    }
}

/// Writing a cell keeps the shape of the map.
proof fn lemma_with_cell_shape(cells: Seq<Seq<MapContent>>, r: int, c: int, v: MapContent, width: int)
    requires
        rectangular(cells, width),
        cell_at(cells, r, c).is_some(),
    ensures
        rectangular(with_cell(cells, r, c, v), width),
        with_cell(cells, r, c, v).len() == cells.len(),
        forall|i: int, j: int|
            cell_at(with_cell(cells, r, c, v), i, j) == if i == r && j == c {
                Some(v)
            } else {
                #[trigger] cell_at(cells, i, j)
            },
{
    let after = with_cell(cells, r, c, v);
    assert forall|i: int| 0 <= i < after.len() implies (#[trigger] after[i]).len() == width by {
        assert(cells[i].len() == width);
    }
}

/// Moves the robot at `coord` one step in `direction`, pushing boxes where
/// it can, and returns where the robot then stands.
pub fn move_robot(map: &mut Array2D<MapContent>, coord: (usize, usize), direction: Direction) -> (at: (
    usize,
    usize,
))
    requires
        cell_at(content_cells(*old(map)), coord.0 as int, coord.1 as int).is_some(),
    ensures
        (content_cells(*final(map)), (at.0 as int, at.1 as int)) == moved(
            content_cells(*old(map)),
            (coord.0 as int, coord.1 as int),
            direction,
        ),
        cell_at(content_cells(*final(map)), at.0 as int, at.1 as int).is_some(),
{
    let ghost cells = content_cells(*map);
    let ghost here = (coord.0 as int, coord.1 as int);
    let rows = content_rows(map);
    let cols = content_columns(map);
    let to = match step(coord, direction, rows, cols) {
        Some(p) => p,
        None => {
            return coord;
        },
    };
    let ahead_cell = content_at(map, to.0, to.1);
    if ahead_cell == Some(MapContent::Empty) {
        proof {
            lemma_with_cell_shape(cells, here.0, here.1, MapContent::Empty, cols as int);
            lemma_with_cell_shape(
                with_cell(cells, here.0, here.1, MapContent::Empty),
                to.0 as int,
                to.1 as int,
                MapContent::Robot,
                cols as int,
            );
        }
        content_put(map, coord.0, coord.1, MapContent::Empty);
        content_put(map, to.0, to.1, MapContent::Robot);
        return to;
    }
    if ahead_cell != Some(MapContent::Box) {
        return coord;
    }
    let ghost first = ahead((to.0 as int, to.1 as int), direction);
    let mut last_box = to;
    let mut gap = step(to, direction, rows, cols);
    loop
        invariant
            cells == content_cells(*map),
            cells == content_cells(*old(map)),
            rows == cells.len(),
            rectangular(cells, cols as int),
            here == (coord.0 as int, coord.1 as int),
            cell_at(cells, here.0, here.1).is_some(),
            (to.0 as int, to.1 as int) == ahead(here, direction),
            cell_at(cells, to.0 as int, to.1 as int) == Some(MapContent::Box),
            first == ahead((to.0 as int, to.1 as int), direction),
            cell_at(cells, last_box.0 as int, last_box.1 as int) == Some(MapContent::Box),
            match gap {
                Some(g) => (g.0 as int, g.1 as int) == ahead(
                    (last_box.0 as int, last_box.1 as int),
                    direction,
                ) && cell_at(cells, g.0 as int, g.1 as int).is_some(),
                None => cell_at(
                    cells,
                    ahead((last_box.0 as int, last_box.1 as int), direction).0,
                    ahead((last_box.0 as int, last_box.1 as int), direction).1,
                ).is_none(),
            },
            beyond_boxes(cells, ahead((last_box.0 as int, last_box.1 as int), direction), direction)
                == beyond_boxes(cells, first, direction),
        decreases room(cells, (last_box.0 as int, last_box.1 as int), direction),
    {
        match gap {
            Some(g) => {
                let there = content_at(map, g.0, g.1);
                if there == Some(MapContent::Box) {
                    last_box = g;
                    gap = step(g, direction, rows, cols);
                } else {
                    if there == Some(MapContent::Empty) {
                        proof {
                            lemma_with_cell_shape(
                                cells,
                                g.0 as int,
                                g.1 as int,
                                MapContent::Box,
                                cols as int,
                            );
                            let one = with_cell(cells, g.0 as int, g.1 as int, MapContent::Box);
                            lemma_with_cell_shape(
                                one,
                                here.0,
                                here.1,
                                MapContent::Empty,
                                cols as int,
                            );
                            lemma_with_cell_shape(
                                with_cell(one, here.0, here.1, MapContent::Empty),
                                to.0 as int,
                                to.1 as int,
                                MapContent::Robot,
                                cols as int,
                            );
                        }
                        content_put(map, g.0, g.1, MapContent::Box);
                        content_put(map, coord.0, coord.1, MapContent::Empty);
                        content_put(map, to.0, to.1, MapContent::Robot);
                        return to;
                    }
                    return coord;
                }
            },
            None => {
                return coord;
            },
        }
    }
}

/// The places in `row`, before column `upto`, that hold `content`.
pub open spec fn found_in_row(row: Seq<MapContent>, r: int, content: MapContent, upto: int) -> Seq<
    (usize, usize),
>
    decreases upto,
{
    if upto <= 0 {
        seq![]
    } else if row[upto - 1] == content {
        found_in_row(row, r, content, upto - 1).push((r as usize, (upto - 1) as usize))
    } else {
        found_in_row(row, r, content, upto - 1)
    }
}

/// The places in the rows before `upto` that hold `content`, in reading
/// order.
pub open spec fn found(cells: Seq<Seq<MapContent>>, content: MapContent, upto: int) -> Seq<
    (usize, usize),
>
    decreases upto,
{
    if upto <= 0 {
        seq![]
    } else {
        found(cells, content, upto - 1) + found_in_row(
            cells[upto - 1],
            upto - 1,
            content,
            cells[upto - 1].len() as int,
        )
    }
}

/// All places of the map that hold `content`, in reading order.
pub fn find_coords(map: &Array2D<MapContent>, content: MapContent) -> (places: Vec<(usize, usize)>)
    ensures
        places@ == found(content_cells(*map), content, content_cells(*map).len() as int),
{
    let ghost cells = content_cells(*map);
    let rows = content_rows(map);
    let cols = content_columns(map);
    let mut places: Vec<(usize, usize)> = Vec::new();
    let mut r: usize = 0;
    while r < rows
        invariant
            r <= rows,
            cells == content_cells(*map),
            rows == cells.len(),
            rectangular(cells, cols as int),
            places@ == found(cells, content, r as int),
        decreases rows - r,
    {
        let ghost before = places@;
        let mut c: usize = 0;
        while c < cols
            invariant
                r < rows,
                c <= cols,
                cells == content_cells(*map),
                rows == cells.len(),
                rectangular(cells, cols as int),
                places@ == before + found_in_row(cells[r as int], r as int, content, c as int),
            decreases cols - c,
        {
            let cell = content_at(map, r, c);
            assert(cell == Some(cells[r as int][c as int]));
            if cell == Some(content) {
                places.push((r, c));
            }
            assert(places@ =~= before + found_in_row(cells[r as int], r as int, content, c + 1));
            c += 1;
        }
        r += 1;
    }
    places
}

/// The sum of `100 * r + column` over the boxes of `row` before column
/// `upto`.
pub open spec fn row_score(row: Seq<MapContent>, r: int, upto: int) -> int
    decreases upto,
{
    if upto <= 0 {
        0
    } else {
        row_score(row, r, upto - 1) + if row[upto - 1] == MapContent::Box {
            100 * r + (upto - 1)
        } else {
            0
        }
    }
}

/// The sum of `100 * row + column` over the boxes in the rows before
/// `upto`.
pub open spec fn score(cells: Seq<Seq<MapContent>>, upto: int) -> int
    decreases upto,
{
    if upto <= 0 {
        0
    } else {
        score(cells, upto - 1) + row_score(cells[upto - 1], upto - 1, cells[upto - 1].len() as int)
    }
}

/// The sum of `100 * row + column` over all boxes of the map; `None` where
/// the sum does not fit in 64 bits.
pub fn box_score(map: &Array2D<MapContent>) -> (total: Option<u64>)
    ensures
        fits(total, score(content_cells(*map), content_cells(*map).len() as int)),
{
    let ghost cells = content_cells(*map);
    let rows = content_rows(map);
    let cols = content_columns(map);
    let mut total = CheckedU64::new(0);
    let mut r: usize = 0;
    while r < rows
        invariant
            r <= rows,
            cells == content_cells(*map),
            rows == cells.len(),
            rectangular(cells, cols as int),
            total@ == score(cells, r as int),
        decreases rows - r,
    {
        let mut in_row = CheckedU64::new(0);
        let mut c: usize = 0;
        while c < cols
            invariant
                r < rows,
                c <= cols,
                cells == content_cells(*map),
                rows == cells.len(),
                rectangular(cells, cols as int),
                in_row@ == row_score(cells[r as int], r as int, c as int),
            decreases cols - c,
        {
            let cell = content_at(map, r, c);
            assert(cell == Some(cells[r as int][c as int]));
            if cell == Some(MapContent::Box) {
                let place = CheckedU64::new(r as u64).mul_value(100).add_value(c as u64);
                in_row = in_row.add_checked(&place);
            }
            c += 1;
        }
        total = total.add_checked(&in_row);
        r += 1;
    }
    total.to_option()
}

/// Lets the robot make the moves one after the other on a copy of the map
/// and returns the score of the boxes at the end. The robot is the first
/// cell in reading order that holds `Robot`; `None` where there is none or
/// where the score does not fit in 64 bits.
pub fn part1(map: &Array2D<MapContent>, moves: &Vec<Direction>) -> (total: Option<u64>)
    ensures
        ({
            let cells = content_cells(*map);
            let robots = found(cells, MapContent::Robot, cells.len() as int);
            if robots.len() == 0 {
                total.is_none()
            } else {
                let end = after_moves(cells, (robots[0].0 as int, robots[0].1 as int), moves@);
                fits(total, score(end.0, end.0.len() as int))
            }
        }),
{
    let ghost cells = content_cells(*map);
    let robots = find_coords(map, MapContent::Robot);
    if robots.len() == 0 {
        return None;
    }
    let mut coord = robots[0];
    let ghost first = (coord.0 as int, coord.1 as int);
    let rows = content_rows(map);
    let cols = content_columns(map);
    proof {
        lemma_found_is_on_map(cells, MapContent::Robot, cells.len() as int, 0);
    }
    let mut changed = content_copy(map);
    let mut i: usize = 0;
    while i < moves.len()
        invariant
            i <= moves.len(),
            cell_at(content_cells(changed), coord.0 as int, coord.1 as int).is_some(),
            (content_cells(changed), (coord.0 as int, coord.1 as int)) == after_moves(
                cells,
                first,
                moves@.take(i as int),
            ),
        decreases moves.len() - i,
    {
        assert(moves@.take(i + 1).drop_last() =~= moves@.take(i as int));
        coord = move_robot(&mut changed, coord, moves[i]);
        i += 1;
    }
    assert(moves@.take(moves.len() as int) =~= moves@);
    box_score(&changed)
}

/// Every place that `found` lists is a cell of the map.
proof fn lemma_found_is_on_map(cells: Seq<Seq<MapContent>>, content: MapContent, upto: int, k: int)
    requires
        cells.len() <= usize::MAX,
        forall|r: int| 0 <= r < cells.len() ==> (#[trigger] cells[r]).len() <= usize::MAX,
        0 <= upto <= cells.len(),
        0 <= k < found(cells, content, upto).len(),
    ensures
        cell_at(
            cells,
            found(cells, content, upto)[k].0 as int,
            found(cells, content, upto)[k].1 as int,
        ).is_some(),
    decreases upto,
{
    let earlier = found(cells, content, upto - 1);
    if k < earlier.len() {
        lemma_found_is_on_map(cells, content, upto - 1, k);
    } else {
        lemma_found_in_row_is_in_row(
            cells[upto - 1],
            upto - 1,
            content,
            cells[upto - 1].len() as int,
            k - earlier.len(),
        );
    }
}

proof fn lemma_found_in_row_is_in_row(row: Seq<MapContent>, r: int, content: MapContent, upto: int, k: int)
    requires
        0 <= r <= usize::MAX,
        0 <= upto <= row.len() <= usize::MAX,
        0 <= k < found_in_row(row, r, content, upto).len(),
    ensures
        found_in_row(row, r, content, upto)[k].0 == r,
        0 <= found_in_row(row, r, content, upto)[k].1 < upto,
    decreases upto,
{
    if row[upto - 1] == content {
        if k < found_in_row(row, r, content, upto - 1).len() {
            lemma_found_in_row_is_in_row(row, r, content, upto - 1, k);
        }
    } else {
        lemma_found_in_row_is_in_row(row, r, content, upto - 1, k);
    }
}

} // verus!
