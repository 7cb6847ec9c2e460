//! Rectangular grids held in `array2d::Array2D`, and the few facts about
//! that type which the rest of the library relies on.
//!
//! `Array2D` is opaque to the verifier. Each element type that the library
//! stores in a grid gets a name for the rows it holds, and the accessors
//! below are believed, not proved, to read and write those rows the way the
//! `array2d` crate does.

use array2d::Array2D;
use vstd::prelude::*;

verus! {

/// `array2d::Array2D`, made known to the verifier as a type whose inside it
/// does not see.
#[verifier::external_type_specification]
#[verifier::external_body]
#[verifier::reject_recursive_types(T)]
pub struct ExArray2D<T>(Array2D<T>);

/// The cell at `(row, column)` of a list of rows, if there is one.
pub open spec fn cell_at<T>(rows: Seq<Seq<T>>, row: int, column: int) -> Option<T> {
    if 0 <= row < rows.len() && 0 <= column < rows[row].len() {
        Some(rows[row][column])
    } else {
        None
    }
}

/// The rows with the cell at `(row, column)` replaced by `value`.
pub open spec fn with_cell<T>(rows: Seq<Seq<T>>, row: int, column: int, value: T) -> Seq<Seq<T>> {
    rows.update(row, rows[row].update(column, value))
}

/// Every row has `width` cells.
pub open spec fn rectangular<T>(rows: Seq<Seq<T>>, width: int) -> bool {
    forall|r: int| 0 <= r < rows.len() ==> (#[trigger] rows[r]).len() == width
}

/// The number of cells in a row; 0 for a grid without rows.
pub open spec fn width<T>(rows: Seq<Seq<T>>) -> int {
    if rows.len() == 0 {
        0
    } else {
        rows[0].len() as int
    }
}

/// A cell number below `rows * columns` names a row and a column of the grid.
pub proof fn lemma_cell_of_index(cell: int, rows: int, columns: int)
    by (nonlinear_arith)
    requires
        0 <= cell < rows * columns,
        columns > 0,
    ensures
        0 <= cell / columns < rows,
        0 <= cell % columns < columns,
        (cell / columns) * columns + cell % columns == cell,
{
}

/// Row and column of a grid give a cell number below `rows * columns`, and
/// the number gives them back.
pub proof fn lemma_index_of_cell(row: int, column: int, rows: int, columns: int)
    by (nonlinear_arith)
    requires
        0 <= row < rows,
        0 <= column < columns,
    ensures
        0 <= row * columns + column < rows * columns,
        (row * columns + column) / columns == row,
        (row * columns + column) % columns == column,
{
}

/// What a cell of a map holds.
#[derive(Clone, Copy, Debug, PartialEq, Eq, Structural)]
pub enum MapContent {
    Wall,
    Empty,
    Start,
    End,
    Box,
    Robot,
    Visited,
}

/// One of the four orthogonal unit steps. Rows grow downwards, so north
/// lowers the row.
#[derive(Clone, Copy, Debug, PartialEq, Eq, Structural)]
pub enum Direction {
    North,
    East,
    South,
    West,
}

impl Direction {
    /// The change of row and column that one step makes.
    pub open spec fn offset(self) -> (int, int) {
        match self {
            Direction::North => (-1, 0),
            Direction::East => (0, 1),
            Direction::South => (1, 0),
            Direction::West => (0, -1),
        }
    }

    /// The next direction clockwise.
    pub open spec fn right(self) -> Direction {
        match self {
            Direction::North => Direction::East,
            Direction::East => Direction::South,
            Direction::South => Direction::West,
            Direction::West => Direction::North,
        }
    }

    /// The next direction counter-clockwise.
    pub open spec fn left(self) -> Direction {
        match self {
            Direction::North => Direction::West,
            Direction::West => Direction::South,
            Direction::South => Direction::East,
            Direction::East => Direction::North,
        }
    }

    /// The direction that undoes a step.
    pub open spec fn opposite(self) -> Direction {
        self.right().right()
    }

    /// A number from 0 to 3 that tells the directions apart.
    pub open spec fn index(self) -> int {
        match self {
            Direction::North => 0,
            Direction::East => 1,
            Direction::South => 2,
            Direction::West => 3,
        }
    }

    /// The direction with the given number, taken modulo 4.
    pub open spec fn of_index(i: int) -> Direction {
        if i % 4 == 0 {
            Direction::North
        } else if i % 4 == 1 {
            Direction::East
        } else if i % 4 == 2 {
            Direction::South
        } else {
            Direction::West
        }
    }

    /// The number of the direction.
    pub fn number(self) -> (i: usize)
        ensures
            i == self.index(),
    {
        match self {
            Direction::North => 0,
            Direction::East => 1,
            Direction::South => 2,
            Direction::West => 3,
        }
    }

    /// The direction with the given number, taken modulo 4.
    pub fn from_number(i: usize) -> (d: Direction)
        ensures
            d == Direction::of_index(i as int),
    {
        if i % 4 == 0 {
            Direction::North
        } else if i % 4 == 1 {
            Direction::East
        } else if i % 4 == 2 {
            Direction::South
        } else {
            Direction::West
        }
    }
}

/// Rotates a direction a quarter turn clockwise.
pub fn turn_right(d: Direction) -> (r: Direction)
    ensures
        r == d.right(),
{
    match d {
        Direction::North => Direction::East,
        Direction::East => Direction::South,
        Direction::South => Direction::West,
        Direction::West => Direction::North,
    }
}

/// Rotates a direction a quarter turn counter-clockwise.
pub fn turn_left(d: Direction) -> (r: Direction)
    ensures
        r == d.left(),
{
    match d {
        Direction::North => Direction::West,
        Direction::West => Direction::South,
        Direction::South => Direction::East,
        Direction::East => Direction::North,
    }
}

/// Turning left undoes turning right, and the other way round.
pub proof fn lemma_turns_are_inverse(d: Direction)
    ensures
        d.right().left() == d,
        d.left().right() == d,
        d.right().right().right().right() == d,
{
}

/// The place one step from `p` in direction `d` on a grid of `rows` by
/// `columns` cells, or `None` where the step leaves the grid.
pub open spec fn step_spec(p: (int, int), d: Direction, rows: int, columns: int) -> Option<
    (int, int),
> {
    let q = (p.0 + d.offset().0, p.1 + d.offset().1);
    if 0 <= q.0 < rows && 0 <= q.1 < columns {
        Some(q)
    } else {
        None
    }
}

/// One step from `p` in direction `d`, or `None` where it leaves the grid.
pub fn step(p: (usize, usize), d: Direction, rows: usize, columns: usize) -> (q: Option<
    (usize, usize),
>)
    ensures
        match q {
            Some(q) => step_spec((p.0 as int, p.1 as int), d, rows as int, columns as int) == Some(
                (q.0 as int, q.1 as int),
            ),
            None => step_spec((p.0 as int, p.1 as int), d, rows as int, columns as int).is_none(),
        },
{
    match d {
        Direction::North => if p.0 >= 1 && p.0 - 1 < rows && p.1 < columns {
            Some((p.0 - 1, p.1))
        } else {
            None
        },
        Direction::South => if p.0 < usize::MAX && p.0 + 1 < rows && p.1 < columns {
            Some((p.0 + 1, p.1))
        } else {
            None
        },
        Direction::West => if p.1 >= 1 && p.1 - 1 < columns && p.0 < rows {
            Some((p.0, p.1 - 1))
        } else {
            None
        },
        Direction::East => if p.1 < usize::MAX && p.1 + 1 < columns && p.0 < rows {
            Some((p.0, p.1 + 1))
        } else {
            None
        },
    }
}

/// A step that stays on the grid is undone by a step the opposite way.
pub proof fn lemma_step_back(p: (int, int), d: Direction, rows: int, columns: int)
    requires
        0 <= p.0 < rows,
        0 <= p.1 < columns,
        step_spec(p, d, rows, columns).is_some(),
    ensures
        step_spec(step_spec(p, d, rows, columns).unwrap(), d.opposite(), rows, columns) == Some(p),
{
}

/// The sum of the distances in rows and in columns between two places.
pub open spec fn manhattan_spec(a: (int, int), b: (int, int)) -> int {
    (if a.0 >= b.0 { a.0 - b.0 } else { b.0 - a.0 }) + (if a.1 >= b.1 { a.1 - b.1 } else { b.1 - a.1 })
}

/// The rows of a map, top row first.
pub uninterp spec fn content_cells(grid: Array2D<MapContent>) -> Seq<Seq<MapContent>>;

/// `Array2D::num_rows`: the number of rows the map holds.
#[verifier::external_body]
pub(crate) fn content_rows(grid: &Array2D<MapContent>) -> (n: usize)
    ensures
        n == content_cells(*grid).len(),
{
    grid.num_rows()
}

/// `Array2D::num_columns`: the length that every row of the map has.
#[verifier::external_body]
pub(crate) fn content_columns(grid: &Array2D<MapContent>) -> (n: usize)
    ensures
        rectangular(content_cells(*grid), n as int),
{
    grid.num_columns()
}

/// `Array2D::get`: the cell at `(row, column)`, or `None` outside the map.
#[verifier::external_body]
pub(crate) fn content_at(grid: &Array2D<MapContent>, row: usize, column: usize) -> (cell: Option<
    MapContent,
>)
    ensures
        cell == cell_at(content_cells(*grid), row as int, column as int),
{
    grid.get(row, column).copied()
}

/// `Array2D::set`: writes `value` at `(row, column)` and reports whether the
/// place exists; outside the map nothing changes.
#[verifier::external_body]
pub(crate) fn content_put(
    grid: &mut Array2D<MapContent>,
    row: usize,
    column: usize,
    value: MapContent,
) -> (done: bool)
    ensures
        done == cell_at(content_cells(*old(grid)), row as int, column as int).is_some(),
        done ==> content_cells(*final(grid)) == with_cell(
            content_cells(*old(grid)),
            row as int,
            column as int,
            value,
        ),
        !done ==> content_cells(*final(grid)) == content_cells(*old(grid)),
{
    grid.set(row, column, value).is_ok()
}

/// `Array2D::clone`: a map with the same rows.
#[verifier::external_body]
pub(crate) fn content_copy(grid: &Array2D<MapContent>) -> (copy: Array2D<MapContent>)
    ensures
        content_cells(copy) == content_cells(*grid),
{
    grid.clone()
}

/// `(row, column)` holds `Start`, and no cell before it in reading order does.
pub open spec fn is_first_start(rows: Seq<Seq<MapContent>>, row: int, column: int) -> bool {
    &&& cell_at(rows, row, column) == Some(MapContent::Start)
    &&& forall|r: int, c: int|
        (r < row || (r == row && c < column)) ==> #[trigger] cell_at(rows, r, c) != Some(
            MapContent::Start,
        )
}

/// No cell holds `Start`.
pub open spec fn no_start(rows: Seq<Seq<MapContent>>) -> bool {
    forall|r: int, c: int| #[trigger] cell_at(rows, r, c) != Some(MapContent::Start)
}

/// The first cell in reading order that holds `Start`, if there is one.
pub fn find_start(map: &Array2D<MapContent>) -> (place: Option<(usize, usize)>)
    ensures
        match place {
            Some(p) => is_first_start(content_cells(*map), p.0 as int, p.1 as int),
            None => no_start(content_cells(*map)),
        },
{
    let rows = content_rows(map);
    let cols = content_columns(map);
    let ghost cells = content_cells(*map);
    let mut r: usize = 0;
    while r < rows
        invariant
            r <= rows,
            rows == cells.len(),
            rectangular(cells, cols as int),
            cells == content_cells(*map),
            forall|i: int, j: int|
                i < r ==> #[trigger] cell_at(cells, i, j) != Some(MapContent::Start),
        decreases rows - r,
    {
        let mut c: usize = 0;
        while c < cols
            invariant
                r < rows,
                c <= cols,
                rows == cells.len(),
                rectangular(cells, cols as int),
                cells == content_cells(*map),
                forall|i: int, j: int|
                    i < r ==> #[trigger] cell_at(cells, i, j) != Some(MapContent::Start),
                forall|j: int|
                    j < c ==> #[trigger] cell_at(cells, r as int, j) != Some(MapContent::Start),
            decreases cols - c,
        {
            let cell = content_at(map, r, c);
            if cell == Some(MapContent::Start) {
                return Some((r, c));
            }
            c += 1;
        }
        r += 1;
    }
    None
}

/// The distance in rows plus the distance in columns between two places.
pub fn manhattan(a: (usize, usize), b: (usize, usize)) -> (d: u128)
    ensures
        d == manhattan_spec((a.0 as int, a.1 as int), (b.0 as int, b.1 as int)),
{
    let rows: usize = if a.0 >= b.0 {
        a.0 - b.0
    } else {
        b.0 - a.0
    };
    let columns: usize = if a.1 >= b.1 {
        a.1 - b.1
    } else {
        b.1 - a.1
    };
    rows as u128 + columns as u128
}

/// The distance in rows plus the distance in columns between two places,
/// held at `u64::MAX` where it is larger than that.
pub fn manhattan_distance(a: (usize, usize), b: (usize, usize)) -> (d: u64)
    ensures
        d == if manhattan_spec((a.0 as int, a.1 as int), (b.0 as int, b.1 as int)) > u64::MAX {
            u64::MAX as int
        } else {
            manhattan_spec((a.0 as int, a.1 as int), (b.0 as int, b.1 as int))
        },
{
    let wide = manhattan(a, b);
    if wide > u64::MAX as u128 {
        u64::MAX
    } else {
        wide as u64
    }
}

/// The rows of a grid of characters, top row first.
pub uninterp spec fn char_cells(grid: Array2D<char>) -> Seq<Seq<char>>;

/// `Array2D::num_rows`: the number of rows the grid holds.
#[verifier::external_body]
pub(crate) fn char_rows(grid: &Array2D<char>) -> (n: usize)
    ensures
        n == char_cells(*grid).len(),
{
    grid.num_rows()
}

/// `Array2D::num_columns`: the length that every row of the grid has.
#[verifier::external_body]
pub(crate) fn char_columns(grid: &Array2D<char>) -> (n: usize)
    ensures
        rectangular(char_cells(*grid), n as int),
{
    grid.num_columns()
}

/// `Array2D::get`: the cell at `(row, column)`, or `None` outside the grid.
#[verifier::external_body]
pub(crate) fn char_at(grid: &Array2D<char>, row: usize, column: usize) -> (cell: Option<char>)
    ensures
        cell == cell_at(char_cells(*grid), row as int, column as int),
{
    grid.get(row, column).copied()
}

/// `Array2D::set`: writes `value` at `(row, column)` and reports whether the
/// place exists; outside the grid nothing changes.
#[verifier::external_body]
pub(crate) fn char_put(grid: &mut Array2D<char>, row: usize, column: usize, value: char) -> (done: bool)
    ensures
        done == cell_at(char_cells(*old(grid)), row as int, column as int).is_some(),
        done ==> char_cells(*final(grid)) == with_cell(
            char_cells(*old(grid)),
            row as int,
            column as int,
            value,
        ),
        !done ==> char_cells(*final(grid)) == char_cells(*old(grid)),
{
    grid.set(row, column, value).is_ok()
}

/// `Array2D::clone`: a grid with the same rows.
#[verifier::external_body]
pub(crate) fn char_copy(grid: &Array2D<char>) -> (copy: Array2D<char>)
    ensures
        char_cells(copy) == char_cells(*grid),
{
    grid.clone()
}

/// The rows of a grid of bytes, top row first.
pub uninterp spec fn byte_cells(grid: Array2D<u8>) -> Seq<Seq<u8>>;

/// `Array2D::filled_with`: a grid of `rows` by `columns` cells that all
/// hold `value`. The number of cells must not be more than a vector can
/// hold.
#[verifier::external_body]
pub(crate) fn byte_filled(value: u8, rows: usize, columns: usize) -> (grid: Array2D<u8>)
    requires
        rows * columns <= isize::MAX,
    ensures
        byte_cells(grid) == Seq::new(rows as nat, |r: int| Seq::new(columns as nat, |c: int| value)),
{
    Array2D::filled_with(value, rows, columns)
}

/// `Array2D::num_rows`: the number of rows the grid holds.
#[verifier::external_body]
pub(crate) fn byte_rows(grid: &Array2D<u8>) -> (n: usize)
    ensures
        n == byte_cells(*grid).len(),
{
    grid.num_rows()
}

/// `Array2D::num_columns`: the length that every row of the grid has.
#[verifier::external_body]
pub(crate) fn byte_columns(grid: &Array2D<u8>) -> (n: usize)
    ensures
        rectangular(byte_cells(*grid), n as int),
{
    grid.num_columns()
}

/// `Array2D::get`: the cell at `(row, column)`, or `None` outside the grid.
#[verifier::external_body]
pub(crate) fn byte_at(grid: &Array2D<u8>, row: usize, column: usize) -> (cell: Option<u8>)
    ensures
        cell == cell_at(byte_cells(*grid), row as int, column as int),
{
    grid.get(row, column).copied()
}

/// `Array2D::set`: writes `value` at `(row, column)` and reports whether the
/// place exists; outside the grid nothing changes.
#[verifier::external_body]
pub(crate) fn byte_put(grid: &mut Array2D<u8>, row: usize, column: usize, value: u8) -> (done: bool)
    ensures
        done == cell_at(byte_cells(*old(grid)), row as int, column as int).is_some(),
        done ==> byte_cells(*final(grid)) == with_cell(
            byte_cells(*old(grid)),
            row as int,
            column as int,
            value,
        ),
        !done ==> byte_cells(*final(grid)) == byte_cells(*old(grid)),
{
    grid.set(row, column, value).is_ok()
}

/// The rows of a grid of heights, top row first.
pub uninterp spec fn height_cells(grid: Array2D<u32>) -> Seq<Seq<u32>>;

/// `Array2D::num_rows`: the number of rows the grid holds.
#[verifier::external_body]
pub(crate) fn height_rows(grid: &Array2D<u32>) -> (n: usize)
    ensures
        n == height_cells(*grid).len(),
{
    grid.num_rows()
}

/// `Array2D::num_columns`: the length that every row of the grid has.
#[verifier::external_body]
pub(crate) fn height_columns(grid: &Array2D<u32>) -> (n: usize)
    ensures
        rectangular(height_cells(*grid), n as int),
{
    grid.num_columns()
}

/// `Array2D::get`: the cell at `(row, column)`, or `None` outside the grid.
#[verifier::external_body]
pub(crate) fn height_at(grid: &Array2D<u32>, row: usize, column: usize) -> (cell: Option<u32>)
    ensures
        cell == cell_at(height_cells(*grid), row as int, column as int),
{
    grid.get(row, column).copied()
}

/// The rows of a grid of numbers, top row first.
pub uninterp spec fn number_cells(grid: Array2D<i64>) -> Seq<Seq<i64>>;

/// `Array2D::get`: the cell at `(row, column)`, or `None` outside the grid.
#[verifier::external_body]
pub(crate) fn number_at(grid: &Array2D<i64>, row: usize, column: usize) -> (cell: Option<i64>)
    ensures
        cell == cell_at(number_cells(*grid), row as int, column as int),
{
    grid.get(row, column).copied()
}

} // verus!
