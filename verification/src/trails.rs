//! Hiking trails on a map of heights: a trail starts at height 0 and rises
//! by exactly 1 with every orthogonal step until it reaches height 9.

use crate::arith::fits;
use crate::grid::{
    height_at, height_cells, height_columns, height_rows, rectangular, step, step_spec, width,
    Direction,
};
use array2d::Array2D;
use vstd::arithmetic::overflow::CheckedU64;
use vstd::prelude::*;

verus! {

/// The place `direction` away from `location` on a map of the given size,
/// or `None` where it lies outside the map.
pub open spec fn increment_spec(location: (int, int), direction: (int, int), size: (int, int)) -> Option<
    (int, int),
> {
    let to = (location.0 + direction.0, location.1 + direction.1);
    if to.0 < 0 || to.1 < 0 || to.0 >= size.0 || to.1 >= size.1 {
        None
    } else {
        Some(to)
    }
}

/// One step from `location` by `direction` on a map of `size` rows and
/// columns; `None` where the step leaves the map.
pub fn increment(location: (i32, i32), direction: (i32, i32), size: (i32, i32)) -> (to: Option<
    (i32, i32),
>)
    ensures
        match to {
            Some(p) => increment_spec(
                (location.0 as int, location.1 as int),
                (direction.0 as int, direction.1 as int),
                (size.0 as int, size.1 as int),
            ) == Some((p.0 as int, p.1 as int)),
            None => increment_spec(
                (location.0 as int, location.1 as int),
                (direction.0 as int, direction.1 as int),
                (size.0 as int, size.1 as int),
            ).is_none(),
        },
{
    let row: i64 = location.0 as i64 + direction.0 as i64;
    let column: i64 = location.1 as i64 + direction.1 as i64;
    if row < 0 || column < 0 || row >= size.0 as i64 || column >= size.1 as i64 {
        None
    } else {
        Some((row as i32, column as i32))
    }
}

/// A step that stays on the map is undone by the opposite step.
pub proof fn lemma_increment_back(location: (int, int), direction: (int, int), size: (int, int))
    requires
        0 <= location.0 < size.0,
        0 <= location.1 < size.1,
        increment_spec(location, direction, size).is_some(),
    ensures
        increment_spec(
            increment_spec(location, direction, size).unwrap(),
            (-direction.0, -direction.1),
            size,
        ) == Some(location),
{
}

/// The order in which the neighbours of a cell are looked at: east, west,
/// south, north.
pub open spec fn look_order(k: int) -> Direction {
    if k == 0 {
        Direction::East
    } else if k == 1 {
        Direction::West
    } else if k == 2 {
        Direction::South
    } else {
        Direction::North
    }
}

/// The neighbour of `at` in direction number `k`, where it is on the map
/// and has the height `wanted`.
pub open spec fn uphill(cells: Seq<Seq<u32>>, cols: int, at: (int, int), k: int, wanted: int) -> Option<
    (int, int),
> {
    match step_spec(at, look_order(k), cells.len() as int, cols) {
        Some(q) => if cells[q.0][q.1] == wanted {
            Some(q)
        } else {
            None
        },
        None => None,
    }
}

/// A trail leads from `at`, taken to have the height `height`, up to the
/// cell `top` of height 9.
pub open spec fn climbs_to(
    cells: Seq<Seq<u32>>,
    cols: int,
    at: (int, int),
    height: int,
    top: (int, int),
) -> bool
    decreases 9 - height,
{
    if height >= 9 {
        height == 9 && at == top
    } else {
        exists|k: int|
            0 <= k < 4 && (#[trigger] uphill(cells, cols, at, k, height + 1)).is_some() && climbs_to(
                cells,
                cols,
                uphill(cells, cols, at, k, height + 1).unwrap(),
                height + 1,
                top,
            )
    }
}

/// The number of trails from `at`, taken to have the height `height`, up
/// to a cell of height 9.
pub open spec fn rating(cells: Seq<Seq<u32>>, cols: int, at: (int, int), height: int) -> nat
    decreases 9 - height, 5int,
{
    if height >= 9 {
        if height == 9 {
            1
        } else {
            0
        }
    } else {
        rating_among(cells, cols, at, height, 4)
    }
}

/// The trails that start with a step in one of the first `k` directions.
pub open spec fn rating_among(cells: Seq<Seq<u32>>, cols: int, at: (int, int), height: int, k: int) -> nat
    decreases 9 - height, k,
{
    if k <= 0 || k > 4 || height >= 9 {
        0
    } else {
        rating_among(cells, cols, at, height, k - 1) + match uphill(
            cells,
            cols,
            at,
            k - 1,
            height + 1,
        ) {
            Some(q) => rating(cells, cols, q, height + 1),
            None => 0,
        }
    }
}

fn look(k: usize) -> (d: Direction)
    requires
        k < 4,
    ensures
        d == look_order(k as int),
{
    if k == 0 {
        Direction::East
    } else if k == 1 {
        Direction::West
    } else if k == 2 {
        Direction::South
    } else {
        Direction::North
    }
}

/// The number of columns of the map; 0 for a map without rows.
fn columns(map: &Array2D<u32>) -> (cols: usize)
    ensures
        cols == width(height_cells(*map)),
        rectangular(height_cells(*map), cols as int),
{
    if height_rows(map) == 0 {
        0
    } else {
        height_columns(map)
    }
}

fn step_up(map: &Array2D<u32>, cols: usize, at: (usize, usize), k: usize, wanted: u32) -> (to: Option<
    (usize, usize),
>)
    requires
        k < 4,
        rectangular(height_cells(*map), cols as int),
    ensures
        match to {
            Some(q) => uphill(
                height_cells(*map),
                cols as int,
                (at.0 as int, at.1 as int),
                k as int,
                wanted as int,
            ) == Some((q.0 as int, q.1 as int)),
            None => uphill(
                height_cells(*map),
                cols as int,
                (at.0 as int, at.1 as int),
                k as int,
                wanted as int,
            ).is_none(),
        },
{
    let rows = height_rows(map);
    match step(at, look(k), rows, cols) {
        Some(q) => {
            let there = height_at(map, q.0, q.1);
            assert(there == Some(height_cells(*map)[q.0 as int][q.1 as int]));
            if there == Some(wanted) {
                Some(q)
            } else {
                None
            }
        },
        None => None,
    }
}

fn has_place(list: &Vec<(usize, usize)>, p: (usize, usize)) -> (found: bool)
    ensures
        found == list@.contains(p),
{
    let mut i: usize = 0;
    while i < list.len()
        invariant
            i <= list.len(),
            forall|j: int| 0 <= j < i ==> list[j] != p,
        decreases list.len() - i,
    {
        if list[i].0 == p.0 && list[i].1 == p.1 {
            return true;
        }
        i += 1;
    }
    false
}

/// The cells of height 9 that a trail from `location` reaches, each once;
/// `location` is taken to have the height `height`.
pub fn count_paths(map: &Array2D<u32>, location: (usize, usize), height: u32) -> (tops: Vec<
    (usize, usize),
>)
    ensures
        tops@.no_duplicates(),
        forall|p: (usize, usize)|
            tops@.contains(p) <==> climbs_to(
                height_cells(*map),
                width(height_cells(*map)),
                (location.0 as int, location.1 as int),
                height as int,
                (p.0 as int, p.1 as int),
            ),
{
    let cols = columns(map);
    climb(map, cols, location, height)
}

/// Adds to `into` the places of `from` that it does not hold yet.
fn absorb(into: &mut Vec<(usize, usize)>, from: &Vec<(usize, usize)>)
    requires
        old(into)@.no_duplicates(),
    ensures
        final(into)@.no_duplicates(),
        forall|p: (usize, usize)|
            #![all_triggers]
            final(into)@.contains(p) <==> old(into)@.contains(p) || from@.contains(p),
{
    let ghost start = into@;
    let mut i: usize = 0;
    while i < from.len()
        invariant
            i <= from.len(),
            into@.no_duplicates(),
            forall|p: (usize, usize)|
                #![all_triggers]
                into@.contains(p) <==> start.contains(p) || from@.take(i as int).contains(p),
        decreases from.len() - i,
    {
        let ghost before = into@;
        let ghost seen = from@.take(i as int);
        let ghost next = from@.take(i + 1);
        let place = from[i];
        proof {
            assert(next =~= seen.push(place));
            assert(next[i as int] == place);
            assert forall|p: (usize, usize)|
                #![all_triggers]
                next.contains(p) <==> seen.contains(p) || p == place by {
                if seen.contains(p) {
                    let j = choose|j: int| 0 <= j < seen.len() && seen[j] == p;
                    assert(next[j] == p);
                }
                if next.contains(p) {
                    let j = choose|j: int| 0 <= j < next.len() && next[j] == p;
                    if j < i {
                        assert(seen[j] == p);
                    }
                }
            }
        }
        if !has_place(into, place) {
            into.push(place);
            proof {
                assert(into@ == before.push(place));
                assert(into@[before.len() as int] == place);
                assert forall|p: (usize, usize)|
                    #![all_triggers]
                    into@.contains(p) <==> before.contains(p) || p == place by {
                    if before.contains(p) {
                        let j = choose|j: int| 0 <= j < before.len() && before[j] == p;
                        assert(into@[j] == p);
                    }
                    if into@.contains(p) {
                        let j = choose|j: int| 0 <= j < into@.len() && into@[j] == p;
                        if j < before.len() {
                            assert(before[j] == p);
                        }
                    }
                }
            }
        }
        i += 1;
    }
    assert(from@.take(from.len() as int) =~= from@);
}

fn climb(map: &Array2D<u32>, cols: usize, location: (usize, usize), height: u32) -> (tops: Vec<
    (usize, usize),
>)
    requires
        rectangular(height_cells(*map), cols as int),
    ensures
        tops@.no_duplicates(),
        forall|p: (usize, usize)|
            tops@.contains(p) <==> climbs_to(
                height_cells(*map),
                cols as int,
                (location.0 as int, location.1 as int),
                height as int,
                (p.0 as int, p.1 as int),
            ),
    decreases 9 - height,
{
    let ghost cells = height_cells(*map);
    let ghost at = (location.0 as int, location.1 as int);
    let mut tops: Vec<(usize, usize)> = Vec::new();
    if height >= 9 {
        if height == 9 {
            tops.push(location);
            assert(tops@[0] == location);
            assert forall|p: (usize, usize)| tops@.contains(p) <==> climbs_to(
                cells,
                cols as int,
                at,
                height as int,
                (p.0 as int, p.1 as int),
            ) by {
                if tops@.contains(p) {
                    let j = choose|j: int| 0 <= j < tops@.len() && tops@[j] == p;
                }
            }
        }
        return tops;
    }
    let mut k: usize = 0;
    while k < 4
        invariant
            k <= 4,
            height < 9,
            cells == height_cells(*map),
            at == (location.0 as int, location.1 as int),
            rectangular(cells, cols as int),
            tops@.no_duplicates(),
            forall|p: (usize, usize)|
                tops@.contains(p) <==> exists|j: int|
                    0 <= j < k && (#[trigger] uphill(cells, cols as int, at, j, height + 1)).is_some()
                        && climbs_to(
                        cells,
                        cols as int,
                        uphill(cells, cols as int, at, j, height + 1).unwrap(),
                        height + 1,
                        (p.0 as int, p.1 as int),
                    ),
        decreases 4 - k,
    {
        let ghost before = tops@;
        match step_up(map, cols, location, k, height + 1) {
            Some(q) => {
                let more = climb(map, cols, q, height + 1);
                absorb(&mut tops, &more);
            },
            None => {},
        }
        k += 1;
    }
    tops
}

/// The number of trails from `location`, taken to have the height `height`,
/// up to a cell of height 9; `None` where it does not fit in 64 bits.
pub fn count_all_paths(map: &Array2D<u32>, location: (usize, usize), height: u32) -> (count: Option<
    u64,
>)
    ensures
        fits(
            count,
            rating(
                height_cells(*map),
                width(height_cells(*map)),
                (location.0 as int, location.1 as int),
                height as int,
            ) as int,
        ),
{
    let cols = columns(map);
    rate(map, cols, location, height).to_option()
}

fn rate(map: &Array2D<u32>, cols: usize, location: (usize, usize), height: u32) -> (count: CheckedU64)
    requires
        rectangular(height_cells(*map), cols as int),
    ensures
        count@ == rating(
            height_cells(*map),
            cols as int,
            (location.0 as int, location.1 as int),
            height as int,
        ),
    decreases 9 - height,
{
    if height >= 9 {
        return if height == 9 {
            CheckedU64::new(1)
        } else {
            CheckedU64::new(0)
        };
    }
    let ghost cells = height_cells(*map);
    let ghost at = (location.0 as int, location.1 as int);
    let mut count = CheckedU64::new(0);
    let mut k: usize = 0;
    while k < 4
        invariant
            k <= 4,
            height < 9,
            cells == height_cells(*map),
            at == (location.0 as int, location.1 as int),
            rectangular(cells, cols as int),
            count@ == rating_among(cells, cols as int, at, height as int, k as int),
        decreases 4 - k,
    {
        match step_up(map, cols, location, k, height + 1) {
            Some(q) => {
                let more = rate(map, cols, q, height + 1);
                count = count.add_checked(&more);
            },
            None => {},
        }
        k += 1;
    }
    count
}

/// The places in `row`, before column `upto`, of height 0.
pub open spec fn heads_in_row(row: Seq<u32>, r: int, upto: int) -> Seq<(usize, usize)>
    decreases upto,
{
    if upto <= 0 {
        seq![]
    } else if row[upto - 1] == 0 {
        heads_in_row(row, r, upto - 1).push((r as usize, (upto - 1) as usize))
    } else {
        heads_in_row(row, r, upto - 1)
    }
}

/// The places of height 0 in the rows before `upto`, in reading order.
pub open spec fn heads(cells: Seq<Seq<u32>>, upto: int) -> Seq<(usize, usize)>
    decreases upto,
{
    if upto <= 0 {
        seq![]
    } else {
        heads(cells, upto - 1) + heads_in_row(cells[upto - 1], upto - 1, cells[upto - 1].len() as int)
    }
}

/// The places of height 0, where trails start, in reading order.
pub fn find_trailheads(map: &Array2D<u32>) -> (places: Vec<(usize, usize)>)
    ensures
        places@ == heads(height_cells(*map), height_cells(*map).len() as int),
{
    let ghost cells = height_cells(*map);
    let rows = height_rows(map);
    let cols = height_columns(map);
    let mut places: Vec<(usize, usize)> = Vec::new();
    let mut r: usize = 0;
    while r < rows
        invariant
            r <= rows,
            cells == height_cells(*map),
            rows == cells.len(),
            rectangular(cells, cols as int),
            places@ == heads(cells, r as int),
        decreases rows - r,
    {
        let ghost before = places@;
        let mut c: usize = 0;
        while c < cols
            invariant
                r < rows,
                c <= cols,
                cells == height_cells(*map),
                rows == cells.len(),
                rectangular(cells, cols as int),
                places@ == before + heads_in_row(cells[r as int], r as int, c as int),
            decreases cols - c,
        {
            let cell = height_at(map, r, c);
            assert(cell == Some(cells[r as int][c as int]));
            if cell == Some(0) {
                places.push((r, c));
            }
            assert(places@ =~= before + heads_in_row(cells[r as int], r as int, c + 1));
            c += 1;
        }
        r += 1;
    }
    places
}

} // verus!
