//! A race track with a single route from start to end, and the shortcuts
//! that a racer may take between two places of the route.

use crate::arith::{count_true, fits, lemma_count_bound, lemma_count_set, one_if};
use crate::grid::{
    cell_at, content_at, content_cells, content_columns, content_rows, find_start,
    is_first_start, lemma_index_of_cell, manhattan, manhattan_spec, no_start, rectangular, step,
    step_spec, width, Direction, MapContent,
};
use array2d::Array2D;
use vstd::arithmetic::overflow::CheckedU64;
use vstd::prelude::*;

verus! {

/// The order in which the directions are tried: east, west, south, north.
pub open spec fn try_order(k: int) -> Direction {
    if k == 0 {
        Direction::East
    } else if k == 1 {
        Direction::West
    } else if k == 2 {
        Direction::South
    } else {
        Direction::North
    }
}

/// The cell that direction number `k` leads to from `at`, where that cell
/// is on the map, is not the cell the racer came from, and is no wall.
pub open spec fn onward(
    cells: Seq<Seq<MapContent>>,
    at: (int, int),
    previous: (int, int),
    k: int,
) -> Option<(int, int)> {
    match step_spec(at, try_order(k), cells.len() as int, width(cells)) {
        Some(q) => if q != previous && cells[q.0][q.1] != MapContent::Wall {
            Some(q)
        } else {
            None
        },
        None => None,
    }
}

/// The cell that the racer moves to: the first that the directions, tried
/// in order, lead to.
pub open spec fn next_cell(cells: Seq<Seq<MapContent>>, at: (int, int), previous: (int, int)) -> Option<
    (int, int),
> {
    if onward(cells, at, previous, 0).is_some() {
        onward(cells, at, previous, 0)
    } else if onward(cells, at, previous, 1).is_some() {
        onward(cells, at, previous, 1)
    } else if onward(cells, at, previous, 2).is_some() {
        onward(cells, at, previous, 2)
    } else {
        onward(cells, at, previous, 3)
    }
}

/// The cell holds `End`.
pub open spec fn at_end(cells: Seq<Seq<MapContent>>, at: (int, int)) -> bool {
    cell_at(cells, at.0, at.1) == Some(MapContent::End)
}

/// Where the racer is after `n` moves from `start`, and where it was before
/// the last move. On the end cell, and where no move is possible, it stays.
pub open spec fn walk(cells: Seq<Seq<MapContent>>, start: (int, int), n: nat) -> (
    (int, int),
    (int, int),
)
    decreases n,
{
    if n == 0 {
        (start, start)
    } else {
        let (at, previous) = walk(cells, start, (n - 1) as nat);
        if at_end(cells, at) {
            (at, previous)
        } else {
            match next_cell(cells, at, previous) {
                Some(q) => (q, at),
                None => (at, previous),
            }
        }
    }
}

/// `route` lists the cells of the walk from `start` up to the first time it
/// stands on the end cell.
pub open spec fn is_route(cells: Seq<Seq<MapContent>>, start: (int, int), route: Seq<(usize, usize)>) -> bool {
    &&& route.len() >= 1
    &&& forall|n: int|
        0 <= n < route.len() ==> (#[trigger] route[n].0 as int, route[n].1 as int) == walk(
            cells,
            start,
            n as nat,
        ).0
    &&& forall|n: int|
        0 <= n < route.len() - 1 ==> !at_end(cells, #[trigger] walk(cells, start, n as nat).0)
    &&& at_end(cells, walk(cells, start, (route.len() - 1) as nat).0)
}

/// The walk from `start` never stands on the end cell.
pub open spec fn never_ends(cells: Seq<Seq<MapContent>>, start: (int, int)) -> bool {
    forall|n: nat| !at_end(cells, #[trigger] walk(cells, start, n).0)
}

/// The number that tells where the cell before lies: 0 to 3 for the cell
/// above, to the right, below and to the left, 4 for the cell itself, as at
/// the start, and 5 for any other cell.
pub open spec fn coming_from(at: (int, int), previous: (int, int)) -> int {
    if previous == at {
        4
    } else if previous == (at.0 - 1, at.1) {
        0
    } else if previous == (at.0, at.1 + 1) {
        1
    } else if previous == (at.0 + 1, at.1) {
        2
    } else if previous == (at.0, at.1 - 1) {
        3
    } else {
        5
    }
}

/// The number of a state of the racer on a map with `columns` columns.
pub open spec fn racer_key(columns: int, state: ((int, int), (int, int))) -> int {
    (state.0.0 * columns + state.0.1) * 5 + coming_from(state.0, state.1)
}

/// The racer stands on the map, on the cell before or next to it.
pub open spec fn sound_state(cells: Seq<Seq<MapContent>>, state: ((int, int), (int, int))) -> bool {
    cell_at(cells, state.0.0, state.0.1).is_some() && coming_from(state.0, state.1) <= 4
}

/// The number of states of the racer: five for every cell.
pub open spec fn state_limit(cells: Seq<Seq<MapContent>>) -> int {
    cells.len() * width(cells) * 5
}

proof fn lemma_walk_is_sound(cells: Seq<Seq<MapContent>>, start: (int, int), n: nat)
    requires
        cell_at(cells, start.0, start.1).is_some(),
        rectangular(cells, width(cells)),
    ensures
        sound_state(cells, walk(cells, start, n)),
    decreases n,
{
    if n > 0 {
        lemma_walk_is_sound(cells, start, (n - 1) as nat);
        let (at, previous) = walk(cells, start, (n - 1) as nat);
        if !at_end(cells, at) {
            match next_cell(cells, at, previous) {
                Some(q) => {
                    assert(cells[q.0].len() == width(cells));
                },
                None => {},
            }
        }
    }
}

proof fn lemma_key_tells_apart(
    rows: int,
    columns: int,
    a: ((int, int), (int, int)),
    b: ((int, int), (int, int)),
)
    requires
        0 <= a.0.0 < rows,
        0 <= a.0.1 < columns,
        0 <= b.0.0 < rows,
        0 <= b.0.1 < columns,
        coming_from(a.0, a.1) <= 4,
        coming_from(b.0, b.1) <= 4,
        racer_key(columns, a) == racer_key(columns, b),
    ensures
        a == b,
{
    lemma_index_of_cell(a.0.0, a.0.1, rows, columns);
    lemma_index_of_cell(b.0.0, b.0.1, rows, columns);
}

proof fn lemma_same_onward(cells: Seq<Seq<MapContent>>, start: (int, int), i: nat, j: nat, k: nat)
    requires
        walk(cells, start, i) == walk(cells, start, j),
    ensures
        walk(cells, start, i + k) == walk(cells, start, j + k),
    decreases k,
{
    if k > 0 {
        lemma_same_onward(cells, start, i, j, (k - 1) as nat);
    }
}

/// Every state that the racer ever is in, it is in before move `bound`,
/// where its state after `bound` moves is one it was in before.
proof fn lemma_nothing_new(cells: Seq<Seq<MapContent>>, start: (int, int), bound: nat, m: nat) -> (early: nat)
    requires
        exists|i: nat| i < bound && #[trigger] walk(cells, start, i) == walk(cells, start, bound),
    ensures
        early < bound,
        walk(cells, start, early) == walk(cells, start, m),
    decreases m,
{
    if m < bound {
        m
    } else {
        let i = choose|i: nat| i < bound && #[trigger] walk(cells, start, i) == walk(cells, start, bound);
        lemma_same_onward(cells, start, i, bound, (m - bound) as nat);
        lemma_nothing_new(cells, start, bound, (i + (m - bound)) as nat)
    }
}

/// A racer that is in the same state twice without having reached the end
/// never reaches it.
proof fn lemma_round_and_round(cells: Seq<Seq<MapContent>>, start: (int, int), bound: nat)
    requires
        exists|i: nat| i < bound && #[trigger] walk(cells, start, i) == walk(cells, start, bound),
        forall|n: nat| n < bound ==> !at_end(cells, #[trigger] walk(cells, start, n).0),
    ensures
        never_ends(cells, start),
{
    assert forall|m: nat| !at_end(cells, #[trigger] walk(cells, start, m).0) by {
        let early = lemma_nothing_new(cells, start, bound, m);
    }
}

fn unseen(count: usize) -> (list: Vec<bool>)
    ensures
        list.len() == count,
        forall|k: int| 0 <= k < count ==> !list[k],
        count_true(list@) == 0,
{
    let mut list: Vec<bool> = Vec::new();
    let mut k: usize = 0;
    while k < count
        invariant
            k <= count,
            list.len() == k,
            forall|j: int| 0 <= j < k ==> !list[j],
            count_true(list@) == 0,
        decreases count - k,
    {
        let ghost before = list@;
        list.push(false);
        assert(list@.drop_last() =~= before);
        k += 1;
    }
    list
}

fn try_direction(k: usize) -> (d: Direction)
    requires
        k < 4,
    ensures
        d == try_order(k as int),
{
    if k == 0 {
        Direction::East
    } else if k == 1 {
        Direction::West
    } else if k == 2 {
        Direction::South
    } else {
        Direction::North
    }
}

fn move_on(map: &Array2D<MapContent>, at: (usize, usize), previous: (usize, usize)) -> (to: Option<
    (usize, usize),
>)
    requires
        cell_at(content_cells(*map), at.0 as int, at.1 as int).is_some(),
    ensures
        match to {
            Some(q) => next_cell(
                content_cells(*map),
                (at.0 as int, at.1 as int),
                (previous.0 as int, previous.1 as int),
            ) == Some((q.0 as int, q.1 as int)) && cell_at(
                content_cells(*map),
                q.0 as int,
                q.1 as int,
            ).is_some(),
            None => next_cell(
                content_cells(*map),
                (at.0 as int, at.1 as int),
                (previous.0 as int, previous.1 as int),
            ).is_none(),
        },
{
    let ghost cells = content_cells(*map);
    let rows = content_rows(map);
    let cols = content_columns(map);
    let mut k: usize = 0;
    while k < 4
        invariant
            k <= 4,
            cells == content_cells(*map),
            rows == cells.len(),
            rows > 0,
            cols == width(cells),
            rectangular(cells, cols as int),
            forall|j: int|
                0 <= j < k ==> (#[trigger] onward(
                    cells,
                    (at.0 as int, at.1 as int),
                    (previous.0 as int, previous.1 as int),
                    j,
                )).is_none(),
        decreases 4 - k,
    {
        match step(at, try_direction(k), rows, cols) {
            Some(q) => {
                let there = content_at(map, q.0, q.1);
                if !(q.0 == previous.0 && q.1 == previous.1) && there != Some(MapContent::Wall) {
                    return Some(q);
                }
            },
            None => {},
        }
        k += 1;
    }
    None
}

/// The number that tells where the cell before lies.
fn came_from(at: (usize, usize), previous: (usize, usize)) -> (code: usize)
    requires
        coming_from((at.0 as int, at.1 as int), (previous.0 as int, previous.1 as int)) <= 4,
    ensures
        code == coming_from((at.0 as int, at.1 as int), (previous.0 as int, previous.1 as int)),
{
    if previous.0 == at.0 && previous.1 == at.1 {
        4
    } else if previous.1 == at.1 && previous.0 < at.0 {
        0
    } else if previous.0 == at.0 && previous.1 > at.1 {
        1
    } else if previous.1 == at.1 {
        2
    } else {
        3
    }
}

/// The route from the start cell to the end cell: from the first start cell
/// in reading order the racer moves, at every cell, to the first neighbour
/// in the order east, west, south, north that is on the map, is no wall and
/// is not the cell it came from.
///
/// `None` where the map has no start cell, or where the racer never
/// reaches the end cell: it comes to a cell from which it cannot move on,
/// or it goes round in a circle.
pub fn initial_path(map: &Array2D<MapContent>) -> (route: Option<Vec<(usize, usize)>>)
    requires
        state_limit(content_cells(*map)) <= usize::MAX,
    ensures
        match route {
            Some(route) => is_first_start(
                content_cells(*map),
                route[0].0 as int,
                route[0].1 as int,
            ) && is_route(content_cells(*map), (route[0].0 as int, route[0].1 as int), route@),
            None => no_start(content_cells(*map)) || exists|r: int, c: int|
                is_first_start(content_cells(*map), r, c) && #[trigger] never_ends(
                    content_cells(*map),
                    (r, c),
                ),
        },
{
    let ghost cells = content_cells(*map);
    let start = match find_start(map) {
        Some(p) => p,
        None => {
            return None;
        },
    };
    let ghost origin = (start.0 as int, start.1 as int);
    let rows = content_rows(map);
    let cols = content_columns(map);
    assert(rows * cols <= rows * cols * 5) by (nonlinear_arith)
        requires
            rows >= 0,
            cols >= 0,
    ;
    let mut seen = unseen(rows * cols * 5);
    let mut route: Vec<(usize, usize)> = Vec::new();
    let mut at = start;
    let mut previous = start;
    route.push(at);
    let ghost mut moves: nat = 0;
    let ghost mut first_at: Seq<nat> = Seq::new(seen.len() as nat, |k: int| 0nat);
    loop
        invariant
            cells == content_cells(*map),
            rows == cells.len(),
            rows > 0,
            cols > 0,
            cols == width(cells),
            rectangular(cells, cols as int),
            rows * cols * 5 <= usize::MAX,
            seen.len() == rows * cols * 5,
            first_at.len() == seen.len(),
            route.len() == moves + 1,
            route[0] == start,
            origin == (start.0 as int, start.1 as int),
            is_first_start(cells, origin.0, origin.1),
            cell_at(cells, at.0 as int, at.1 as int).is_some(),
            walk(cells, origin, moves) == (
                (at.0 as int, at.1 as int),
                (previous.0 as int, previous.1 as int),
            ),
            forall|n: int|
                0 <= n < route.len() ==> (#[trigger] route[n].0 as int, route[n].1 as int) == walk(
                    cells,
                    origin,
                    n as nat,
                ).0,
            forall|n: nat| n < moves ==> !at_end(cells, #[trigger] walk(cells, origin, n).0),
            forall|n: nat|
                n < moves ==> 0 <= racer_key(cols as int, #[trigger] walk(cells, origin, n))
                    < seen.len() && seen[racer_key(cols as int, walk(cells, origin, n))],
            forall|k: int|
                0 <= k < seen.len() && seen[k] ==> (#[trigger] first_at[k]) < moves && racer_key(
                    cols as int,
                    walk(cells, origin, first_at[k]),
                ) == k,
            count_true(seen@) == moves,
        decreases seen.len() - count_true(seen@),
    {
        let ghost now = walk(cells, origin, moves);
        let here = content_at(map, at.0, at.1);
        if here == Some(MapContent::End) {
            proof {
                assert(at_end(cells, walk(cells, origin, (route.len() - 1) as nat).0));
                assert(is_route(cells, origin, route@));
            }
            return Some(route);
        }
        proof {
            lemma_walk_is_sound(cells, origin, moves);
            lemma_index_of_cell(at.0 as int, at.1 as int, rows as int, cols as int);
            lemma_count_bound(seen@);
        }
        let key = (at.0 * cols + at.1) * 5 + came_from(at, previous);
        assert(key == racer_key(cols as int, now));
        if seen[key] {
            proof {
                let i = first_at[key as int];
                lemma_walk_is_sound(cells, origin, i);
                lemma_key_tells_apart(rows as int, cols as int, walk(cells, origin, i), now);
                lemma_round_and_round(cells, origin, moves);
            }
            return None;
        }
        let ghost seen0 = seen@;
        seen.set(key, true);
        proof {
            lemma_count_set(seen0, key as int);
            assert(seen@ =~= seen0.update(key as int, true));
            lemma_count_bound(seen@);
            first_at = first_at.update(key as int, moves);
            assert(walk(cells, origin, moves + 1) == match next_cell(cells, now.0, now.1) {
                Some(q) => (q, now.0),
                None => now,
            });
        }
        match move_on(map, at, previous) {
            Some(q) => {
                previous = at;
                at = q;
            },
            None => {
                proof {
                    assert(walk(cells, origin, moves + 1) == walk(cells, origin, moves));
                    assert forall|n: nat| n < moves + 1 implies !at_end(
                        cells,
                        #[trigger] walk(cells, origin, n).0,
                    ) by {}
                    lemma_round_and_round(cells, origin, moves + 1);
                }
                return None;
            },
        }
        route.push(at);
        proof {
            moves = moves + 1;
        }
    }
}

/// Places `i` and `j` of the path are at most `reach` apart, and going
/// straight from one to the other saves at least `saving` moves.
pub open spec fn is_shortcut(path: Seq<(usize, usize)>, reach: int, saving: int, i: int, j: int) -> bool {
    let apart = manhattan_spec(
        (path[i].0 as int, path[i].1 as int),
        (path[j].0 as int, path[j].1 as int),
    );
    apart <= reach && (j - i) - apart >= saving
}

/// The number of shortcuts from place `i` to the places after it and below
/// `upto`.
pub open spec fn shortcuts_from(
    path: Seq<(usize, usize)>,
    reach: int,
    saving: int,
    i: int,
    upto: int,
) -> int
    decreases upto - i,
{
    if upto <= i + 1 {
        0
    } else {
        shortcuts_from(path, reach, saving, i, upto - 1) + one_if(
            is_shortcut(path, reach, saving, i, upto - 1),
        )
    }
}

/// The number of shortcuts that start at a place below `upto`.
pub open spec fn shortcuts(path: Seq<(usize, usize)>, reach: int, saving: int, upto: int) -> int
    decreases upto,
{
    if upto <= 0 {
        0
    } else {
        shortcuts(path, reach, saving, upto - 1) + shortcuts_from(
            path,
            reach,
            saving,
            upto - 1,
            path.len() as int,
        )
    }
}

/// The number of pairs of places `i < j` of the path that are at most
/// `reach` apart in Manhattan distance and whose direct connection saves at
/// least `saving` moves; `None` where the number does not fit in 64 bits.
pub fn find_shortcuts(path: &Vec<(usize, usize)>, reach: usize, saving: usize) -> (count: Option<u64>)
    ensures
        fits(count, shortcuts(path@, reach as int, saving as int, path.len() as int)),
{
    let mut count = CheckedU64::new(0);
    let mut i: usize = 0;
    while i < path.len()
        invariant
            i <= path.len(),
            count@ == shortcuts(path@, reach as int, saving as int, i as int),
        decreases path.len() - i,
    {
        let mut found = CheckedU64::new(0);
        let mut j: usize = i + 1;
        while j < path.len()
            invariant
                i < j <= path.len(),
                found@ == shortcuts_from(path@, reach as int, saving as int, i as int, j as int),
            decreases path.len() - j,
        {
            let apart = manhattan(path[i], path[j]);
            if apart <= reach as u128 && (j - i) as u128 >= apart + saving as u128 {
                found = found.add_value(1);
            }
            j += 1;
        }
        count = count.add_checked(&found);
        i += 1;
    }
    count.to_option()
}

} // verus!
