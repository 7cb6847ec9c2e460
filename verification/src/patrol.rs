//! A guard on patrol: it walks straight on until an obstacle is in its way,
//! then turns right, and so on until it steps off the map, unless it comes
//! back to a place facing the way it faced there before and so walks in a
//! circle for ever.

use crate::arith::{count_true, lemma_count_bound, lemma_count_set, one_if};
use crate::grid::{
    cell_at, char_at, char_cells, char_columns, char_copy, char_put, char_rows,
    lemma_index_of_cell, rectangular, step, step_spec, turn_right, width, with_cell, Direction,
};
use array2d::Array2D;
use vstd::prelude::*;

verus! {

/// Where the guard stands and which way it faces.
pub type Stance = ((int, int), Direction);

/// The guard's next stance: one cell forward where that cell is free, a
/// quarter turn to the right where an obstacle stands there, and `None`
/// where the step leads off the map.
pub open spec fn advance(cells: Seq<Seq<char>>, s: Stance) -> Option<Stance> {
    match step_spec(s.0, s.1, cells.len() as int, width(cells)) {
        None => None,
        Some(q) => if cells[q.0][q.1] == '#' {
            Some((s.0, s.1.right()))
        } else {
            Some((q, s.1))
        },
    }
}

/// The guard's stance after `n` moves from `start`, where it first faces
/// north; `None` once it has left the map.
pub open spec fn patrol(cells: Seq<Seq<char>>, start: (int, int), n: nat) -> Option<Stance>
    decreases n,
{
    if n == 0 {
        Some((start, Direction::North))
    } else {
        match patrol(cells, start, (n - 1) as nat) {
            Some(s) => advance(cells, s),
            None => None,
        }
    }
}

/// The guard takes the same stance at two different times.
pub open spec fn repeats(cells: Seq<Seq<char>>, start: (int, int)) -> bool {
    exists|i: nat, j: nat|
        i < j && (#[trigger] patrol(cells, start, i)).is_some() && patrol(cells, start, i)
            == #[trigger] patrol(cells, start, j)
}

/// The guard is on the map up to move `n`, never in the same stance twice,
/// and leaves the map with the next move.
pub open spec fn leaves_after(cells: Seq<Seq<char>>, start: (int, int), n: nat) -> bool {
    &&& patrol(cells, start, n).is_some()
    &&& patrol(cells, start, n + 1).is_none()
    &&& forall|i: nat, j: nat|
        i < j <= n ==> #[trigger] patrol(cells, start, i) != #[trigger] patrol(cells, start, j)
}

/// The guard stands on cell `p` at some time.
pub open spec fn visits(cells: Seq<Seq<char>>, start: (int, int), p: (int, int)) -> bool {
    exists|n: nat| (#[trigger] patrol(cells, start, n)).is_some() && patrol(cells, start, n).unwrap().0 == p
}

/// What a patrol comes to: whether the guard walks in a circle, and the
/// cells it stands on at any time, each once, in the order of the first
/// visit.
pub struct Patrol {
    pub cycles: bool,
    pub visited: Vec<(usize, usize)>,
}

/// The number of a stance among the stances of a map with `columns`
/// columns.
pub open spec fn stance_key(columns: int, s: Stance) -> int {
    (s.0.0 * columns + s.0.1) * 4 + s.1.index()
}

/// The stance is on a map of `rows` by `columns` cells.
pub open spec fn on_map(rows: int, columns: int, s: Stance) -> bool {
    0 <= s.0.0 < rows && 0 <= s.0.1 < columns
}

proof fn lemma_key_tells_stances_apart(rows: int, columns: int, s: Stance, t: Stance)
    requires
        on_map(rows, columns, s),
        on_map(rows, columns, t),
        stance_key(columns, s) == stance_key(columns, t),
    ensures
        s == t,
{
    lemma_index_of_cell(s.0.0, s.0.1, rows, columns);
    lemma_index_of_cell(t.0.0, t.0.1, rows, columns);
}

proof fn lemma_key_in_range(rows: int, columns: int, s: Stance)
    requires
        on_map(rows, columns, s),
    ensures
        0 <= stance_key(columns, s) < rows * columns * 4,
        0 <= s.0.0 * columns + s.0.1 < rows * columns,
{
    lemma_index_of_cell(s.0.0, s.0.1, rows, columns);
}

/// Once off the map, the guard stays off it.
proof fn lemma_gone_stays_gone(cells: Seq<Seq<char>>, start: (int, int), n: nat, later: nat)
    requires
        patrol(cells, start, n).is_none(),
        n <= later,
    ensures
        patrol(cells, start, later).is_none(),
    decreases later,
{
    if later > n {
        lemma_gone_stays_gone(cells, start, n, (later - 1) as nat);
    }
}

/// From two times with the same stance on, the guard does the same.
proof fn lemma_same_onward(cells: Seq<Seq<char>>, start: (int, int), i: nat, j: nat, k: nat)
    requires
        patrol(cells, start, i) == patrol(cells, start, j),
    ensures
        patrol(cells, start, i + k) == patrol(cells, start, j + k),
    decreases k,
{
    if k > 0 {
        lemma_same_onward(cells, start, i, j, (k - 1) as nat);
    }
}

/// Every stance that the guard ever takes, it takes before time `bound`,
/// where either it has left the map by then or its stance at that time is
/// one it took before.
proof fn lemma_nothing_new(cells: Seq<Seq<char>>, start: (int, int), bound: nat, m: nat) -> (early: nat)
    requires
        patrol(cells, start, bound).is_none() || exists|i: nat|
            i < bound && #[trigger] patrol(cells, start, i) == patrol(cells, start, bound),
        patrol(cells, start, m).is_some(),
    ensures
        early < bound,
        patrol(cells, start, early) == patrol(cells, start, m),
    decreases m,
{
    if m < bound {
        m
    } else if patrol(cells, start, bound).is_none() {
        lemma_gone_stays_gone(cells, start, bound, m);
        0
    } else {
        let i = choose|i: nat|
            i < bound && #[trigger] patrol(cells, start, i) == patrol(cells, start, bound);
        lemma_same_onward(cells, start, i, bound, (m - bound) as nat);
        lemma_nothing_new(cells, start, bound, (i + (m - bound)) as nat)
    }
}

fn flags(count: usize) -> (list: Vec<bool>)
    ensures
        list.len() == count,
        forall|k: int| 0 <= k < count ==> !list[k],
        count_true(list@) == 0,
{
    let mut list: Vec<bool> = Vec::new();
    let mut k: usize = 0;
    while k < count
        invariant
            k <= count,
            list.len() == k,
            forall|j: int| 0 <= j < k ==> !list[j],
            count_true(list@) == 0,
        decreases count - k,
    {
        let ghost before = list@;
        list.push(false);
        assert(list@.drop_last() =~= before);
        k += 1;
    }
    list
}

/// The number of stances of the map.
pub open spec fn stance_count(cells: Seq<Seq<char>>) -> int {
    cells.len() * width(cells) * 4
}

/// The number of a cell among the cells of a map with `columns` columns.
pub open spec fn cell_key(columns: int, p: (int, int)) -> int {
    p.0 * columns + p.1
}

/// The place of a stance as a pair of machine integers.
pub open spec fn place_of(s: Stance) -> (usize, usize) {
    (s.0.0 as usize, s.0.1 as usize)
}

/// What the walk has recorded so far agrees with the guard's first moves.
pub open spec fn recorded(
    cells: Seq<Seq<char>>,
    start: (int, int),
    rows: int,
    cols: int,
    trail: Seq<Stance>,
    visited: Seq<(usize, usize)>,
    visit_time: Seq<int>,
) -> bool {
    &&& forall|i: nat|
        i < trail.len() ==> #[trigger] patrol(cells, start, i) == Some(trail[i as int]) && on_map(
            rows,
            cols,
            trail[i as int],
        )
    &&& forall|i: int, j: int| 0 <= i < j < trail.len() ==> #[trigger] trail[i] != #[trigger] trail[j]
    &&& visited.no_duplicates()
    &&& visit_time.len() == visited.len()
    &&& forall|v: int|
        0 <= v < visited.len() ==> 0 <= #[trigger] visit_time[v] < trail.len() && place_of(
            trail[visit_time[v]],
        ) == visited[v]
    &&& forall|i: int| 0 <= i < trail.len() ==> visited.contains(place_of(#[trigger] trail[i]))
}

/// Follows the guard from `start`, where it faces north, until it leaves
/// the map or takes a stance for the second time.
pub fn walk(map: &Array2D<char>, start: (usize, usize)) -> (end: Patrol)
    requires
        stance_count(char_cells(*map)) <= usize::MAX,
        cell_at(char_cells(*map), start.0 as int, start.1 as int).is_some(),
    ensures
        end.cycles == repeats(char_cells(*map), (start.0 as int, start.1 as int)),
        !end.cycles ==> exists|n: nat| #[trigger]
            leaves_after(char_cells(*map), (start.0 as int, start.1 as int), n),
        end.visited@.no_duplicates(),
        forall|p: (usize, usize)|
            end.visited@.contains(p) <==> visits(
                char_cells(*map),
                (start.0 as int, start.1 as int),
                (p.0 as int, p.1 as int),
            ),
{
    let ghost cells = char_cells(*map);
    let ghost origin = (start.0 as int, start.1 as int);
    let rows = char_rows(map);
    let cols = char_columns(map);
    assert(rows * cols <= rows * cols * 4) by (nonlinear_arith)
        requires
            rows >= 0,
            cols >= 0,
    ;
    let mut seen = flags(rows * cols * 4);
    let mut cell_seen = flags(rows * cols);
    let mut visited: Vec<(usize, usize)> = Vec::new();
    let mut at = start;
    let mut facing = Direction::North;
    let ghost mut trail: Seq<Stance> = Seq::empty();
    let ghost mut visit_time: Seq<int> = Seq::empty();
    let ghost mut first_at: Seq<int> = Seq::new(seen.len() as nat, |k: int| 0);
    let ghost mut cell_first: Seq<int> = Seq::new(cell_seen.len() as nat, |k: int| 0);
    loop
        invariant
            cells == char_cells(*map),
            origin == (start.0 as int, start.1 as int),
            rows == cells.len(),
            cols == width(cells),
            rows > 0,
            cols > 0,
            rectangular(cells, cols as int),
            rows * cols * 4 <= usize::MAX,
            seen.len() == rows * cols * 4,
            cell_seen.len() == rows * cols,
            first_at.len() == seen.len(),
            cell_first.len() == cell_seen.len(),
            on_map(rows as int, cols as int, ((at.0 as int, at.1 as int), facing)),
            patrol(cells, origin, trail.len()) == Some(((at.0 as int, at.1 as int), facing)),
            recorded(cells, origin, rows as int, cols as int, trail, visited@, visit_time),
            forall|i: int|
                0 <= i < trail.len() ==> 0 <= #[trigger] stance_key(cols as int, trail[i])
                    < seen.len() && seen[stance_key(cols as int, trail[i])],
            forall|k: int|
                0 <= k < seen.len() && seen[k] ==> 0 <= #[trigger] first_at[k] < trail.len()
                    && stance_key(cols as int, trail[first_at[k]]) == k,
            count_true(seen@) == trail.len(),
            forall|i: int|
                0 <= i < trail.len() ==> 0 <= #[trigger] cell_key(cols as int, trail[i].0)
                    < cell_seen.len() && cell_seen[cell_key(cols as int, trail[i].0)],
            forall|k: int|
                0 <= k < cell_seen.len() && cell_seen[k] ==> 0 <= #[trigger] cell_first[k]
                    < trail.len() && cell_key(cols as int, trail[cell_first[k]].0) == k,
        decreases seen.len() - count_true(seen@),
    {
        let ghost now: Stance = ((at.0 as int, at.1 as int), facing);
        let ghost trail0 = trail;
        proof {
            lemma_key_in_range(rows as int, cols as int, now);
            lemma_count_bound(seen@);
        }
        let cell = at.0 * cols + at.1;
        let key = cell * 4 + facing.number();
        assert(key == stance_key(cols as int, now));
        assert(cell == cell_key(cols as int, now.0));
        if seen[key] {
            proof {
                let i = first_at[key as int];
                assert(patrol(cells, origin, i as nat) == Some(trail[i]));
                lemma_key_tells_stances_apart(rows as int, cols as int, trail[i], now);
                assert(patrol(cells, origin, i as nat) == patrol(cells, origin, trail.len()));
                assert(repeats(cells, origin));
                lemma_visited_is_all(
                    cells,
                    origin,
                    rows as int,
                    cols as int,
                    trail,
                    visited@,
                    visit_time,
                );
            }
            return Patrol { cycles: true, visited };
        }
        proof {
            lemma_count_set(seen@, key as int);
            assert forall|i: int| 0 <= i < trail.len() implies trail[i] != now by {
                if trail[i] == now {
                    assert(seen[stance_key(cols as int, trail[i])]);
                }
            }
        }
        let ghost seen0 = seen@;
        seen.set(key, true);
        proof {
            assert(seen@ =~= seen0.update(key as int, true));
            assert(count_true(seen@) == count_true(seen0) + 1);
            lemma_count_bound(seen@);
            first_at = first_at.update(key as int, trail.len() as int);
            trail = trail.push(now);
        }
        if !cell_seen[cell] {
            cell_seen.set(cell, true);
            proof {
                assert forall|v: int| 0 <= v < visited.len() implies #[trigger] visited[v] != at by {
                    if visited[v] == at {
                        let t = visit_time[v];
                        assert(place_of(trail0[t]) == at);
                        assert(trail0[t].0 == now.0) by {
                            assert(patrol(cells, origin, t as nat) == Some(trail0[t as int]));
                        }
                        assert(cell_seen[cell_key(cols as int, trail0[t].0)]);
                    }
                }
            }
            let ghost before = visited@;
            visited.push(at);
            proof {
                cell_first = cell_first.update(cell as int, trail0.len() as int);
                visit_time = visit_time.push(trail0.len() as int);
                assert(visited@[before.len() as int] == at);
                assert forall|i: int| 0 <= i < trail.len() implies visited@.contains(
                    place_of(#[trigger] trail[i]),
                ) by {
                    if i < trail0.len() {
                        assert(trail[i] == trail0[i]);
                        assert(before.contains(place_of(trail0[i])));
                        let v = choose|v: int|
                            0 <= v < before.len() && before[v] == place_of(trail0[i]);
                        assert(visited@[v] == before[v]);
                    }
                }
                assert(recorded(cells, origin, rows as int, cols as int, trail, visited@, visit_time));
            }
        } else {
            proof {
                let t = cell_first[cell as int];
                assert(patrol(cells, origin, t as nat) == Some(trail0[t]));
                lemma_index_of_cell(trail0[t].0.0, trail0[t].0.1, rows as int, cols as int);
                lemma_index_of_cell(now.0.0, now.0.1, rows as int, cols as int);
                assert(trail0[t].0 == now.0);
                assert(visited@.contains(place_of(trail0[t])));
                assert forall|i: int| 0 <= i < trail.len() implies visited@.contains(
                    place_of(#[trigger] trail[i]),
                ) by {
                    if i < trail0.len() {
                        assert(trail[i] == trail0[i]);
                    }
                }
                assert(recorded(cells, origin, rows as int, cols as int, trail, visited@, visit_time));
            }
        }
        proof {
            assert(patrol(cells, origin, trail.len()) == advance(cells, now));
        }
        match step(at, facing, rows, cols) {
            None => {
                proof {
                    let n = (trail.len() - 1) as nat;
                    assert(patrol(cells, origin, n) == Some(now));
                    assert forall|i: nat, j: nat| i < j <= n implies #[trigger] patrol(
                        cells,
                        origin,
                        i,
                    ) != #[trigger] patrol(cells, origin, j) by {
                        assert(patrol(cells, origin, i) == Some(trail[i as int]));
                        assert(patrol(cells, origin, j) == Some(trail[j as int]));
                    }
                    assert(leaves_after(cells, origin, n));
                    lemma_leaver_never_repeats(cells, origin, n);
                    lemma_visited_is_all(
                        cells,
                        origin,
                        rows as int,
                        cols as int,
                        trail,
                        visited@,
                        visit_time,
                    );
                }
                return Patrol { cycles: false, visited };
            },
            Some(q) => {
                let there = char_at(map, q.0, q.1);
                assert(there == Some(cells[q.0 as int][q.1 as int]));
                if there == Some('#') {
                    facing = turn_right(facing);
                } else {
                    at = q;
                }
            },
        }
    }
}

/// A guard that leaves the map never takes a stance twice.
proof fn lemma_leaver_never_repeats(cells: Seq<Seq<char>>, start: (int, int), n: nat)
    requires
        leaves_after(cells, start, n),
    ensures
        !repeats(cells, start),
{
    if repeats(cells, start) {
        let (i, j) = choose|i: nat, j: nat|
            i < j && (#[trigger] patrol(cells, start, i)).is_some() && patrol(cells, start, i)
                == #[trigger] patrol(cells, start, j);
        if j > n {
            lemma_gone_stays_gone(cells, start, n + 1, j);
        }
    }
}

/// The list of visited cells holds every cell that the guard ever stands
/// on, once the trail has come to its end.
proof fn lemma_visited_is_all(
    cells: Seq<Seq<char>>,
    start: (int, int),
    rows: int,
    cols: int,
    trail: Seq<Stance>,
    visited: Seq<(usize, usize)>,
    visit_time: Seq<int>,
)
    requires
        0 < rows <= usize::MAX,
        0 < cols <= usize::MAX,
        patrol(cells, start, trail.len()).is_none() || exists|i: nat|
            i < trail.len() && #[trigger] patrol(cells, start, i) == patrol(
                cells,
                start,
                trail.len(),
            ),
        recorded(cells, start, rows, cols, trail, visited, visit_time),
    ensures
        forall|p: (usize, usize)|
            visited.contains(p) <==> visits(cells, start, (p.0 as int, p.1 as int)),
{
    assert forall|p: (usize, usize)| visited.contains(p) <==> visits(
        cells,
        start,
        (p.0 as int, p.1 as int),
    ) by {
        if visited.contains(p) {
            let v = choose|v: int| 0 <= v < visited.len() && visited[v] == p;
            let t = visit_time[v];
            assert(patrol(cells, start, t as nat) == Some(trail[t]));
        }
        if visits(cells, start, (p.0 as int, p.1 as int)) {
            let m = choose|m: nat|
                (#[trigger] patrol(cells, start, m)).is_some() && patrol(cells, start, m).unwrap().0
                    == (p.0 as int, p.1 as int);
            let early = lemma_nothing_new(cells, start, trail.len(), m);
            let s = trail[early as int];
            assert(patrol(cells, start, early) == Some(s));
            assert(visited.contains(place_of(s)));
        }
    }
}

/// Whether the guard, started at `initial_location` facing north, ever
/// takes the same stance twice and so walks in a circle.
pub fn test_for_cycle(map: &Array2D<char>, initial_location: (usize, usize)) -> (cycles: bool)
    requires
        stance_count(char_cells(*map)) <= usize::MAX,
        cell_at(
            char_cells(*map),
            initial_location.0 as int,
            initial_location.1 as int,
        ).is_some(),
    ensures
        cycles ==> repeats(
            char_cells(*map),
            (initial_location.0 as int, initial_location.1 as int),
        ),
        !cycles ==> exists|n: nat| #[trigger]
            leaves_after(
                char_cells(*map),
                (initial_location.0 as int, initial_location.1 as int),
                n,
            ),
        cycles == repeats(char_cells(*map), (initial_location.0 as int, initial_location.1 as int)),
{
    walk(map, initial_location).cycles
}

/// The cells that the guard, started at `initial_location` facing north,
/// ever stands on, each once.
pub fn find_locations(map: &Array2D<char>, initial_location: (usize, usize)) -> (visited: Vec<
    (usize, usize),
>)
    requires
        stance_count(char_cells(*map)) <= usize::MAX,
        cell_at(
            char_cells(*map),
            initial_location.0 as int,
            initial_location.1 as int,
        ).is_some(),
    ensures
        visited@.no_duplicates(),
        forall|p: (usize, usize)|
            visited@.contains(p) <==> visits(
                char_cells(*map),
                (initial_location.0 as int, initial_location.1 as int),
                (p.0 as int, p.1 as int),
            ),
{
    walk(map, initial_location).visited
}

/// The cell is neither free floor nor an obstacle.
pub open spec fn is_guard(cells: Seq<Seq<char>>, r: int, c: int) -> bool {
    match cell_at(cells, r, c) {
        Some(x) => x != '.' && x != '#',
        None => false,
    }
}

/// The first cell in reading order that is neither `.` nor `#`, if there is
/// one.
pub fn find_guard(map: &Array2D<char>) -> (place: Option<(usize, usize)>)
    ensures
        match place {
            Some(p) => is_guard(char_cells(*map), p.0 as int, p.1 as int) && forall|r: int, c: int|
                (r < p.0 || (r == p.0 && c < p.1)) ==> !#[trigger] is_guard(char_cells(*map), r, c),
            None => forall|r: int, c: int| !#[trigger] is_guard(char_cells(*map), r, c),
        },
{
    let rows = char_rows(map);
    let cols = char_columns(map);
    let ghost cells = char_cells(*map);
    let mut r: usize = 0;
    while r < rows
        invariant
            r <= rows,
            rows == cells.len(),
            rectangular(cells, cols as int),
            cells == char_cells(*map),
            forall|i: int, j: int| i < r ==> !#[trigger] is_guard(cells, i, j),
        decreases rows - r,
    {
        let mut c: usize = 0;
        while c < cols
            invariant
                r < rows,
                c <= cols,
                rows == cells.len(),
                rectangular(cells, cols as int),
                cells == char_cells(*map),
                forall|i: int, j: int| i < r ==> !#[trigger] is_guard(cells, i, j),
                forall|j: int| j < c ==> !#[trigger] is_guard(cells, r as int, j),
            decreases cols - c,
        {
            match char_at(map, r, c) {
                Some(x) => {
                    if x != '.' && x != '#' {
                        return Some((r, c));
                    }
                },
                None => {},
            }
            c += 1;
        }
        r += 1;
    }
    None
}

/// The number of cells that the guard starting at `start` visits: the
/// length of what `find_locations` returns.
pub fn part1(map: &Array2D<char>, start: (usize, usize)) -> (count: usize)
    requires
        stance_count(char_cells(*map)) <= usize::MAX,
        cell_at(char_cells(*map), start.0 as int, start.1 as int).is_some(),
    ensures
        exists|visited: Seq<(usize, usize)>|
            #![trigger visited.len()]
            visited.no_duplicates() && count == visited.len() && forall|p: (usize, usize)|
                visited.contains(p) <==> visits(
                    char_cells(*map),
                    (start.0 as int, start.1 as int),
                    (p.0 as int, p.1 as int),
                ),
{
    let visited = find_locations(map, start);
    assert(visited@.len() == visited.len());
    visited.len()
}

/// With an obstacle put on cell `p`, the guard walks in a circle.
pub open spec fn traps(cells: Seq<Seq<char>>, start: (int, int), p: (usize, usize)) -> bool {
    repeats(with_cell(cells, p.0 as int, p.1 as int, '#'), start)
}

/// The number of the first `upto` cells of the list, the start left out,
/// on which one more obstacle makes the guard walk in a circle.
pub open spec fn trap_count(cells: Seq<Seq<char>>, start: (int, int), places: Seq<(usize, usize)>, upto: int) -> int
    decreases upto,
{
    if upto <= 0 {
        0
    } else {
        trap_count(cells, start, places, upto - 1) + one_if(
            (places[upto - 1].0 as int, places[upto - 1].1 as int) != start && traps(
                cells,
                start,
                places[upto - 1],
            ),
        )
    }
}

/// The number of cells of `places`, the start left out, on which one more
/// obstacle makes the guard walk in a circle. The placements worth trying
/// are the cells that the guard visits on the map as it is.
pub fn count_traps(map: &Array2D<char>, start: (usize, usize), places: &Vec<(usize, usize)>) -> (count: usize)
    requires
        stance_count(char_cells(*map)) <= usize::MAX,
        cell_at(char_cells(*map), start.0 as int, start.1 as int).is_some(),
        forall|k: int|
            0 <= k < places.len() ==> cell_at(
                char_cells(*map),
                (#[trigger] places[k]).0 as int,
                places[k].1 as int,
            ).is_some(),
    ensures
        count == trap_count(
            char_cells(*map),
            (start.0 as int, start.1 as int),
            places@,
            places.len() as int,
        ),
{
    let ghost cells = char_cells(*map);
    let cols = char_columns(map);
    let mut count: usize = 0;
    let mut k: usize = 0;
    while k < places.len()
        invariant
            k <= places.len(),
            cells == char_cells(*map),
            rectangular(cells, cols as int),
            stance_count(cells) <= usize::MAX,
            cell_at(cells, start.0 as int, start.1 as int).is_some(),
            forall|j: int|
                0 <= j < places.len() ==> cell_at(
                    cells,
                    (#[trigger] places[j]).0 as int,
                    places[j].1 as int,
                ).is_some(),
            count <= k,
            count == trap_count(cells, (start.0 as int, start.1 as int), places@, k as int),
        decreases places.len() - k,
    {
        let place = places[k];
        if !(place.0 == start.0 && place.1 == start.1) {
            let mut blocked = char_copy(map);
            char_put(&mut blocked, place.0, place.1, '#');
            proof {
                let after = with_cell(cells, place.0 as int, place.1 as int, '#');
                assert(char_cells(blocked) == after);
                assert(after.len() == cells.len());
                assert(after[0].len() == cells[0].len());
                assert(cell_at(after, start.0 as int, start.1 as int).is_some());
            }
            if test_for_cycle(&blocked, start) {
                count += 1;
            }
        }
        k += 1;
    }
    count
}

/// The number of visited cells, the start left out, on which one more
/// obstacle makes the guard walk in a circle.
pub fn part2(map: &Array2D<char>, start: (usize, usize)) -> (count: usize)
    requires
        stance_count(char_cells(*map)) <= usize::MAX,
        cell_at(char_cells(*map), start.0 as int, start.1 as int).is_some(),
    ensures
        exists|visited: Seq<(usize, usize)>|
            #![trigger visited.len()]
            visited.no_duplicates() && (forall|p: (usize, usize)|
                visited.contains(p) <==> visits(
                    char_cells(*map),
                    (start.0 as int, start.1 as int),
                    (p.0 as int, p.1 as int),
                )) && count == trap_count(
                char_cells(*map),
                (start.0 as int, start.1 as int),
                visited,
                visited.len() as int,
            ),
{
    let visited = find_locations(map, start);
    let rows = char_rows(map);
    let cols = char_columns(map);
    proof {
        assert forall|k: int| 0 <= k < visited.len() implies cell_at(
            char_cells(*map),
            (#[trigger] visited[k]).0 as int,
            visited[k].1 as int,
        ).is_some() by {
            assert(visited@.contains(visited[k]));
            lemma_visited_is_on_map(char_cells(*map), (start.0 as int, start.1 as int), (visited[k].0 as int, visited[k].1 as int));
        }
    }
    let count = count_traps(map, start, &visited);
    assert(visited@.len() == visited.len());
    count
}

/// The guard stands on cells of the map only.
proof fn lemma_stance_is_on_map(cells: Seq<Seq<char>>, start: (int, int), n: nat)
    requires
        cell_at(cells, start.0, start.1).is_some(),
        patrol(cells, start, n).is_some(),
        rectangular(cells, width(cells)),
    ensures
        cell_at(
            cells,
            patrol(cells, start, n).unwrap().0.0,
            patrol(cells, start, n).unwrap().0.1,
        ).is_some(),
    decreases n,
{
    if n > 0 {
        lemma_stance_is_on_map(cells, start, (n - 1) as nat);
        let s = patrol(cells, start, (n - 1) as nat).unwrap();
        match step_spec(s.0, s.1, cells.len() as int, width(cells)) {
            Some(q) => {
                assert(cells[q.0].len() == width(cells));
            },
            None => {},
        }
    }
}

proof fn lemma_visited_is_on_map(cells: Seq<Seq<char>>, start: (int, int), p: (int, int))
    requires
        cell_at(cells, start.0, start.1).is_some(),
        visits(cells, start, p),
        rectangular(cells, width(cells)),
    ensures
        cell_at(cells, p.0, p.1).is_some(),
{
    let n = choose|n: nat|
        (#[trigger] patrol(cells, start, n)).is_some() && patrol(cells, start, n).unwrap().0 == p;
    lemma_stance_is_on_map(cells, start, n);
}

} // verus!
