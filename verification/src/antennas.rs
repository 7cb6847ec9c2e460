//! Antennas on a map, each tuned to the frequency that its character
//! names, and the antinodes that pairs of antennas of one frequency make.

use crate::arith::{lemma_multiple, lemma_negative_remainder, one_if};
use crate::grid::{cell_at, char_at, char_cells, char_columns, char_rows, rectangular, width};
use array2d::Array2D;
use vstd::prelude::*;

verus! {

/// Whether the place lies on a map of the given size.
pub fn check_location(location: &(i32, i32), map_size: &(i32, i32)) -> (inside: bool)
    ensures
        inside == (0 <= location.0 < map_size.0 && 0 <= location.1 < map_size.1),
{
    location.0 < map_size.0 && location.0 >= 0 && location.1 < map_size.1 && location.1 >= 0
}

/// An antenna stands at `a`.
pub open spec fn antenna(cells: Seq<Seq<char>>, a: (int, int)) -> bool {
    match cell_at(cells, a.0, a.1) {
        Some(x) => x != '.',
        None => false,
    }
}

/// Antennas of the same frequency stand at the two different places.
pub open spec fn paired(cells: Seq<Seq<char>>, a: (int, int), b: (int, int)) -> bool {
    antenna(cells, a) && a != b && cell_at(cells, b.0, b.1) == cell_at(cells, a.0, a.1)
}

/// The place that lies `k` times as far from `a` as `a` lies from `b`, on
/// the side away from `b`.
pub open spec fn beyond(a: (int, int), b: (int, int), k: int) -> (int, int) {
    (a.0 + k * (a.0 - b.0), a.1 + k * (a.1 - b.1))
}

/// `p` is an antinode of the pair of antennas at `a` and `b`: the place
/// beyond `a` that is as far from `a` as `b` is, or, with harmonics, any
/// place beyond `a` in steps of that distance, `a` itself among them.
pub open spec fn resonates(
    cells: Seq<Seq<char>>,
    p: (int, int),
    a: (int, int),
    b: (int, int),
    k: int,
    harmonics: bool,
) -> bool {
    &&& paired(cells, a, b)
    &&& p == beyond(a, b, k)
    &&& if harmonics {
        k >= 0
    } else {
        k == 1
    }
}

/// `p` is a place of the map and an antinode of some pair of antennas.
pub open spec fn is_antinode(cells: Seq<Seq<char>>, p: (int, int), harmonics: bool) -> bool {
    cell_at(cells, p.0, p.1).is_some() && exists|a: (int, int), b: (int, int), k: int|
        #[trigger] resonates(cells, p, a, b, k, harmonics)
}

/// The number of antinodes among the cells below number `upto`.
pub open spec fn antinodes(cells: Seq<Seq<char>>, harmonics: bool, upto: int) -> int
    decreases upto,
{
    if upto <= 0 {
        0
    } else {
        antinodes(cells, harmonics, upto - 1) + one_if(
            is_antinode(cells, ((upto - 1) / width(cells), (upto - 1) % width(cells)), harmonics),
        )
    }
}

/// Whether an antenna of the same frequency as the one at `a` stands at
/// the place with the given row and column.
fn same_frequency(map: &Array2D<char>, a: (usize, usize), row: i128, column: i128) -> (same: bool)
    requires
        antenna(char_cells(*map), (a.0 as int, a.1 as int)),
    ensures
        same == ((a.0 as int, a.1 as int) != (row as int, column as int) && paired(
            char_cells(*map),
            (a.0 as int, a.1 as int),
            (row as int, column as int),
        )),
{
    if row < 0 || column < 0 || row > usize::MAX as i128 || column > usize::MAX as i128 {
        let rows = char_rows(map);
        let cols = char_columns(map);
        return false;
    }
    if row as usize == a.0 && column as usize == a.1 {
        return false;
    }
    let here = char_at(map, a.0, a.1);
    let there = char_at(map, row as usize, column as usize);
    match (here, there) {
        (Some(x), Some(y)) => x == y,
        _ => false,
    }
}

/// Whether any other antenna has the frequency of the antenna at `a`.
fn has_partner(map: &Array2D<char>, a: (usize, usize)) -> (found: bool)
    requires
        antenna(char_cells(*map), (a.0 as int, a.1 as int)),
    ensures
        found == exists|b: (int, int)| #[trigger]
            paired(char_cells(*map), (a.0 as int, a.1 as int), b),
{
    let ghost cells = char_cells(*map);
    let ghost at = (a.0 as int, a.1 as int);
    let rows = char_rows(map);
    let cols = char_columns(map);
    let mut r: usize = 0;
    while r < rows
        invariant
            r <= rows,
            cells == char_cells(*map),
            at == (a.0 as int, a.1 as int),
            antenna(cells, at),
            rows == cells.len(),
            rectangular(cells, cols as int),
            forall|b: (int, int)| b.0 < r ==> !#[trigger] paired(cells, at, b),
        decreases rows - r,
    {
        let mut c: usize = 0;
        while c < cols
            invariant
                r < rows,
                c <= cols,
                cells == char_cells(*map),
                at == (a.0 as int, a.1 as int),
                antenna(cells, at),
                rows == cells.len(),
                rectangular(cells, cols as int),
                forall|b: (int, int)| b.0 < r ==> !#[trigger] paired(cells, at, b),
                forall|b: (int, int)| b.0 == r && b.1 < c ==> !#[trigger] paired(cells, at, b),
            decreases cols - c,
        {
            if same_frequency(map, a, r as i128, c as i128) {
                assert(paired(cells, at, (r as int, c as int)));
                return true;
            }
            c += 1;
        }
        r += 1;
    }
    false
}

proof fn lemma_multiple_is_far(k: int, d: int, v: int)
    by (nonlinear_arith)
    requires
        k >= 1,
        v == k * d,
        d != 0,
    ensures
        v >= k || -v >= k,
{
}

proof fn lemma_quotient(k: int, d: int, v: int, q: int)
    by (nonlinear_arith)
    requires
        k >= 1,
        v == d * k,
        v == k * q,
    ensures
        d == q,
{
}

/// `v / k` where `k` divides `v`.
fn exact_part(v: i128, k: i128) -> (q: Option<i128>)
    requires
        k >= 1,
        -0x1_0000_0000_0000_0000 <= v <= 0x1_0000_0000_0000_0000,
    ensures
        match q {
            Some(q) => v == k * q && -0x1_0000_0000_0000_0000 <= q <= 0x1_0000_0000_0000_0000,
            None => (v as int) % (k as int) != 0,
        },
{
    let magnitude: i128 = if v < 0 {
        -v
    } else {
        v
    };
    let part = magnitude / k;
    let rest = magnitude % k;
    proof {
        vstd::arithmetic::div_mod::lemma_fundamental_div_mod(magnitude as int, k as int);
        if v < 0 {
            lemma_negative_remainder(magnitude as int, k as int);
        }
    }
    if rest != 0 {
        return None;
    }
    assert(part <= magnitude) by (nonlinear_arith)
        requires
            magnitude == k * part,
            k >= 1,
            part >= 0,
    ;
    let q: i128 = if v < 0 {
        -part
    } else {
        part
    };
    assert(v == k * q) by (nonlinear_arith)
        requires
            magnitude == k * part,
            magnitude == if v < 0 {
                -v
            } else {
                v as int
            },
            q == if v < 0 {
                -part
            } else {
                part as int
            },
    ;
    Some(q)
}

/// Whether `p` is an antinode of the antenna at `a` with some partner.
fn resonates_with(map: &Array2D<char>, p: (usize, usize), a: (usize, usize), harmonics: bool) -> (found: bool)
    requires
        antenna(char_cells(*map), (a.0 as int, a.1 as int)),
    ensures
        found == exists|b: (int, int), k: int| #[trigger]
            resonates(
                char_cells(*map),
                (p.0 as int, p.1 as int),
                (a.0 as int, a.1 as int),
                b,
                k,
                harmonics,
            ),
{
    let ghost cells = char_cells(*map);
    let ghost at = (a.0 as int, a.1 as int);
    let ghost to = (p.0 as int, p.1 as int);
    let v0: i128 = p.0 as i128 - a.0 as i128;
    let v1: i128 = p.1 as i128 - a.1 as i128;
    if !harmonics {
        let found = same_frequency(map, a, a.0 as i128 - v0, a.1 as i128 - v1);
        proof {
            let b = (a.0 - v0, a.1 - v1);
            if found {
                assert(resonates(cells, to, at, b, 1, harmonics));
            }
            assert forall|b2: (int, int), k: int| !#[trigger] resonates(
                cells,
                to,
                at,
                b2,
                k,
                harmonics,
            ) || found by {
                if resonates(cells, to, at, b2, k, harmonics) {
                    assert(b2 == b);
                }
            }
        }
        return found;
    }
    if v0 == 0 && v1 == 0 {
        let found = has_partner(map, a);
        proof {
            if found {
                let b = choose|b: (int, int)| #[trigger] paired(cells, at, b);
                assert(resonates(cells, to, at, b, 0, harmonics));
            }
            assert forall|b: (int, int), k: int| !#[trigger] resonates(
                cells,
                to,
                at,
                b,
                k,
                harmonics,
            ) || found by {
                if resonates(cells, to, at, b, k, harmonics) {
                    assert(paired(cells, at, b));
                }
            }
        }
        return found;
    }
    let far0: i128 = if v0 < 0 {
        -v0
    } else {
        v0
    };
    let far1: i128 = if v1 < 0 {
        -v1
    } else {
        v1
    };
    let most: i128 = if far0 > far1 {
        far0
    } else {
        far1
    };
    let mut k: i128 = 1;
    while k <= most
        invariant
            1 <= k <= most + 1,
            most <= 0x1_0000_0000_0000_0000,
            harmonics,
            cells == char_cells(*map),
            at == (a.0 as int, a.1 as int),
            to == (p.0 as int, p.1 as int),
            antenna(cells, at),
            v0 == to.0 - at.0,
            v1 == to.1 - at.1,
            forall|b: (int, int), j: int|
                1 <= j < k ==> !#[trigger] resonates(cells, to, at, b, j, harmonics),
        decreases most + 1 - k,
    {
        let ghost mut step: (int, int) = (0, 0);
        let ghost mut whole = false;
        let mut hit = false;
        match (exact_part(v0, k), exact_part(v1, k)) {
            (Some(d0), Some(d1)) => {
                hit = same_frequency(map, a, a.0 as i128 - d0, a.1 as i128 - d1);
                proof {
                    step = (d0 as int, d1 as int);
                    whole = true;
                }
            },
            _ => {},
        }
        proof {
            let b = (at.0 - step.0, at.1 - step.1);
            assert(whole ==> v0 == k * step.0 && v1 == k * step.1);
            assert(!whole ==> (v0 as int) % (k as int) != 0 || (v1 as int) % (k as int) != 0);
            if hit {
                assert(to == beyond(at, b, k as int)) by (nonlinear_arith)
                    requires
                        v0 == k * step.0,
                        v1 == k * step.1,
                        v0 == to.0 - at.0,
                        v1 == to.1 - at.1,
                        b == (at.0 - step.0, at.1 - step.1),
                        to == (to.0, to.1),
                ;
                assert(resonates(cells, to, at, b, k as int, harmonics));
            } else {
                assert forall|b2: (int, int)| !#[trigger] resonates(
                    cells,
                    to,
                    at,
                    b2,
                    k as int,
                    harmonics,
                ) by {
                    if resonates(cells, to, at, b2, k as int, harmonics) {
                        let e0 = at.0 - b2.0;
                        let e1 = at.1 - b2.1;
                        assert(v0 == e0 * k && v1 == e1 * k) by (nonlinear_arith)
                            requires
                                to == beyond(at, b2, k as int),
                                v0 == to.0 - at.0,
                                v1 == to.1 - at.1,
                                e0 == at.0 - b2.0,
                                e1 == at.1 - b2.1,
                        ;
                        lemma_multiple(v0 as int, k as int, e0);
                        lemma_multiple(v1 as int, k as int, e1);
                        lemma_quotient(k as int, e0, v0 as int, step.0);
                        lemma_quotient(k as int, e1, v1 as int, step.1);
                        assert(b2 == b);
                    }
                }
            }
        }
        if hit {
            return true;
        }
        k += 1;
    }
    proof {
        assert forall|b: (int, int), j: int| !#[trigger] resonates(
            cells,
            to,
            at,
            b,
            j,
            harmonics,
        ) by {
            if resonates(cells, to, at, b, j, harmonics) {
                let e0 = at.0 - b.0;
                let e1 = at.1 - b.1;
                if j == 0 {
                    assert(v0 == 0 && v1 == 0) by (nonlinear_arith)
                        requires
                            to == beyond(at, b, j),
                            v0 == to.0 - at.0,
                            v1 == to.1 - at.1,
                            j == 0,
                    ;
                } else {
                    assert(v0 == j * e0 && v1 == j * e1) by (nonlinear_arith)
                        requires
                            to == beyond(at, b, j),
                            v0 == to.0 - at.0,
                            v1 == to.1 - at.1,
                            e0 == at.0 - b.0,
                            e1 == at.1 - b.1,
                    ;
                    if e0 != 0 {
                        lemma_multiple_is_far(j, e0, v0 as int);
                    } else {
                        lemma_multiple_is_far(j, e1, v1 as int);
                    }
                    assert(j <= most);
                }
            }
        }
    }
    false
}

/// Whether the place is an antinode.
pub fn antinode_at(map: &Array2D<char>, p: (usize, usize), harmonics: bool) -> (found: bool)
    ensures
        found == is_antinode(char_cells(*map), (p.0 as int, p.1 as int), harmonics),
{
    let ghost cells = char_cells(*map);
    let ghost to = (p.0 as int, p.1 as int);
    let rows = char_rows(map);
    let cols = char_columns(map);
    if char_at(map, p.0, p.1).is_none() {
        return false;
    }
    let mut r: usize = 0;
    while r < rows
        invariant
            r <= rows,
            cells == char_cells(*map),
            to == (p.0 as int, p.1 as int),
            rows == cells.len(),
            rectangular(cells, cols as int),
            cell_at(cells, to.0, to.1).is_some(),
            forall|a: (int, int), b: (int, int), k: int|
                a.0 < r ==> !#[trigger] resonates(cells, to, a, b, k, harmonics),
        decreases rows - r,
    {
        let mut c: usize = 0;
        while c < cols
            invariant
                r < rows,
                c <= cols,
                cells == char_cells(*map),
                to == (p.0 as int, p.1 as int),
                rows == cells.len(),
                rectangular(cells, cols as int),
                cell_at(cells, to.0, to.1).is_some(),
                forall|a: (int, int), b: (int, int), k: int|
                    a.0 < r ==> !#[trigger] resonates(cells, to, a, b, k, harmonics),
                forall|a: (int, int), b: (int, int), k: int|
                    a.0 == r && a.1 < c ==> !#[trigger] resonates(cells, to, a, b, k, harmonics),
            decreases cols - c,
        {
            let here = char_at(map, r, c);
            assert(here == Some(cells[r as int][c as int]));
            if here != Some('.') {
                if resonates_with(map, p, (r, c), harmonics) {
                    return true;
                }
            }
            c += 1;
        }
        r += 1;
    }
    false
}

fn count(map: &Array2D<char>, harmonics: bool) -> (found: usize)
    requires
        char_cells(*map).len() * width(char_cells(*map)) <= usize::MAX,
    ensures
        found == antinodes(
            char_cells(*map),
            harmonics,
            char_cells(*map).len() * width(char_cells(*map)),
        ),
{
    let ghost cells = char_cells(*map);
    let rows = char_rows(map);
    if rows == 0 {
        return 0;
    }
    let cols = char_columns(map);
    if cols == 0 {
        assert(cells.len() * width(cells) == 0) by (nonlinear_arith)
            requires
                width(cells) == 0,
        ;
        return 0;
    }
    let total = rows * cols;
    let mut found: usize = 0;
    let mut k: usize = 0;
    while k < total
        invariant
            k <= total,
            total == cells.len() * width(cells),
            cells == char_cells(*map),
            cols == width(cells),
            cols > 0,
            found <= k,
            found == antinodes(cells, harmonics, k as int),
        decreases total - k,
    {
        if antinode_at(map, (k / cols, k % cols), harmonics) {
            found += 1;
        }
        k += 1;
    }
    found
}

/// The number of places of the map that lie, for some pair of antennas of
/// one frequency, as far beyond one antenna as the other lies before it.
pub fn part1(map: &Array2D<char>) -> (found: usize)
    requires
        char_cells(*map).len() * width(char_cells(*map)) <= usize::MAX,
    ensures
        found == antinodes(
            char_cells(*map),
            false,
            char_cells(*map).len() * width(char_cells(*map)),
        ),
{
    count(map, false)
}

/// The number of places of the map that lie in line with a pair of
/// antennas of one frequency, at any whole multiple of their distance.
pub fn part2(map: &Array2D<char>) -> (found: usize)
    requires
        char_cells(*map).len() * width(char_cells(*map)) <= usize::MAX,
    ensures
        found == antinodes(
            char_cells(*map),
            true,
            char_cells(*map).len() * width(char_cells(*map)),
        ),
{
    count(map, true)
}

/// The places of the row, before column `upto`, that hold the character.
pub open spec fn tuned_in_row(row: Seq<char>, r: int, frequency: char, upto: int) -> Seq<(usize, usize)>
    decreases upto,
{
    if upto <= 0 {
        seq![]
    } else if row[upto - 1] == frequency {
        tuned_in_row(row, r, frequency, upto - 1).push((r as usize, (upto - 1) as usize))
    } else {
        tuned_in_row(row, r, frequency, upto - 1)
    }
}

/// The places in the rows before `upto` that hold the character, in
/// reading order.
pub open spec fn tuned(cells: Seq<Seq<char>>, frequency: char, upto: int) -> Seq<(usize, usize)>
    decreases upto,
{
    if upto <= 0 {
        seq![]
    } else {
        tuned(cells, frequency, upto - 1) + tuned_in_row(
            cells[upto - 1],
            upto - 1,
            frequency,
            cells[upto - 1].len() as int,
        )
    }
}

/// The places of the antennas of the given frequency, in reading order.
pub fn find_locations(map: &Array2D<char>, frequency: char) -> (places: Vec<(usize, usize)>)
    ensures
        places@ == tuned(char_cells(*map), frequency, char_cells(*map).len() as int),
{
    let ghost cells = char_cells(*map);
    let rows = char_rows(map);
    let cols = char_columns(map);
    let mut places: Vec<(usize, usize)> = Vec::new();
    let mut r: usize = 0;
    while r < rows
        invariant
            r <= rows,
            cells == char_cells(*map),
            rows == cells.len(),
            rectangular(cells, cols as int),
            places@ == tuned(cells, frequency, r as int),
        decreases rows - r,
    {
        let ghost before = places@;
        let mut c: usize = 0;
        while c < cols
            invariant
                r < rows,
                c <= cols,
                cells == char_cells(*map),
                rows == cells.len(),
                rectangular(cells, cols as int),
                places@ == before + tuned_in_row(cells[r as int], r as int, frequency, c as int),
            decreases cols - c,
        {
            let cell = char_at(map, r, c);
            assert(cell == Some(cells[r as int][c as int]));
            if cell == Some(frequency) {
                places.push((r, c));
            }
            assert(places@ =~= before + tuned_in_row(cells[r as int], r as int, frequency, c + 1));
            c += 1;
        }
        r += 1;
    }
    places
}

} // verus!
