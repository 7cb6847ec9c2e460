//! Word search on a puzzle of letters: a word is read from a starting cell
//! along a straight line, one fixed step per letter.

use crate::arith::{fits, one_if};
use vstd::arithmetic::overflow::CheckedU64;
use vstd::prelude::*;

verus! {

/// The letter at `(x, y)` of the puzzle, if the puzzle has that cell.
pub open spec fn letter_at(puzzle: Seq<Vec<char>>, x: int, y: int) -> Option<char> {
    if 0 <= x < puzzle.len() && 0 <= y < puzzle[x].len() {
        Some(puzzle[x][y])
    } else {
        None
    }
}

/// Letter `i` of the word stands `i` steps from `(x, y)`.
pub open spec fn letter_matches(
    puzzle: Seq<Vec<char>>,
    word: Seq<char>,
    x: int,
    y: int,
    x_step: int,
    y_step: int,
    i: int,
) -> bool {
    letter_at(puzzle, x + i * x_step, y + i * y_step) == Some(word[i])
}

/// The whole word is read from `(x, y)` along the step.
pub open spec fn word_at(
    puzzle: Seq<Vec<char>>,
    word: Seq<char>,
    x: int,
    y: int,
    x_step: int,
    y_step: int,
) -> bool {
    forall|i: int|
        0 <= i < word.len() ==> #[trigger] letter_matches(puzzle, word, x, y, x_step, y_step, i)
}

/// Whether `word` is read in the puzzle from row `x_index`, column
/// `y_index`, moving by `x_step` rows and `y_step` columns per letter. A
/// letter that would lie outside the puzzle does not match.
pub fn match_word(
    puzzle: &Vec<Vec<char>>,
    word: &Vec<char>,
    x_index: usize,
    y_index: usize,
    x_step: i32,
    y_step: i32,
) -> (found: bool)
    ensures
        found == word_at(
            puzzle@,
            word@,
            x_index as int,
            y_index as int,
            x_step as int,
            y_step as int,
        ),
{
    let mut i: usize = 0;
    while i < word.len()
        invariant
            i <= word.len(),
            forall|j: int|
                0 <= j < i ==> #[trigger] letter_matches(
                    puzzle@,
                    word@,
                    x_index as int,
                    y_index as int,
                    x_step as int,
                    y_step as int,
                    j,
                ),
        decreases word.len() - i,
    {
        assert(i as int * x_step as int <= 0x8000_0000 * 0x1_0000_0000_0000_0000 && i as int
            * x_step as int >= -0x8000_0000 * 0x1_0000_0000_0000_0000) by (nonlinear_arith)
            requires
                0 <= i < 0x1_0000_0000_0000_0000,
                -0x8000_0000 <= x_step <= 0x8000_0000,
        ;
        assert(i as int * y_step as int <= 0x8000_0000 * 0x1_0000_0000_0000_0000 && i as int
            * y_step as int >= -0x8000_0000 * 0x1_0000_0000_0000_0000) by (nonlinear_arith)
            requires
                0 <= i < 0x1_0000_0000_0000_0000,
                -0x8000_0000 <= y_step <= 0x8000_0000,
        ;
        let x: i128 = x_index as i128 + (i as i128) * (x_step as i128);
        let y: i128 = y_index as i128 + (i as i128) * (y_step as i128);
        let inside = x >= 0 && y >= 0 && x < puzzle.len() as i128 && y < puzzle[x as usize].len() as i128;
        if !inside || puzzle[x as usize][y as usize] != word[i] {
            assert(!letter_matches(
                puzzle@,
                word@,
                x_index as int,
                y_index as int,
                x_step as int,
                y_step as int,
                i as int,
            ));
            return false;
        }
        i += 1;
    }
    true
}

/// The word that the first count looks for.
pub open spec fn xmas() -> Seq<char> {
    seq!['X', 'M', 'A', 'S']
}

/// The word that the second count looks for.
pub open spec fn mas() -> Seq<char> {
    seq!['M', 'A', 'S']
}

/// The number of the first `upto` of the nine steps `(-1,-1), (-1,0), ..,
/// (1,1)`, the step `(0,0)` among them, along which `word` is read from
/// `(x, y)`.
pub open spec fn readings_at(puzzle: Seq<Vec<char>>, word: Seq<char>, x: int, y: int, upto: int) -> int
    decreases upto,
{
    if upto <= 0 {
        0
    } else {
        readings_at(puzzle, word, x, y, upto - 1) + one_if(
            word_at(puzzle, word, x, y, (upto - 1) / 3 - 1, (upto - 1) % 3 - 1),
        )
    }
}

/// The readings of `word` from the cells of row `x` before column `upto`.
pub open spec fn readings_in_row(puzzle: Seq<Vec<char>>, word: Seq<char>, x: int, upto: int) -> int
    decreases upto,
{
    if upto <= 0 {
        0
    } else {
        readings_in_row(puzzle, word, x, upto - 1) + readings_at(puzzle, word, x, upto - 1, 9)
    }
}

/// The number of columns that the counts go through: the length of the
/// first row.
pub open spec fn span(puzzle: Seq<Vec<char>>) -> int {
    if puzzle.len() == 0 {
        0
    } else {
        puzzle[0].len() as int
    }
}

/// The readings of `word` from the cells of the rows before `upto`.
pub open spec fn readings(puzzle: Seq<Vec<char>>, word: Seq<char>, upto: int) -> int
    decreases upto,
{
    if upto <= 0 {
        0
    } else {
        readings(puzzle, word, upto - 1) + readings_in_row(puzzle, word, upto - 1, span(puzzle))
    }
}

/// The number of times that XMAS is read in the puzzle, from any cell in
/// any of the eight directions; `None` where it does not fit in 64 bits.
pub fn part1(puzzle: &Vec<Vec<char>>) -> (count: Option<u64>)
    ensures
        fits(count, readings(puzzle@, xmas(), puzzle.len() as int)),
{
    let mut word: Vec<char> = Vec::new();
    word.push('X');
    word.push('M');
    word.push('A');
    word.push('S');
    assert(word@ =~= xmas());
    let columns = if puzzle.len() == 0 {
        0
    } else {
        puzzle[0].len()
    };
    let mut count = CheckedU64::new(0);
    let mut x: usize = 0;
    while x < puzzle.len()
        invariant
            x <= puzzle.len(),
            word@ == xmas(),
            columns == span(puzzle@),
            count@ == readings(puzzle@, xmas(), x as int),
        decreases puzzle.len() - x,
    {
        let mut in_row = CheckedU64::new(0);
        let mut y: usize = 0;
        while y < columns
            invariant
                y <= columns,
                x < puzzle.len(),
                word@ == xmas(),
                in_row@ == readings_in_row(puzzle@, xmas(), x as int, y as int),
            decreases columns - y,
        {
            let mut here: u64 = 0;
            let mut k: usize = 0;
            while k < 9
                invariant
                    k <= 9,
                    word@ == xmas(),
                    here <= k,
                    here == readings_at(puzzle@, xmas(), x as int, y as int, k as int),
                decreases 9 - k,
            {
                let xd: i32 = (k / 3) as i32 - 1;
                let yd: i32 = (k % 3) as i32 - 1;
                if match_word(puzzle, &word, x, y, xd, yd) {
                    here += 1;
                }
                k += 1;
            }
            in_row = in_row.add_value(here);
            y += 1;
        }
        count = count.add_checked(&in_row);
        x += 1;
    }
    count.to_option()
}

/// Two MAS cross at their A: one is read along the diagonal that starts at
/// `(x, y)`, forwards or backwards, and one along the other diagonal of the
/// same three by three cells.
pub open spec fn cross_at(puzzle: Seq<Vec<char>>, x: int, y: int) -> bool {
    (word_at(puzzle, mas(), x, y, 1, 1) || word_at(puzzle, mas(), x + 2, y + 2, -1, -1)) && (
    word_at(puzzle, mas(), x + 2, y, -1, 1) || word_at(puzzle, mas(), x, y + 2, 1, -1))
}

/// The crosses with their corner in row `x` before column `upto`.
pub open spec fn crosses_in_row(puzzle: Seq<Vec<char>>, x: int, upto: int) -> int
    decreases upto,
{
    if upto <= 0 {
        0
    } else {
        crosses_in_row(puzzle, x, upto - 1) + one_if(cross_at(puzzle, x, upto - 1))
    }
}

/// The crosses with their corner in the rows before `upto`.
pub open spec fn crosses(puzzle: Seq<Vec<char>>, upto: int) -> int
    decreases upto,
{
    if upto <= 0 {
        0
    } else {
        crosses(puzzle, upto - 1) + crosses_in_row(puzzle, upto - 1, span(puzzle))
    }
}

/// A word of at least one letter is not read from a row that the puzzle
/// does not have.
proof fn lemma_no_word_outside(puzzle: Seq<Vec<char>>, word: Seq<char>, x: int, y: int, xs: int, ys: int)
    requires
        word.len() >= 1,
        x >= puzzle.len() || (0 <= x < puzzle.len() && y >= puzzle[x].len()),
    ensures
        !word_at(puzzle, word, x, y, xs, ys),
{
    assert(!letter_matches(puzzle, word, x, y, xs, ys, 0));
}

fn reads_from(puzzle: &Vec<Vec<char>>, word: &Vec<char>, x: usize, dx: usize, y: usize, dy: usize, xs: i32, ys: i32) -> (found: bool)
    requires
        word.len() >= 1,
        dx <= 2,
        dy <= 2,
    ensures
        found == word_at(puzzle@, word@, x + dx, y + dy, xs as int, ys as int),
{
    if x >= puzzle.len() || dx >= puzzle.len() - x {
        proof {
            lemma_no_word_outside(puzzle@, word@, x + dx, y + dy, xs as int, ys as int);
        }
        return false;
    }
    if y >= puzzle[x + dx].len() || dy >= puzzle[x + dx].len() - y {
        proof {
            lemma_no_word_outside(puzzle@, word@, x + dx, y + dy, xs as int, ys as int);
        }
        return false;
    }
    match_word(puzzle, word, x + dx, y + dy, xs, ys)
}

/// The number of crosses of two MAS in the puzzle; `None` where it does not
/// fit in 64 bits.
pub fn part2(puzzle: &Vec<Vec<char>>) -> (count: Option<u64>)
    ensures
        fits(count, crosses(puzzle@, puzzle.len() as int)),
{
    let mut word: Vec<char> = Vec::new();
    word.push('M');
    word.push('A');
    word.push('S');
    assert(word@ =~= mas());
    let columns = if puzzle.len() == 0 {
        0
    } else {
        puzzle[0].len()
    };
    let mut count = CheckedU64::new(0);
    let mut x: usize = 0;
    while x < puzzle.len()
        invariant
            x <= puzzle.len(),
            word@ == mas(),
            columns == span(puzzle@),
            count@ == crosses(puzzle@, x as int),
        decreases puzzle.len() - x,
    {
        let mut in_row = CheckedU64::new(0);
        let mut y: usize = 0;
        while y < columns
            invariant
                y <= columns,
                x < puzzle.len(),
                word@ == mas(),
                in_row@ == crosses_in_row(puzzle@, x as int, y as int),
            decreases columns - y,
        {
            let down = reads_from(puzzle, &word, x, 0, y, 0, 1, 1) || reads_from(
                puzzle,
                &word,
                x,
                2,
                y,
                2,
                -1,
                -1,
            );
            let up = reads_from(puzzle, &word, x, 2, y, 0, -1, 1) || reads_from(
                puzzle,
                &word,
                x,
                0,
                y,
                2,
                1,
                -1,
            );
            if down && up {
                in_row = in_row.add_value(1);
            }
            y += 1;
        }
        count = count.add_checked(&in_row);
        x += 1;
    }
    count.to_option()
}

} // verus!
