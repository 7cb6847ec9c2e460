//! Machines with two buttons and a prize: how often each button has to be
//! pressed to reach the prize is the solution of two linear equations in
//! whole numbers, found by Cramer's rule.

use crate::arith::lemma_multiple;
use crate::grid::{cell_at, number_at, number_cells};
use array2d::Array2D;
use vstd::arithmetic::div_mod::lemma_fundamental_div_mod;
use vstd::prelude::*;

verus! {

/// A machine: the matrix of what the buttons add, button A in the first
/// column and button B in the second, and the place of the prize as a
/// column.
pub struct Problem {
    pub buttons: Array2D<i64>,
    pub prize: Array2D<i64>,
}

/// The matrix has two rows and two columns, the prize two rows.
pub open spec fn well_formed(p: Problem) -> bool {
    &&& cell_at(number_cells(p.buttons), 0, 0).is_some()
    &&& cell_at(number_cells(p.buttons), 0, 1).is_some()
    &&& cell_at(number_cells(p.buttons), 1, 0).is_some()
    &&& cell_at(number_cells(p.buttons), 1, 1).is_some()
    &&& cell_at(number_cells(p.prize), 0, 0).is_some()
    &&& cell_at(number_cells(p.prize), 1, 0).is_some()
}

/// The determinant of the matrix of the buttons.
pub open spec fn determinant(p: Problem) -> int {
    let m = number_cells(p.buttons);
    m[0][0] * m[1][1] - m[0][1] * m[1][0]
}

/// Cramer's numerator for button A, with `factor` added to the prize.
pub open spec fn numerator_a(p: Problem, factor: int) -> int {
    let m = number_cells(p.buttons);
    let v = number_cells(p.prize);
    m[1][1] * (factor + v[0][0]) - m[0][1] * (factor + v[1][0])
}

/// Cramer's numerator for button B, with `factor` added to the prize.
pub open spec fn numerator_b(p: Problem, factor: int) -> int {
    let m = number_cells(p.buttons);
    let v = number_cells(p.prize);
    -m[1][0] * (factor + v[0][0]) + m[0][0] * (factor + v[1][0])
}

/// The numbers of presses of A and B that reach the prize, where the
/// determinant is not 0 and divides both numerators.
pub open spec fn presses(p: Problem, factor: int) -> Option<(int, int)> {
    let det = determinant(p);
    let a = numerator_a(p, factor);
    let b = numerator_b(p, factor);
    if det != 0 && a % det == 0 && b % det == 0 {
        Some((a / det, b / det))
    } else {
        None
    }
}

/// The number fits in 64 bits with a sign.
pub open spec fn small(x: int) -> bool {
    -0x8000_0000_0000_0000 <= x <= 0x7fff_ffff_ffff_ffff
}

/// The tokens spent on the first `upto` machines, three for a press of A
/// and one for a press of B, a machine that cannot reach its prize costing
/// nothing; `None` where a number of presses or the sum does not fit in 64
/// bits.
pub open spec fn spent(problems: Seq<Problem>, factor: int, upto: int) -> Option<int>
    decreases upto,
{
    if upto <= 0 {
        Some(0)
    } else {
        match spent(problems, factor, upto - 1) {
            None => None,
            Some(before) => match presses(problems[upto - 1], factor) {
                None => Some(before),
                Some((a, b)) => if small(a) && small(b) && small(before + 3 * a + b) {
                    Some(before + 3 * a + b)
                } else {
                    None
                },
            },
        }
    }
}

proof fn lemma_remainder_of_magnitudes(n: int, d: int)
    requires
        d != 0,
    ensures
        (n % d == 0) <==> ((if n < 0 {
            -n
        } else {
            n
        }) % (if d < 0 {
            -d
        } else {
            d
        }) == 0),
{
    let an = if n < 0 { -n } else { n };
    let ad = if d < 0 { -d } else { d };
    if n % d == 0 {
        lemma_fundamental_div_mod(n, d);
        let q = n / d;
        let aq = if (n < 0) == (d < 0) { q } else { -q };
        assert(an == aq * ad) by (nonlinear_arith)
            requires
                n == d * q,
                an == if n < 0 { -n } else { n },
                ad == if d < 0 { -d } else { d },
                aq == if (n < 0) == (d < 0) { q } else { -q },
        ;
        lemma_multiple(an, ad, aq);
    }
    if an % ad == 0 {
        lemma_fundamental_div_mod(an, ad);
        let aq = an / ad;
        let q = if (n < 0) == (d < 0) { aq } else { -aq };
        assert(n == q * d) by (nonlinear_arith)
            requires
                an == ad * aq,
                an == if n < 0 { -n } else { n },
                ad == if d < 0 { -d } else { d },
                q == if (n < 0) == (d < 0) { aq } else { -aq },
        ;
        lemma_multiple(n, d, q);
    }
}

/// `n` divided by `d`, where the division leaves no remainder.
fn exact_quotient(n: i128, d: i128) -> (q: Option<i128>)
    requires
        d != 0,
        -0x8000_0000_0000_0000_0000_0000_0000_0000 < n,
        -0x8000_0000_0000_0000_0000_0000_0000_0000 < d,
    ensures
        match q {
            Some(q) => (n as int) % (d as int) == 0 && q == (n as int) / (d as int),
            None => (n as int) % (d as int) != 0,
        },
{
    let an: u128 = if n < 0 {
        (-n) as u128
    } else {
        n as u128
    };
    let ad: u128 = if d < 0 {
        (-d) as u128
    } else {
        d as u128
    };
    proof {
        lemma_remainder_of_magnitudes(n as int, d as int);
    }
    if an % ad != 0 {
        return None;
    }
    let aq: u128 = an / ad;
    proof {
        lemma_fundamental_div_mod(an as int, ad as int);
        assert(aq <= an) by (nonlinear_arith)
            requires
                an == ad * aq,
                ad >= 1,
                aq >= 0,
        ;
    }
    let q: i128 = if (n < 0) == (d < 0) {
        aq as i128
    } else {
        -(aq as i128)
    };
    proof {
        assert((n as int) == (q as int) * (d as int)) by (nonlinear_arith)
            requires
                an == ad * aq,
                an == if n < 0 { -n } else { n as int },
                ad == if d < 0 { -d } else { d as int },
                q == if (n < 0) == (d < 0) { aq as int } else { -aq },
        ;
        lemma_multiple(n as int, d as int, q as int);
    }
    Some(q)
}

fn entry(grid: &Array2D<i64>, row: usize, column: usize) -> (value: i64)
    requires
        cell_at(number_cells(*grid), row as int, column as int).is_some(),
    ensures
        value == number_cells(*grid)[row as int][column as int],
{
    match number_at(grid, row, column) {
        Some(v) => v,
        None => 0,
    }
}

fn product(a: i64, b: i64) -> (p: i128)
    ensures
        p == a * b,
        -0x4000_0000_0000_0000_0000_0000_0000_0000 < p <= 0x4000_0000_0000_0000_0000_0000_0000_0000,
{
    assert(-0x4000_0000_0000_0000_0000_0000_0000_0000 < a * b
        <= 0x4000_0000_0000_0000_0000_0000_0000_0000) by (nonlinear_arith)
        requires
            -0x8000_0000_0000_0000 <= a < 0x8000_0000_0000_0000,
            -0x8000_0000_0000_0000 <= b < 0x8000_0000_0000_0000,
    ;
    (a as i128) * (b as i128)
}

/// Once the tokens do not fit, they do not fit for more machines either.
proof fn lemma_spent_stays_none(problems: Seq<Problem>, factor: int, upto: int, later: int)
    requires
        upto <= later,
        spent(problems, factor, upto).is_none(),
    ensures
        spent(problems, factor, later).is_none(),
    decreases later - upto,
{
    if upto < later {
        lemma_spent_stays_none(problems, factor, upto, later - 1);
    }
}

/// The tokens that it takes to win every prize that can be won, with
/// `factor` added to both coordinates of every prize: three tokens for a
/// press of button A and one for a press of button B.
///
/// A machine counts where the determinant of its buttons is not 0 and
/// divides both of Cramer's numerators. `None` where a number of presses
/// or the sum does not fit in 64 bits.
pub fn count_tokens(problems: &Vec<Problem>, factor: i64) -> (cost: Option<i64>)
    requires
        forall|i: int|
            0 <= i < problems.len() ==> {
                &&& well_formed(#[trigger] problems[i])
                &&& small(factor + number_cells(problems[i].prize)[0][0])
                &&& small(factor + number_cells(problems[i].prize)[1][0])
            },
    ensures
        match spent(problems@, factor as int, problems.len() as int) {
            Some(v) => cost == Some(v as i64),
            None => cost.is_none(),
        },
{
    let mut cost: i64 = 0;
    let mut i: usize = 0;
    while i < problems.len()
        invariant
            i <= problems.len(),
            forall|k: int|
                0 <= k < problems.len() ==> {
                    &&& well_formed(#[trigger] problems[k])
                    &&& small(factor + number_cells(problems[k].prize)[0][0])
                    &&& small(factor + number_cells(problems[k].prize)[1][0])
                },
            spent(problems@, factor as int, i as int) == Some(cost as int),
        decreases problems.len() - i,
    {
        let problem = &problems[i];
        let ax = entry(&problem.buttons, 0, 0);
        let bx = entry(&problem.buttons, 0, 1);
        let ay = entry(&problem.buttons, 1, 0);
        let by = entry(&problem.buttons, 1, 1);
        let px = entry(&problem.prize, 0, 0);
        let py = entry(&problem.prize, 1, 0);
        let x: i64 = (factor as i128 + px as i128) as i64;
        let y: i64 = (factor as i128 + py as i128) as i64;
        let det: i128 = product(ax, by) - product(bx, ay);
        let a_factor: i128 = product(by, x) - product(bx, y);
        let b_factor: i128 = product(ax, y) - product(ay, x);
        assert(det == determinant(*problem));
        assert(a_factor == numerator_a(*problem, factor as int));
        assert(b_factor == numerator_b(*problem, factor as int)) by (nonlinear_arith)
            requires
                b_factor == ax * y - ay * x,
                numerator_b(*problem, factor as int) == -ay * x + ax * y,
        ;
        if det != 0 {
            match (exact_quotient(a_factor, det), exact_quotient(b_factor, det)) {
                (Some(a), Some(b)) => {
                    let low: i128 = -0x8000_0000_0000_0000;
                    let high: i128 = 0x7fff_ffff_ffff_ffff;
                    if a < low || a > high || b < low || b > high {
                        proof {
                            lemma_spent_stays_none(
                                problems@,
                                factor as int,
                                i + 1,
                                problems.len() as int,
                            );
                        }
                        return None;
                    }
                    let sum: i128 = cost as i128 + 3 * a + b;
                    if sum < low || sum > high {
                        proof {
                            lemma_spent_stays_none(
                                problems@,
                                factor as int,
                                i + 1,
                                problems.len() as int,
                            );
                        }
                        return None;
                    }
                    cost = sum as i64;
                },
                _ => {},
            }
        }
        i += 1;
    }
    Some(cost)
}

} // verus!
