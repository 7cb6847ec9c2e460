//! Calibration equations: a list of numbers between which operators are
//! missing; the operators are applied from left to right, and the question
//! is whether some choice of operators gives the test value.

use crate::arith::fits;
use crate::stones::{digits, num_digits, pow10};
use vstd::arithmetic::overflow::CheckedU64;
use vstd::prelude::*;

verus! {

/// The digits of `right` written behind the digits of `left`.
pub open spec fn joined(left: int, right: u64) -> int {
    left * pow10(digits(right as nat)) + right
}

/// Some choice of operators between `value` and the numbers from place
/// `from` on gives `target`. The operators are the product, the sum and,
/// where `concat` holds, the joining of digits. A product above the target
/// is not followed further.
pub open spec fn solvable(value: int, target: int, nums: Seq<u64>, from: int, concat: bool) -> bool
    decreases nums.len() - from,
{
    if from < 0 || from >= nums.len() {
        value == target
    } else {
        let n = nums[from];
        ||| (value * n <= target && solvable(value * n, target, nums, from + 1, concat))
        ||| solvable(value + n, target, nums, from + 1, concat)
        ||| (concat && solvable(joined(value, n), target, nums, from + 1, concat))
    }
}

proof fn lemma_pow10_positive(e: nat)
    ensures
        pow10(e) >= 1,
    decreases e,
{
    if e > 0 {
        lemma_pow10_positive((e - 1) as nat);
    }
}

/// Two values above the target have the same prospects: no operator but a
/// product with 0 brings a value down again.
proof fn lemma_above_target(v: int, w: int, target: int, nums: Seq<u64>, from: int, concat: bool)
    requires
        v > target,
        w > target,
        target >= 0,
        0 <= from,
    ensures
        solvable(v, target, nums, from, concat) == solvable(w, target, nums, from, concat),
    decreases nums.len() - from,
{
    if from < nums.len() {
        let n = nums[from];
        lemma_pow10_positive(digits(n as nat));
        let p = pow10(digits(n as nat)) as int;
        if n == 0 {
            assert(v * n == 0 && w * n == 0) by (nonlinear_arith)
                requires
                    n == 0,
            ;
        } else {
            assert(v * n > target && w * n > target) by (nonlinear_arith)
                requires
                    v > target,
                    w > target,
                    target >= 0,
                    n >= 1,
            ;
        }
        assert(v * p + n > target && w * p + n > target) by (nonlinear_arith)
            requires
                v > target,
                w > target,
                target >= 0,
                p >= 1,
                n >= 0,
        ;
        lemma_above_target(v + n, w + n, target, nums, from + 1, concat);
        lemma_above_target(joined(v, n), joined(w, n), target, nums, from + 1, concat);
    }
}

fn power(e: u32) -> (p: u128)
    requires
        e <= 20,
    ensures
        p == pow10(e as nat),
        1 <= p <= 100_000_000_000_000_000_000,
{
    let mut p: u128 = 1;
    let mut k: u32 = 0;
    proof {
        lemma_pow10_20();
    }
    while k < e
        invariant
            k <= e <= 20,
            p == pow10(k as nat),
            1 <= p,
            p * pow10((20 - k) as nat) == 100_000_000_000_000_000_000,
        decreases e - k,
    {
        proof {
            lemma_pow10_positive((20 - k - 1) as nat);
            assert(pow10((20 - k) as nat) == 10 * pow10((20 - k - 1) as nat));
            assert((p * 10) * pow10((20 - k - 1) as nat) == p * (10 * pow10((20 - k - 1) as nat)))
                by (nonlinear_arith);
            assert(p * 10 <= (p * 10) * pow10((20 - k - 1) as nat)) by (nonlinear_arith)
                requires
                    p >= 1,
                    pow10((20 - k - 1) as nat) >= 1,
            ;
        }
        p = p * 10;
        k += 1;
    }
    proof {
        lemma_pow10_positive((20 - e) as nat);
        assert(p <= p * pow10((20 - e) as nat)) by (nonlinear_arith)
            requires
                p >= 1,
                pow10((20 - e) as nat) >= 1,
        ;
    }
    p
}

proof fn lemma_pow10_20()
    ensures
        pow10(20) == 100_000_000_000_000_000_000,
{
    reveal_with_fuel(pow10, 21);
}

/// The digits of `right` written behind the digits of `left`; `None` where
/// the number does not fit in 64 bits.
pub fn concat_u64(left: u64, right: u64) -> (both: Option<u64>)
    ensures
        fits(both, joined(left as int, right)),
{
    let shift = power(num_digits(right));
    if left == 0 {
        assert(joined(0, right) == right) by (nonlinear_arith)
            requires
                joined(0, right) == 0 * pow10(digits(right as nat)) + right,
        ;
        return Some(right);
    }
    if shift > u64::MAX as u128 {
        assert(left * shift > u64::MAX) by (nonlinear_arith)
            requires
                left >= 1,
                shift > u64::MAX,
        ;
        return None;
    }
    assert(left * shift <= 0xffff_ffff_ffff_ffff * 0xffff_ffff_ffff_ffff) by (nonlinear_arith)
        requires
            0 <= left <= 0xffff_ffff_ffff_ffff,
            0 <= shift <= 0xffff_ffff_ffff_ffff,
    ;
    let wide: u128 = left as u128 * shift + right as u128;
    if wide > u64::MAX as u128 {
        None
    } else {
        Some(wide as u64)
    }
}

/// The value, held at one above the target where it is larger.
fn capped(value: u128, target: u64) -> (held: u128)
    ensures
        held <= target + 1,
        held == if value > target {
            target + 1
        } else {
            value as int
        },
{
    if value > target as u128 {
        target as u128 + 1
    } else {
        value
    }
}

fn search(value: u128, target: u64, nums: &[u64], from: usize, concat: bool) -> (found: bool)
    requires
        value <= target + 1,
        from <= nums.len(),
    ensures
        found == solvable(value as int, target as int, nums@, from as int, concat),
    decreases nums.len() - from,
{
    if from == nums.len() {
        return value == target as u128;
    }
    let n = nums[from];
    assert(value * n <= 0x1_0000_0000_0000_0000 * 0xffff_ffff_ffff_ffff) by (nonlinear_arith)
        requires
            0 <= value <= 0x1_0000_0000_0000_0000,
            0 <= n <= 0xffff_ffff_ffff_ffff,
    ;
    let product: u128 = value * (n as u128);
    if product <= target as u128 && search(product, target, nums, from + 1, concat) {
        return true;
    }
    let sum: u128 = value + n as u128;
    proof {
        if sum > target {
            lemma_above_target(sum as int, target + 1, target as int, nums@, from + 1, concat);
        }
    }
    if search(capped(sum, target), target, nums, from + 1, concat) {
        return true;
    }
    if !concat {
        return false;
    }
    let shift = power(num_digits(n));
    let ghost both = joined(value as int, n);
    let held: u128 = if value == 0 {
        assert(both == n) by (nonlinear_arith)
            requires
                both == value * pow10(digits(n as nat)) + n,
                value == 0,
        ;
        capped(n as u128, target)
    } else if value > target as u128 || shift > target as u128 {
        assert(both > target) by (nonlinear_arith)
            requires
                both == value * shift + n,
                value >= 1,
                shift >= 1,
                value > target || shift > target,
                n >= 0,
        ;
        target as u128 + 1
    } else {
        assert(value * shift <= 0xffff_ffff_ffff_ffff * 0xffff_ffff_ffff_ffff) by (nonlinear_arith)
            requires
                0 <= value <= 0xffff_ffff_ffff_ffff,
                0 <= shift <= 0xffff_ffff_ffff_ffff,
        ;
        capped(value * shift + n as u128, target)
    };
    proof {
        if both > target {
            lemma_above_target(both, target + 1, target as int, nums@, from + 1, concat);
        }
    }
    search(held, target, nums, from + 1, concat)
}

/// Whether products and sums, applied from left to right to `value` and
/// the numbers, can give `target`.
pub fn find_match(value: u64, target: u64, nums: &[u64]) -> (found: bool)
    ensures
        found == solvable(value as int, target as int, nums@, 0, false),
{
    proof {
        if value > target {
            lemma_above_target(value as int, target + 1, target as int, nums@, 0, false);
        }
    }
    search(capped(value as u128, target), target, nums, 0, false)
}

/// Whether products, sums and the joining of digits, applied from left to
/// right to `value` and the numbers, can give `target`.
pub fn find_match_concat(value: u64, target: u64, nums: &[u64]) -> (found: bool)
    ensures
        found == solvable(value as int, target as int, nums@, 0, true),
{
    proof {
        if value > target {
            lemma_above_target(value as int, target + 1, target as int, nums@, 0, true);
        }
    }
    search(capped(value as u128, target), target, nums, 0, true)
}

/// The equation with the given test value and numbers can be solved: the
/// operators stand between the numbers, so that the first number is the
/// value that they start from.
pub open spec fn equation_holds(target: u64, nums: Seq<u64>, concat: bool) -> bool {
    nums.len() >= 1 && solvable(nums[0] as int, target as int, nums, 1, concat)
}

/// The sum of the test values of those of the first `upto` equations that
/// can be solved.
pub open spec fn calibration(puzzle: Seq<(u64, Vec<u64>)>, concat: bool, upto: int) -> int
    decreases upto,
{
    if upto <= 0 {
        0
    } else {
        calibration(puzzle, concat, upto - 1) + if equation_holds(
            puzzle[upto - 1].0,
            puzzle[upto - 1].1@,
            concat,
        ) {
            puzzle[upto - 1].0 as int
        } else {
            0
        }
    }
}

fn total(puzzle: &Vec<(u64, Vec<u64>)>, concat: bool) -> (sum: Option<u64>)
    ensures
        fits(sum, calibration(puzzle@, concat, puzzle.len() as int)),
{
    let mut sum = CheckedU64::new(0);
    let mut i: usize = 0;
    while i < puzzle.len()
        invariant
            i <= puzzle.len(),
            sum@ == calibration(puzzle@, concat, i as int),
        decreases puzzle.len() - i,
    {
        let target = puzzle[i].0;
        let nums = &puzzle[i].1;
        if nums.len() >= 1 {
            let first = nums[0];
            proof {
                if first > target {
                    lemma_above_target(first as int, target + 1, target as int, nums@, 1, concat);
                }
            }
            if search(capped(first as u128, target), target, nums.as_slice(), 1, concat) {
                sum = sum.add_value(target);
            }
        }
        i += 1;
    }
    sum.to_option()
}

/// The sum of the test values of the equations that products and sums can
/// solve; `None` where it does not fit in 64 bits.
pub fn part1(puzzle: &Vec<(u64, Vec<u64>)>) -> (sum: Option<u64>)
    ensures
        fits(sum, calibration(puzzle@, false, puzzle.len() as int)),
{
    total(puzzle, false)
}

/// The sum of the test values of the equations that products, sums and the
/// joining of digits can solve; `None` where it does not fit in 64 bits.
pub fn part2(puzzle: &Vec<(u64, Vec<u64>)>) -> (sum: Option<u64>)
    ensures
        fits(sum, calibration(puzzle@, true, puzzle.len() as int)),
{
    total(puzzle, true)
}

} // verus!
