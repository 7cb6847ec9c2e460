//! Corrupted program text in which only the instructions `mul(a,b)`, with
//! `a` and `b` of one to three decimal digits, `do()` and `don't()` count.
//!
//! The text is read as bytes; the instructions consist of ASCII characters
//! only, so that other characters can never be part of one.

use crate::arith::fits;
use vstd::arithmetic::overflow::CheckedU64;
use vstd::prelude::*;
use vstd::string::StringSliceAdditionalSpecFns;

verus! {

/// The byte is a decimal digit.
pub open spec fn is_digit(b: u8) -> bool {
    48 <= b <= 57
}

/// The text continues at offset `i` with the given bytes.
pub open spec fn has_at(text: Seq<u8>, i: int, word: Seq<u8>) -> bool {
    0 <= i && i + word.len() <= text.len() && text.subrange(i, i + word.len()) == word
}

/// The number of digits with which the text continues at offset `i`,
/// counted up to `most`.
pub open spec fn digit_run(text: Seq<u8>, i: int, most: nat) -> nat
    decreases most,
{
    if most == 0 || i < 0 || i >= text.len() || !is_digit(text[i]) {
        0
    } else {
        1 + digit_run(text, i + 1, (most - 1) as nat)
    }
}

/// The value of the `n` digits at offset `i`.
pub open spec fn digits_value(text: Seq<u8>, i: int, n: nat) -> nat
    decreases n,
{
    if n == 0 {
        0
    } else {
        10 * digits_value(text, i, (n - 1) as nat) + (text[i + n - 1] - 48) as nat
    }
}

/// The number of one to three digits at offset `i` that is followed by
/// the byte `after`: its value and the number of its digits. A fourth
/// digit in the place of `after` means that no such number stands there.
pub open spec fn number_at(text: Seq<u8>, i: int, after: u8) -> Option<(nat, nat)> {
    let n = digit_run(text, i, 3);
    if n >= 1 && i + n < text.len() && text[i + n] == after {
        Some((digits_value(text, i, n), n))
    } else {
        None
    }
}

/// The bytes of `mul(`.
pub open spec fn mul_open() -> Seq<u8> {
    seq![109u8, 117u8, 108u8, 40u8]
}

/// The bytes of `do()`.
pub open spec fn do_word() -> Seq<u8> {
    seq![100u8, 111u8, 40u8, 41u8]
}

/// The bytes of `don't()`.
pub open spec fn dont_word() -> Seq<u8> {
    seq![100u8, 111u8, 110u8, 39u8, 116u8, 40u8, 41u8]
}

/// The instruction `mul(a,b)` at offset `i`: the product of `a` and `b`
/// and the length of the instruction.
pub open spec fn mul_at(text: Seq<u8>, i: int) -> Option<(nat, nat)> {
    if has_at(text, i, mul_open()) {
        match number_at(text, i + 4, 44) {
            Some((a, la)) => match number_at(text, i + 4 + la + 1, 41) {
                Some((b, lb)) => Some((a * b, 4 + la + 1 + lb + 1)),
                None => None,
            },
            None => None,
        }
    } else {
        None
    }
}

/// The sum of the products of the multiplications from offset `i` on, read
/// from left to right, each begun behind the one before.
pub open spec fn products_from(text: Seq<u8>, i: int) -> nat
    decreases text.len() - i,
{
    if i < 0 || i >= text.len() {
        0
    } else {
        match mul_at(text, i) {
            Some((product, length)) => product + products_from(text, i + length),
            None => products_from(text, i + 1),
        }
    }
}

/// The sum of the products of the multiplications that are enabled, from
/// offset `i` on: `don't()` disables the multiplications that follow and
/// `do()` enables them again.
pub open spec fn enabled_from(text: Seq<u8>, i: int, enabled: bool) -> nat
    decreases text.len() - i,
{
    if i < 0 || i >= text.len() {
        0
    } else if !enabled && has_at(text, i, do_word()) {
        enabled_from(text, i + 1, true)
    } else if enabled && has_at(text, i, dont_word()) {
        enabled_from(text, i + 1, false)
    } else if enabled && mul_at(text, i).is_some() {
        mul_at(text, i).unwrap().0 + enabled_from(text, i + 1, enabled)
    } else {
        enabled_from(text, i + 1, enabled)
    }
}

fn starts(text: &[u8], i: usize, word: &[u8]) -> (found: bool)
    requires
        i <= text.len(),
    ensures
        found == has_at(text@, i as int, word@),
{
    if word.len() > text.len() - i {
        return false;
    }
    let mut k: usize = 0;
    while k < word.len()
        invariant
            k <= word.len(),
            i + word.len() <= text.len(),
            forall|j: int| 0 <= j < k ==> text[i + j] == word[j],
        decreases word.len() - k,
    {
        if text[i + k] != word[k] {
            assert(text@.subrange(i as int, i + word.len())[k as int] != word@[k as int]);
            return false;
        }
        k += 1;
    }
    assert(text@.subrange(i as int, i + word.len()) =~= word@);
    true
}

proof fn lemma_run_bound(text: Seq<u8>, i: int, most: nat)
    requires
        0 <= i,
    ensures
        digit_run(text, i, most) <= most,
        i + digit_run(text, i, most) <= text.len() || digit_run(text, i, most) == 0,
        forall|k: int| i <= k < i + digit_run(text, i, most) ==> is_digit(#[trigger] text[k]),
    decreases most,
{
    if most == 0 || i >= text.len() || !is_digit(text[i]) {
    } else {
        lemma_run_bound(text, i + 1, (most - 1) as nat);
    }
}

proof fn lemma_value_bound(text: Seq<u8>, i: int, n: nat)
    requires
        0 <= i,
        i + n <= text.len(),
        n <= 3,
        forall|k: int| i <= k < i + n ==> is_digit(#[trigger] text[k]),
    ensures
        digits_value(text, i, n) <= 999,
        n <= 2 ==> digits_value(text, i, n) <= 99,
        n <= 1 ==> digits_value(text, i, n) <= 9,
    decreases n,
{
    if n > 0 {
        lemma_value_bound(text, i, (n - 1) as nat);
        assert(is_digit(text[i + n - 1]));
    }
}

fn read_number(text: &[u8], i: usize, after: u8) -> (found: Option<(u64, usize)>)
    requires
        i <= text.len(),
    ensures
        match found {
            Some((value, n)) => number_at(text@, i as int, after) == Some((value as nat, n as nat))
                && value <= 999 && 1 <= n <= 3 && i + n < text.len(),
            None => number_at(text@, i as int, after).is_none(),
        },
{
    let mut value: u64 = 0;
    let mut n: usize = 0;
    proof {
        reveal_with_fuel(digit_run, 4);
        reveal_with_fuel(digits_value, 4);
    }
    while n < 3 && i + n < text.len() && text[i + n] >= 48 && text[i + n] <= 57
        invariant
            n <= 3,
            i + n <= text.len(),
            forall|k: int| i <= k < i + n ==> is_digit(#[trigger] text[k]),
            value == digits_value(text@, i as int, n as nat),
            value <= 999,
            n <= 2 ==> value <= 99,
            n <= 1 ==> value <= 9,
            n == 0 ==> value == 0,
        decreases 3 - n,
    {
        value = value * 10 + (text[i + n] - 48) as u64;
        n += 1;
        proof {
            lemma_value_bound(text@, i as int, n as nat);
        }
    }
    proof {
        lemma_run_bound(text@, i as int, 3);
        lemma_run_is(text@, i as int, 3, n as nat);
    }
    if n >= 1 && i + n < text.len() && text[i + n] == after {
        Some((value, n))
    } else {
        None
    }
}

/// A run of digits that ends at the limit or at a byte that is no digit is
/// the digit run.
proof fn lemma_run_is(text: Seq<u8>, i: int, most: nat, n: nat)
    requires
        0 <= i,
        n <= most,
        i + n <= text.len(),
        forall|k: int| i <= k < i + n ==> is_digit(#[trigger] text[k]),
        n == most || i + n == text.len() || !is_digit(text[i + n]),
    ensures
        digit_run(text, i, most) == n,
    decreases most,
{
    if most == 0 || i >= text.len() || !is_digit(text[i]) {
        if n > 0 {
            assert(is_digit(text[i]));
        }
    } else {
        if n == 0 {
            assert(false);
        }
        lemma_run_is(text, i + 1, (most - 1) as nat, (n - 1) as nat);
    }
}

fn read_mul(text: &[u8], i: usize) -> (found: Option<(u64, usize)>)
    requires
        i <= text.len(),
    ensures
        match found {
            Some((product, length)) => mul_at(text@, i as int) == Some(
                (product as nat, length as nat),
            ) && 1 <= length && i + length <= text.len() && product <= 998001,
            None => mul_at(text@, i as int).is_none(),
        },
{
    let word: [u8; 4] = [109, 117, 108, 40];
    assert(word@ =~= mul_open());
    if !starts(text, i, word.as_slice()) {
        return None;
    }
    match read_number(text, i + 4, 44) {
        Some((a, la)) => match read_number(text, i + 4 + la + 1, 41) {
            Some((b, lb)) => {
                assert(a * b <= 998001) by (nonlinear_arith)
                    requires
                        0 <= a <= 999,
                        0 <= b <= 999,
                ;
                Some((a * b, 4 + la + 1 + lb + 1))
            },
            None => None,
        },
        None => None,
    }
}

/// The sum of the products of all multiplications in the text, read from
/// left to right; `None` where it does not fit in 64 bits.
pub fn part1(code: &str) -> (sum: Option<u64>)
    ensures
        fits(sum, products_from(code.spec_bytes(), 0) as int),
{
    let text = code.as_bytes();
    let mut sum = CheckedU64::new(0);
    let mut i: usize = 0;
    while i < text.len()
        invariant
            i <= text.len(),
            sum@ + products_from(text@, i as int) == products_from(text@, 0),
        decreases text.len() - i,
    {
        match read_mul(text, i) {
            Some((product, length)) => {
                sum = sum.add_value(product);
                i += length;
            },
            None => {
                i += 1;
            },
        }
    }
    sum.to_option()
}

/// The sum of the products of the multiplications in the text that are
/// enabled: at the start they are, `don't()` disables and `do()` enables
/// what follows. `None` where the sum does not fit in 64 bits.
pub fn part2(code: &str) -> (sum: Option<u64>)
    ensures
        fits(sum, enabled_from(code.spec_bytes(), 0, true) as int),
{
    let text = code.as_bytes();
    let do_word_bytes: [u8; 4] = [100, 111, 40, 41];
    let dont_word_bytes: [u8; 7] = [100, 111, 110, 39, 116, 40, 41];
    assert(do_word_bytes@ =~= do_word());
    assert(dont_word_bytes@ =~= dont_word());
    let mut sum = CheckedU64::new(0);
    let mut do_mul = true;
    let mut i: usize = 0;
    while i < text.len()
        invariant
            i <= text.len(),
            do_word_bytes@ == do_word(),
            dont_word_bytes@ == dont_word(),
            sum@ + enabled_from(text@, i as int, do_mul) == enabled_from(text@, 0, true),
        decreases text.len() - i,
    {
        if !do_mul && starts(text, i, do_word_bytes.as_slice()) {
            do_mul = true;
        } else if do_mul && starts(text, i, dont_word_bytes.as_slice()) {
            do_mul = false;
        } else if do_mul {
            match read_mul(text, i) {
                Some((product, length)) => {
                    sum = sum.add_value(product);
                },
                None => {},
            }
        }
        i += 1;
    }
    sum.to_option()
}

} // verus!
