//! Results of sums and products that may not fit the machine's integers.

use vstd::arithmetic::div_mod::{lemma_fundamental_div_mod, lemma_fundamental_div_mod_converse};
use vstd::prelude::*;

verus! {

/// `result` is `value` where `value` fits in 64 bits, and `None` where it
/// does not.
pub open spec fn fits(result: Option<u64>, value: int) -> bool {
    match result {
        Some(v) => v == value,
        None => value > u64::MAX,
    }
}

/// 1 for `true` and 0 for `false`.
pub open spec fn one_if(b: bool) -> int {
    if b {
        1
    } else {
        0
    }
}

/// The number of `true` entries.
pub open spec fn count_true(flags: Seq<bool>) -> nat
    decreases flags.len(),
{
    if flags.len() == 0 {
        0
    } else {
        count_true(flags.drop_last()) + if flags.last() {
            1nat
        } else {
            0nat
        }
    }
}

/// There are no more `true` entries than entries.
pub proof fn lemma_count_bound(flags: Seq<bool>)
    ensures
        count_true(flags) <= flags.len(),
    decreases flags.len(),
{
    if flags.len() > 0 {
        lemma_count_bound(flags.drop_last());
    }
}

/// Setting an entry that was `false` adds one to the count.
pub proof fn lemma_count_set(flags: Seq<bool>, k: int)
    requires
        0 <= k < flags.len(),
        !flags[k],
    ensures
        count_true(flags.update(k, true)) == count_true(flags) + 1,
    decreases flags.len(),
{
    let after = flags.update(k, true);
    if k == flags.len() - 1 {
        assert(after.drop_last() =~= flags.drop_last());
    } else {
        assert(after.drop_last() =~= flags.drop_last().update(k, true));
        lemma_count_set(flags.drop_last(), k);
    }
}

/// The remainder of a negative number: the remainder of its magnitude,
/// taken from the divisor, or 0.
pub proof fn lemma_negative_remainder(a: int, v: int)
    requires
        a >= 0,
        v > 0,
    ensures
        (-a) % v == if a % v == 0 {
            0
        } else {
            v - a % v
        },
{
    let q = a / v;
    let n = a % v;
    lemma_fundamental_div_mod(a, v);
    if n == 0 {
        assert(-a == (-q) * v + 0) by (nonlinear_arith)
            requires
                a == v * q + n,
                n == 0,
        ;
        lemma_fundamental_div_mod_converse(-a, v, -q, 0);
    } else {
        assert(-a == (-q - 1) * v + (v - n)) by (nonlinear_arith)
            requires
                a == v * q + n,
        ;
        lemma_fundamental_div_mod_converse(-a, v, -q - 1, v - n);
    }
}

/// A multiple of `d` leaves no remainder on division by `d`, and the
/// quotient is the factor.
pub proof fn lemma_multiple(n: int, d: int, q: int)
    by (nonlinear_arith)
    requires
        d != 0,
        n == q * d,
    ensures
        n % d == 0,
        n / d == q,
{
}

} // verus!
