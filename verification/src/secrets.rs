//! A pseudorandom sequence of 24-bit numbers, the prices that its numbers
//! stand for, and the window of four price changes that earns the most
//! when every buyer sells at the first time its window comes up.

use crate::arith::fits;
use vstd::arithmetic::overflow::CheckedU64;
use vstd::prelude::*;

verus! {

/// The sequence keeps the low 24 bits of every number.
pub const MASK: u64 = 0xff_ffff;

/// The number of steps of the sequence that a buyer is watched for.
pub const STEPS: usize = 2000;

/// The number of different windows of four changes between -9 and 9.
pub const WINDOWS: usize = 130321;

/// The number after `num` in the sequence: three mixing steps, each an
/// exclusive or of the number with itself shifted, by 6 bits to the left,
/// by 5 to the right and by 11 to the left, each cut to 24 bits.
pub open spec fn next_secret(num: u64) -> u64 {
    let one = ((num << 6) ^ num) & MASK;
    let two = ((one >> 5) ^ one) & MASK;
    ((two << 11) ^ two) & MASK
}

/// The number `n` steps after `seed`.
pub open spec fn secret(seed: u64, n: nat) -> u64
    decreases n,
{
    if n == 0 {
        seed
    } else {
        next_secret(secret(seed, (n - 1) as nat))
    }
}

/// The next number of the sequence.
pub fn gen_next(num: u64) -> (next: u64)
    ensures
        next == next_secret(num),
        next <= MASK,
{
    let mask: u64 = 16777215;
    let next1 = ((num << 6) ^ num) & mask;
    let next2 = ((next1 >> 5) ^ next1) & mask;
    let next3 = ((next2 << 11) ^ next2) & mask;
    assert(((next2 << 11) ^ next2) & 16777215u64 <= 16777215u64) by (bit_vector);
    next3
}

/// From the first step on, every number of the sequence fits in 24 bits.
pub proof fn lemma_secret_is_masked(seed: u64, n: nat)
    requires
        n >= 1,
    ensures
        secret(seed, n) <= MASK,
{
    let two = ((((secret(seed, (n - 1) as nat) << 6) ^ secret(seed, (n - 1) as nat)) & MASK) >> 5)
        ^ (((secret(seed, (n - 1) as nat) << 6) ^ secret(seed, (n - 1) as nat)) & MASK);
    let masked = two & MASK;
    assert(((masked << 11) ^ masked) & 16777215u64 <= 16777215u64) by (bit_vector);
}

/// The sum of the numbers `steps` steps after each of the first `upto`
/// seeds.
pub open spec fn secret_sum(seeds: Seq<u64>, steps: nat, upto: int) -> int
    decreases upto,
{
    if upto <= 0 {
        0
    } else {
        secret_sum(seeds, steps, upto - 1) + secret(seeds[upto - 1], steps)
    }
}

/// The sum of the 2000th numbers after the seeds; `None` where it does not
/// fit in 64 bits.
pub fn part1(secrets: &Vec<u64>) -> (total: Option<u64>)
    ensures
        fits(total, secret_sum(secrets@, STEPS as nat, secrets.len() as int)),
{
    let mut total = CheckedU64::new(0);
    let mut i: usize = 0;
    while i < secrets.len()
        invariant
            i <= secrets.len(),
            total@ == secret_sum(secrets@, STEPS as nat, i as int),
        decreases secrets.len() - i,
    {
        let mut num = secrets[i];
        let mut n: usize = 0;
        while n < STEPS
            invariant
                n <= STEPS,
                i < secrets.len(),
                num == secret(secrets[i as int], n as nat),
            decreases STEPS - n,
        {
            num = gen_next(num);
            n += 1;
        }
        total = total.add_value(num);
        i += 1;
    }
    total.to_option()
}

/// The price `t` steps after the seed: the last decimal digit of the
/// number.
pub open spec fn price(seed: u64, t: int) -> int {
    (secret(seed, t as nat) % 10) as int
}

/// The change of the price at step `t`.
pub open spec fn change(seed: u64, t: int) -> int {
    price(seed, t) - price(seed, t - 1)
}

/// The number of the window of four changes `a, b, c, d`, each between -9
/// and 9.
pub open spec fn window_key(a: int, b: int, c: int, d: int) -> int {
    (((a + 9) * 19 + (b + 9)) * 19 + (c + 9)) * 19 + (d + 9)
}

/// The number of the window of the four changes that end at step `t`.
pub open spec fn window_at(seed: u64, t: int) -> int {
    window_key(change(seed, t - 3), change(seed, t - 2), change(seed, t - 1), change(seed, t))
}

/// The window `w` has come up at a step from 4 on and before `t`.
pub open spec fn seen_before(seed: u64, w: int, t: int) -> bool
    decreases t,
{
    if t <= 4 {
        false
    } else {
        seen_before(seed, w, t - 1) || window_at(seed, t - 1) == w
    }
}

/// What the window `w` has earned from the buyer before step `t`: the
/// price at the first step at which it came up, or nothing.
pub open spec fn credit(seed: u64, w: int, t: int) -> int
    decreases t,
{
    if t <= 4 {
        0
    } else if seen_before(seed, w, t - 1) {
        credit(seed, w, t - 1)
    } else if window_at(seed, t - 1) == w {
        price(seed, t - 1)
    } else {
        0
    }
}

/// What the window `w` earns from the first `upto` buyers, each watched for
/// 2000 steps.
pub open spec fn earnings(seeds: Seq<u64>, w: int, upto: int) -> int
    decreases upto,
{
    if upto <= 0 {
        0
    } else {
        earnings(seeds, w, upto - 1) + credit(seeds[upto - 1], w, STEPS + 1)
    }
}

proof fn lemma_credit_bounds(seed: u64, w: int, t: int)
    ensures
        0 <= credit(seed, w, t) <= 9,
    decreases t,
{
    if t > 4 {
        lemma_credit_bounds(seed, w, t - 1);
    }
}

proof fn lemma_earnings_bounds(seeds: Seq<u64>, w: int, upto: int)
    requires
        0 <= upto,
    ensures
        0 <= earnings(seeds, w, upto) <= 9 * upto,
    decreases upto,
{
    if upto > 0 {
        lemma_earnings_bounds(seeds, w, upto - 1);
        lemma_credit_bounds(seeds[upto - 1], w, STEPS + 1);
    }
}

fn table(len: usize) -> (list: Vec<u64>)
    ensures
        list.len() == len,
        forall|k: int| 0 <= k < len ==> list[k] == 0,
{
    let mut list: Vec<u64> = Vec::new();
    let mut k: usize = 0;
    while k < len
        invariant
            k <= len,
            list.len() == k,
            forall|j: int| 0 <= j < k ==> list[j] == 0,
        decreases len - k,
    {
        list.push(0);
        k += 1;
    }
    list
}

fn marks(len: usize) -> (list: Vec<bool>)
    ensures
        list.len() == len,
        forall|k: int| 0 <= k < len ==> !list[k],
{
    let mut list: Vec<bool> = Vec::new();
    let mut k: usize = 0;
    while k < len
        invariant
            k <= len,
            list.len() == k,
            forall|j: int| 0 <= j < k ==> !list[j],
        decreases len - k,
    {
        list.push(false);
        k += 1;
    }
    list
}

/// Adds to the table what each window earns from the buyer with the given
/// seed.
fn credit_buyer(totals: &mut Vec<u64>, seed: u64, Ghost(seeds): Ghost<Seq<u64>>, Ghost(upto): Ghost<int>)
    requires
        old(totals).len() == WINDOWS,
        0 <= upto,
        9 * (upto + 1) <= u64::MAX,
        forall|w: int| 0 <= w < WINDOWS ==> old(totals)[w] == earnings(seeds, w, upto),
    ensures
        final(totals).len() == WINDOWS,
        forall|w: int|
            0 <= w < WINDOWS ==> final(totals)[w] == earnings(seeds, w, upto) + credit(
                seed,
                w,
                STEPS + 1,
            ),
{
    let mut seen = marks(WINDOWS);
    let mut num = seed;
    let mut last: u64 = seed % 10;
    let mut a: i64 = 0;
    let mut b: i64 = 0;
    let mut c: i64 = 0;
    let mut t: usize = 1;
    while t <= STEPS
        invariant
            1 <= t <= STEPS + 1,
            totals.len() == WINDOWS,
            seen.len() == WINDOWS,
            0 <= upto,
            9 * (upto + 1) <= u64::MAX,
            num == secret(seed, (t - 1) as nat),
            last == price(seed, t - 1),
            t >= 2 ==> c == change(seed, t - 1),
            t >= 3 ==> b == change(seed, t - 2),
            t >= 4 ==> a == change(seed, t - 3),
            -9 <= a <= 9,
            -9 <= b <= 9,
            -9 <= c <= 9,
            forall|w: int| 0 <= w < WINDOWS ==> seen[w] == seen_before(seed, w, t as int),
            forall|w: int|
                0 <= w < WINDOWS ==> totals[w] == earnings(seeds, w, upto) + credit(
                    seed,
                    w,
                    t as int,
                ),
        decreases STEPS + 1 - t,
    {
        num = gen_next(num);
        let now: u64 = num % 10;
        let d: i64 = now as i64 - last as i64;
        assert(d == change(seed, t as int));
        if t >= 4 {
            let key: usize = ((((a + 9) * 19 + (b + 9)) * 19 + (c + 9)) * 19 + (d + 9)) as usize;
            assert(key == window_at(seed, t as int));
            if !seen[key] {
                proof {
                    lemma_earnings_bounds(seeds, key as int, upto);
                }
                seen.set(key, true);
                totals.set(key, totals[key] + now);
            }
        }
        a = b;
        b = c;
        c = d;
        last = now;
        t += 1;
    }
}

/// The most that any window of four price changes earns from all buyers
/// together, each watched for 2000 steps and credited with the price at
/// the first time the window comes up.
pub fn part2(secrets: &Vec<u64>) -> (best: u64)
    requires
        9 * secrets.len() <= u64::MAX,
    ensures
        exists|w: int|
            0 <= w < WINDOWS && best == #[trigger] earnings(secrets@, w, secrets.len() as int),
        forall|w: int|
            0 <= w < WINDOWS ==> #[trigger] earnings(secrets@, w, secrets.len() as int) <= best,
{
    let mut totals = table(WINDOWS);
    let mut i: usize = 0;
    while i < secrets.len()
        invariant
            i <= secrets.len(),
            9 * secrets.len() <= u64::MAX,
            totals.len() == WINDOWS,
            forall|w: int| 0 <= w < WINDOWS ==> totals[w] == earnings(secrets@, w, i as int),
        decreases secrets.len() - i,
    {
        credit_buyer(&mut totals, secrets[i], Ghost(secrets@), Ghost(i as int));
        i += 1;
    }
    let mut best: u64 = totals[0];
    let ghost mut at: int = 0;
    let mut w: usize = 1;
    while w < WINDOWS
        invariant
            1 <= w <= WINDOWS,
            totals.len() == WINDOWS,
            forall|k: int|
                0 <= k < WINDOWS ==> totals[k] == #[trigger] earnings(
                    secrets@,
                    k,
                    secrets.len() as int,
                ),
            0 <= at < w,
            best == totals[at],
            forall|k: int| 0 <= k < w ==> totals[k] <= best,
        decreases WINDOWS - w,
    {
        if totals[w] > best {
            best = totals[w];
            proof {
                at = w as int;
            }
        }
        w += 1;
    }
    proof {
        assert(best == earnings(secrets@, at, secrets.len() as int));
    }
    best
}

} // verus!
