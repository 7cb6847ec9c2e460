//! Stones with numbers that change with every blink: a 0 becomes a 1, a
//! number with an even count of digits splits into its two halves, and any
//! other number is multiplied by 2024.

use std::collections::HashMap;
use vstd::prelude::*;

verus! {

broadcast use vstd::std_specs::hash::group_hash_axioms;

/// The number of decimal digits of `n`; 0 has one digit.
pub open spec fn digits(n: nat) -> nat
    decreases n,
{
    if n < 10 {
        1
    } else {
        1 + digits(n / 10)
    }
}

/// Ten to the power `e`.
pub open spec fn pow10(e: nat) -> nat
    decreases e,
{
    if e == 0 {
        1
    } else {
        10 * pow10((e - 1) as nat)
    }
}

/// The stones that a stone becomes with one blink. `None` where the
/// product with 2024 does not fit in 64 bits.
pub open spec fn rule(stone: u64) -> Option<Seq<u64>> {
    if stone == 0 {
        Some(seq![1u64])
    } else if digits(stone as nat) % 2 == 0 {
        let half = pow10(digits(stone as nat) / 2);
        Some(seq![(stone as nat % half) as u64, (stone as nat / half) as u64])
    } else if stone * 2024 <= u64::MAX {
        Some(seq![(stone * 2024) as u64])
    } else {
        None
    }
}

/// The number of stones that a stone has become after `blinks` blinks.
/// `None` where a stone on the way or the number does not fit in 64 bits.
pub open spec fn tally(stone: u64, blinks: nat) -> Option<u64>
    decreases blinks,
{
    if blinks == 0 {
        Some(1u64)
    } else {
        match rule(stone) {
            None => None,
            Some(next) => if next.len() == 1 {
                tally(next[0], (blinks - 1) as nat)
            } else {
                match (tally(next[0], (blinks - 1) as nat), tally(next[1], (blinks - 1) as nat)) {
                    (Some(a), Some(b)) => if a + b <= u64::MAX {
                        Some((a + b) as u64)
                    } else {
                        None
                    },
                    _ => None,
                }
            },
        }
    }
}

/// The number of stones that the first `upto` stones have become after
/// `blinks` blinks; `None` where a count does not fit in 64 bits.
pub open spec fn tally_all(stones: Seq<u64>, blinks: nat, upto: int) -> Option<u64>
    decreases upto,
{
    if upto <= 0 {
        Some(0u64)
    } else {
        match (tally_all(stones, blinks, upto - 1), tally(stones[upto - 1], blinks)) {
            (Some(a), Some(b)) => if a + b <= u64::MAX {
                Some((a + b) as u64)
            } else {
                None
            },
            _ => None,
        }
    }
}

/// The number of decimal digits of the stone.
pub fn num_digits(stone: u64) -> (count: u32)
    ensures
        count == digits(stone as nat),
        1 <= count <= 20,
{
    let mut rest = stone;
    let mut count: u32 = 1;
    assert(pow10(0) == 1);
    assert(rest * pow10((count - 1) as nat) == stone) by (nonlinear_arith)
        requires
            rest == stone,
            pow10((count - 1) as nat) == 1,
    ;
    while rest >= 10
        invariant
            1 <= count,
            count + digits(rest as nat) == 1 + digits(stone as nat),
            rest * pow10((count - 1) as nat) <= stone,
            count <= 20,
        decreases rest,
    {
        proof {
            let e = (count - 1) as nat;
            assert(pow10(e + 1) == 10 * pow10(e));
            assert((rest / 10) * pow10(e + 1) <= rest * pow10(e)) by (nonlinear_arith)
                requires
                    pow10(e + 1) == 10 * pow10(e),
                    rest >= 0,
                    pow10(e) >= 0,
            ;
            if count == 20 {
                lemma_pow10_20();
                assert(rest * pow10(19) >= 10 * pow10(19)) by (nonlinear_arith)
                    requires
                        rest >= 10,
                        pow10(19) >= 0,
                ;
            }
        }
        rest = rest / 10;
        count += 1;
    }
    count
}

proof fn lemma_pow10_20()
    ensures
        pow10(19) == 10_000_000_000_000_000_000,
{
    reveal_with_fuel(pow10, 20);
}

proof fn lemma_pow10_grows(a: nat, b: nat)
    requires
        a <= b,
    ensures
        1 <= pow10(a) <= pow10(b),
    decreases b,
{
    if a < b {
        lemma_pow10_grows(a, (b - 1) as nat);
    } else if a > 0 {
        lemma_pow10_grows((a - 1) as nat, (a - 1) as nat);
    }
}

fn power_of_ten(e: u32) -> (p: u64)
    requires
        e <= 19,
    ensures
        p == pow10(e as nat),
{
    let mut p: u64 = 1;
    let mut k: u32 = 0;
    while k < e
        invariant
            k <= e <= 19,
            p == pow10(k as nat),
        decreases e - k,
    {
        proof {
            lemma_pow10_grows((k + 1) as nat, 19);
            lemma_pow10_20();
        }
        p = p * 10;
        k += 1;
    }
    p
}

/// The stones that the stone becomes with one blink; `None` where the
/// product with 2024 does not fit in 64 bits.
pub fn apply_rule(stone: u64) -> (next: Option<Vec<u64>>)
    ensures
        match rule(stone) {
            Some(list) => next.is_some() && next.unwrap()@ == list,
            None => next.is_none(),
        },
{
    if stone == 0 {
        let mut list: Vec<u64> = Vec::new();
        list.push(1);
        assert(list@ =~= seq![1u64]);
        return Some(list);
    }
    let count = num_digits(stone);
    if count % 2 == 0 {
        let half = power_of_ten(count / 2);
        proof {
            lemma_pow10_grows(0, (count / 2) as nat);
        }
        let mut list: Vec<u64> = Vec::new();
        list.push(stone % half);
        list.push(stone / half);
        assert(list@ =~= seq![(stone as nat % half as nat) as u64, (stone as nat / half as nat) as u64]);
        Some(list)
    } else if stone > u64::MAX / 2024 {
        None
    } else {
        let mut list: Vec<u64> = Vec::new();
        list.push(stone * 2024);
        assert(list@ =~= seq![(stone * 2024) as u64]);
        Some(list)
    }
}

/// The key under which the count for a stone and a number of blinks is
/// remembered.
pub open spec fn memo_key(stone: u64, blinks: u32) -> u128 {
    (stone as u128 * 0x1_0000_0000 + blinks as u128) as u128
}

/// Every remembered count is the count for its stone and its number of
/// blinks.
pub open spec fn remembered(memo: Map<u128, Option<u64>>) -> bool {
    forall|stone: u64, blinks: u32| #[trigger]
        memo.contains_key(memo_key(stone, blinks)) ==> memo[memo_key(stone, blinks)] == tally(
            stone,
            blinks as nat,
        )
}

fn checked_sum(a: Option<u64>, b: Option<u64>) -> (sum: Option<u64>)
    ensures
        sum == match (a, b) {
            (Some(x), Some(y)) => if x + y <= u64::MAX {
                Some((x + y) as u64)
            } else {
                None
            },
            _ => None,
        },
{
    match (a, b) {
        (Some(x), Some(y)) => if x > u64::MAX - y {
            None
        } else {
            Some(x + y)
        },
        _ => None,
    }
}

proof fn lemma_keys_differ(s1: u64, b1: u32, s2: u64, b2: u32)
    requires
        memo_key(s1, b1) == memo_key(s2, b2),
    ensures
        s1 == s2,
        b1 == b2,
{
}

/// The number of stones that the stone has become after the given number
/// of blinks, with the counts found on the way remembered.
fn count_from(stone: u64, blinks: u32, memo: &mut HashMap<u128, Option<u64>>) -> (count: Option<u64>)
    requires
        remembered(old(memo)@),
    ensures
        count == tally(stone, blinks as nat),
        remembered(final(memo)@),
    decreases blinks,
{
    if blinks == 0 {
        return Some(1);
    }
    let key: u128 = stone as u128 * 0x1_0000_0000 + blinks as u128;
    assert(key == memo_key(stone, blinks));
    match memo.get(&key) {
        Some(known) => {
            return *known;
        },
        None => {},
    }
    let count = match apply_rule(stone) {
        None => None,
        Some(next) => {
            if next.len() == 1 {
                count_from(next[0], blinks - 1, memo)
            } else {
                let left = count_from(next[0], blinks - 1, memo);
                let right = count_from(next[1], blinks - 1, memo);
                checked_sum(left, right)
            }
        },
    };
    let ghost before = memo@;
    memo.insert(key, count);
    proof {
        assert forall|s: u64, b: u32| #[trigger]
            memo@.contains_key(memo_key(s, b)) implies memo@[memo_key(s, b)] == tally(
            s,
            b as nat,
        ) by {
            if memo_key(s, b) == key {
                lemma_keys_differ(s, b, stone, blinks);
            } else {
                assert(before.contains_key(memo_key(s, b)));
            }
        }
    }
    count
}

/// The number of stones after the given number of blinks; `None` where a
/// stone or a count does not fit in 64 bits.
pub fn count_stones(stones: &Vec<u64>, blink_count: u32) -> (count: Option<u64>)
    ensures
        count == tally_all(stones@, blink_count as nat, stones.len() as int),
{
    let mut memo: HashMap<u128, Option<u64>> = HashMap::new();
    let mut count: Option<u64> = Some(0);
    let mut i: usize = 0;
    while i < stones.len()
        invariant
            i <= stones.len(),
            remembered(memo@),
            count == tally_all(stones@, blink_count as nat, i as int),
        decreases stones.len() - i,
    {
        let more = count_from(stones[i], blink_count, &mut memo);
        count = checked_sum(count, more);
        i += 1;
    }
    count
}

} // verus!
