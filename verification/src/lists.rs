//! Two lists of location numbers: how far apart they are when both are put
//! in order, and how similar they are.

use vstd::arithmetic::overflow::CheckedU64;
use vstd::prelude::*;
use vstd::relations::{sorted_by, total_ordering};
use vstd::seq_lib::lemma_sorted_unique;

use crate::arith::fits;

verus! {

/// The order of the numbers.
pub open spec fn at_most() -> spec_fn(i32, i32) -> bool {
    |a: i32, b: i32| a <= b
}

/// The list in rising order.
pub open spec fn ascending(list: Seq<i32>) -> Seq<i32> {
    list.sort_by(at_most())
}

/// `<[i32]>::sort` of the standard library, on a copy of the list: the
/// result holds the numbers of the list, each as often as the list does,
/// in rising order.
#[verifier::external_body]
fn sorted_copy(list: &Vec<i32>) -> (sorted: Vec<i32>)
    ensures
        sorted_by(sorted@, at_most()),
        sorted@.to_multiset() == list@.to_multiset(),
{
    let mut sorted = list.clone();
    sorted.sort();
    sorted
}

/// The list in rising order.
pub fn sort(list: &Vec<i32>) -> (sorted: Vec<i32>)
    ensures
        sorted@ == ascending(list@),
{
    let sorted = sorted_copy(list);
    proof {
        assert(total_ordering(at_most()));
        list@.lemma_sort_by_ensures(at_most());
        lemma_sorted_unique(sorted@, ascending(list@), at_most());
    }
    sorted
}

/// The distance between two numbers.
pub open spec fn gap(a: i32, b: i32) -> int {
    if a >= b {
        a - b
    } else {
        b - a
    }
}

/// The sum of the distances between the numbers at the same places of two
/// lists, for the places below `upto`.
pub open spec fn gaps(one: Seq<i32>, other: Seq<i32>, upto: int) -> int
    decreases upto,
{
    if upto <= 0 {
        0
    } else {
        gaps(one, other, upto - 1) + gap(one[upto - 1], other[upto - 1])
    }
}

/// The shorter of two lengths.
pub open spec fn shorter(a: int, b: int) -> int {
    if a <= b {
        a
    } else {
        b
    }
}

/// The sum of the distances between the numbers of the two columns, the
/// smallest paired with the smallest, the second smallest with the second
/// smallest and so on; numbers that find no partner are left out. `None`
/// where the sum does not fit in 64 bits.
pub fn part1(col1: &Vec<i32>, col2: &Vec<i32>) -> (dist: Option<u64>)
    ensures
        fits(
            dist,
            gaps(ascending(col1@), ascending(col2@), shorter(col1.len() as int, col2.len() as int)),
        ),
{
    let one = sort(col1);
    let other = sort(col2);
    proof {
        col1@.lemma_sort_by_ensures(at_most());
        col2@.lemma_sort_by_ensures(at_most());
        vstd::seq_lib::to_multiset_len(col1@);
        vstd::seq_lib::to_multiset_len(col2@);
        vstd::seq_lib::to_multiset_len(one@);
        vstd::seq_lib::to_multiset_len(other@);
    }
    let pairs = if one.len() <= other.len() {
        one.len()
    } else {
        other.len()
    };
    let mut dist = CheckedU64::new(0);
    let mut i: usize = 0;
    while i < pairs
        invariant
            i <= pairs,
            pairs <= one.len(),
            pairs <= other.len(),
            dist@ == gaps(one@, other@, i as int),
        decreases pairs - i,
    {
        let a = one[i] as i64;
        let b = other[i] as i64;
        let apart: u64 = if a >= b {
            (a - b) as u64
        } else {
            (b - a) as u64
        };
        dist = dist.add_value(apart);
        i += 1;
    }
    dist.to_option()
}

/// How often `value` occurs among the first `upto` numbers of the list.
pub open spec fn occurrences(list: Seq<i32>, value: i32, upto: int) -> int
    decreases upto,
{
    if upto <= 0 {
        0
    } else {
        occurrences(list, value, upto - 1) + if list[upto - 1] == value {
            1int
        } else {
            0int
        }
    }
}

/// The sum, over the first `upto` numbers of the first list, of the number
/// times how often it occurs in the second list.
pub open spec fn similarity(one: Seq<i32>, other: Seq<i32>, upto: int) -> int
    decreases upto,
{
    if upto <= 0 {
        0
    } else {
        similarity(one, other, upto - 1) + one[upto - 1] * occurrences(
            other,
            one[upto - 1],
            other.len() as int,
        )
    }
}

fn count_of(list: &Vec<i32>, value: i32) -> (count: usize)
    ensures
        count == occurrences(list@, value, list.len() as int),
        count <= list.len(),
{
    let mut count: usize = 0;
    let mut i: usize = 0;
    while i < list.len()
        invariant
            i <= list.len(),
            count <= i,
            count == occurrences(list@, value, i as int),
        decreases list.len() - i,
    {
        if list[i] == value {
            count += 1;
        }
        i += 1;
    }
    count
}

/// The similarity of the two columns: every number of the first column
/// times how often it occurs in the second, added up. `None` where the sum
/// does not fit in 64 bits with a sign.
pub fn part2(col1: &Vec<i32>, col2: &Vec<i32>) -> (score: Option<i64>)
    requires
        col1.len() * col2.len() <= u64::MAX,
    ensures
        ({
            let total = similarity(col1@, col2@, col1.len() as int);
            match score {
                Some(v) => v == total,
                None => total < i64::MIN || total > i64::MAX,
            }
        }),
{
    let mut total: i128 = 0;
    let mut i: usize = 0;
    while i < col1.len()
        invariant
            i <= col1.len(),
            col1.len() * col2.len() <= u64::MAX,
            total == similarity(col1@, col2@, i as int),
            -0x8000_0000 * (i * col2.len()) <= total <= 0x8000_0000 * (i * col2.len()),
        decreases col1.len() - i,
    {
        let value = col1[i];
        let count = count_of(col2, value);
        proof {
            let n = col2.len() as int;
            let bound = col1.len() * col2.len();
            assert(-0x8000_0000 * n <= value * count <= 0x8000_0000 * n) by (nonlinear_arith)
                requires
                    -0x8000_0000 <= value <= 0x8000_0000,
                    0 <= count <= n,
            ;
            assert((i + 1) * n == i * n + n && 0 <= i * n && (i + 1) * n <= bound)
                by (nonlinear_arith)
                requires
                    0 <= i,
                    i + 1 <= col1.len(),
                    n >= 0,
                    bound == col1.len() * n,
            ;
        }
        total = total + (value as i128) * (count as i128);
        i += 1;
    }
    if total < i64::MIN as i128 || total > i64::MAX as i128 {
        None
    } else {
        Some(total as i64)
    }
}

} // verus!
