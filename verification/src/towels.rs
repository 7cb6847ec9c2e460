//! Designs made of patterns: whether a design is a concatenation of
//! patterns from a given list, and in how many ways.
//!
//! An empty pattern adds nothing to a design and is never used.

use crate::arith::fits;
use std::collections::HashMap;
use vstd::arithmetic::overflow::CheckedU64;
use vstd::prelude::*;

verus! {

broadcast use vstd::std_specs::hash::group_hash_axioms;

/// The patterns as sequences.
pub open spec fn pattern_lists(patterns: Seq<Vec<char>>) -> Seq<Seq<char>> {
    patterns.map_values(|p: Vec<char>| p@)
}

/// The design continues at offset `i` with the pattern `p`, which is not
/// empty.
pub open spec fn starts_with(design: Seq<char>, p: Seq<char>, i: int) -> bool {
    &&& p.len() > 0
    &&& 0 <= i
    &&& i + p.len() <= design.len()
    &&& design.subrange(i, i + p.len()) == p
}

/// The number of ways to write the design from offset `i` on as a
/// concatenation of patterns: 1 at the end of the design, and before it the
/// sum, over the patterns that the design continues with, of the number of
/// ways from behind the pattern.
pub open spec fn ways(design: Seq<char>, patterns: Seq<Seq<char>>, i: int) -> nat
    decreases design.len() - i, patterns.len() + 1,
{
    if i >= design.len() {
        if i == design.len() {
            1
        } else {
            0
        }
    } else {
        ways_among(design, patterns, i, patterns.len() as int)
    }
}

/// The part of the sum that the first `k` patterns give.
pub open spec fn ways_among(design: Seq<char>, patterns: Seq<Seq<char>>, i: int, k: int) -> nat
    decreases design.len() - i, k,
{
    if k <= 0 || k > patterns.len() {
        0
    } else {
        ways_among(design, patterns, i, k - 1) + if starts_with(design, patterns[k - 1], i) {
            ways(design, patterns, i + patterns[k - 1].len())
        } else {
            0
        }
    }
}

/// The design from offset `i` on is a concatenation of patterns.
pub open spec fn buildable(design: Seq<char>, patterns: Seq<Seq<char>>, i: int) -> bool
    decreases design.len() - i, patterns.len() + 1,
{
    if i >= design.len() {
        i == design.len()
    } else {
        buildable_among(design, patterns, i, patterns.len() as int)
    }
}

/// One of the first `k` patterns continues the design at offset `i` and
/// leaves a rest that is a concatenation of patterns.
pub open spec fn buildable_among(design: Seq<char>, patterns: Seq<Seq<char>>, i: int, k: int) -> bool
    decreases design.len() - i, k,
{
    if k <= 0 || k > patterns.len() {
        false
    } else {
        buildable_among(design, patterns, i, k - 1) || (starts_with(design, patterns[k - 1], i)
            && buildable(design, patterns, i + patterns[k - 1].len()))
    }
}

/// There is exactly one way to write nothing, and before the end of the
/// design the number of ways is the sum over the patterns that fit.
pub proof fn lemma_ways_unfold(design: Seq<char>, patterns: Seq<Seq<char>>, i: int)
    requires
        0 <= i <= design.len(),
    ensures
        ways(design, patterns, design.len() as int) == 1,
        i < design.len() ==> ways(design, patterns, i) == ways_among(
            design,
            patterns,
            i,
            patterns.len() as int,
        ),
{
}

/// A design can be built exactly where the number of ways to build it is
/// at least one.
pub proof fn lemma_buildable_iff_counted(design: Seq<char>, patterns: Seq<Seq<char>>, i: int)
    requires
        0 <= i,
    ensures
        buildable(design, patterns, i) <==> ways(design, patterns, i) >= 1,
    decreases design.len() - i, patterns.len() + 1,
{
    if i < design.len() {
        lemma_among_iff_counted(design, patterns, i, patterns.len() as int);
    }
}

proof fn lemma_among_iff_counted(design: Seq<char>, patterns: Seq<Seq<char>>, i: int, k: int)
    requires
        0 <= i < design.len(),
        0 <= k <= patterns.len(),
    ensures
        buildable_among(design, patterns, i, k) <==> ways_among(design, patterns, i, k) >= 1,
    decreases design.len() - i, k,
{
    if k > 0 {
        lemma_among_iff_counted(design, patterns, i, k - 1);
        if starts_with(design, patterns[k - 1], i) {
            lemma_buildable_iff_counted(design, patterns, i + patterns[k - 1].len());
        }
    }
}

/// Whether the design continues at offset `idx` with the pattern.
fn fits_at(design: &[char], pattern: &Vec<char>, idx: usize) -> (found: bool)
    requires
        idx <= design.len(),
    ensures
        found == starts_with(design@, pattern@, idx as int),
{
    let len = pattern.len();
    if len == 0 || len > design.len() - idx {
        return false;
    }
    let mut k: usize = 0;
    while k < len
        invariant
            k <= len,
            len == pattern.len(),
            idx + len <= design.len(),
            forall|j: int| 0 <= j < k ==> design[idx + j] == pattern[j],
        decreases len - k,
    {
        if design[idx + k] != pattern[k] {
            assert(design@.subrange(idx as int, idx + len)[k as int] != pattern@[k as int]);
            return false;
        }
        k += 1;
    }
    assert(design@.subrange(idx as int, idx + len) =~= pattern@);
    true
}

/// Every remembered count is the number of ways from its offset.
pub open spec fn counts_remembered(
    design: Seq<char>,
    patterns: Seq<Seq<char>>,
    memo: Map<usize, Option<u64>>,
) -> bool {
    forall|k: usize| #[trigger]
        memo.contains_key(k) ==> k <= design.len() && fits(memo[k], ways(design, patterns, k as int) as int)
}

/// The number of ways to build the design from offset `idx` on, with the
/// counts found on the way remembered under their offsets. `None` where
/// the number does not fit in 64 bits.
pub fn count_recursion(
    design: &[char],
    design_patterns: &Vec<Vec<char>>,
    idx: usize,
    memo: &mut HashMap<usize, Option<u64>>,
) -> (count: Option<u64>)
    requires
        idx <= design.len(),
        counts_remembered(design@, pattern_lists(design_patterns@), old(memo)@),
    ensures
        fits(count, ways(design@, pattern_lists(design_patterns@), idx as int) as int),
        counts_remembered(design@, pattern_lists(design_patterns@), final(memo)@),
    decreases design.len() - idx,
{
    let ghost patterns = pattern_lists(design_patterns@);
    if idx == design.len() {
        return Some(1);
    }
    match memo.get(&idx) {
        Some(cached) => {
            return *cached;
        },
        None => {},
    }
    let mut count = CheckedU64::new(0);
    let mut k: usize = 0;
    while k < design_patterns.len()
        invariant
            k <= design_patterns.len(),
            idx < design.len(),
            patterns == pattern_lists(design_patterns@),
            counts_remembered(design@, patterns, memo@),
            count@ == ways_among(design@, patterns, idx as int, k as int),
        decreases design_patterns.len() - k,
    {
        let pattern = &design_patterns[k];
        assert(patterns[k as int] == pattern@);
        if fits_at(design, pattern, idx) {
            let rest = count_recursion(design, design_patterns, idx + pattern.len(), memo);
            let behind = match rest {
                Some(v) => CheckedU64::new(v),
                None => CheckedU64::new_overflowed(
                    Ghost(ways(design@, patterns, idx + pattern.len()) as int),
                ),
            };
            count = count.add_checked(&behind);
        }
        k += 1;
    }
    let result = count.to_option();
    memo.insert(idx, result);
    result
}

/// The number of ways to write the design as a concatenation of patterns;
/// `None` where the number does not fit in 64 bits.
pub fn count_designs(design: &[char], patterns: &Vec<Vec<char>>) -> (count: Option<u64>)
    ensures
        fits(count, ways(design@, pattern_lists(patterns@), 0) as int),
{
    let mut memo: HashMap<usize, Option<u64>> = HashMap::new();
    count_recursion(design, patterns, 0, &mut memo)
}

/// Every remembered answer says whether the design can be built from its
/// offset on.
pub open spec fn answers_remembered(
    design: Seq<char>,
    patterns: Seq<Seq<char>>,
    memo: Map<usize, bool>,
) -> bool {
    forall|k: usize| #[trigger]
        memo.contains_key(k) ==> k <= design.len() && memo[k] == buildable(design, patterns, k as int)
}

fn match_from(
    design: &[char],
    patterns: &Vec<Vec<char>>,
    idx: usize,
    memo: &mut HashMap<usize, bool>,
) -> (found: bool)
    requires
        idx <= design.len(),
        answers_remembered(design@, pattern_lists(patterns@), old(memo)@),
    ensures
        found == buildable(design@, pattern_lists(patterns@), idx as int),
        answers_remembered(design@, pattern_lists(patterns@), final(memo)@),
    decreases design.len() - idx,
{
    let ghost lists = pattern_lists(patterns@);
    if idx == design.len() {
        return true;
    }
    match memo.get(&idx) {
        Some(cached) => {
            return *cached;
        },
        None => {},
    }
    let mut found = false;
    let mut k: usize = 0;
    while k < patterns.len() && !found
        invariant
            k <= patterns.len(),
            idx < design.len(),
            lists == pattern_lists(patterns@),
            answers_remembered(design@, lists, memo@),
            found == buildable_among(design@, lists, idx as int, k as int),
            found ==> buildable_among(design@, lists, idx as int, patterns.len() as int),
        decreases patterns.len() - k,
    {
        let pattern = &patterns[k];
        assert(lists[k as int] == pattern@);
        if fits_at(design, pattern, idx) {
            if match_from(design, patterns, idx + pattern.len(), memo) {
                found = true;
                proof {
                    lemma_found_stays(design@, lists, idx as int, k + 1, patterns.len() as int);
                }
            }
        }
        k += 1;
    }
    memo.insert(idx, found);
    found
}

proof fn lemma_found_stays(design: Seq<char>, patterns: Seq<Seq<char>>, i: int, k: int, upto: int)
    requires
        0 <= k <= upto <= patterns.len(),
        buildable_among(design, patterns, i, k),
    ensures
        buildable_among(design, patterns, i, upto),
    decreases upto - k,
{
    if k < upto {
        lemma_found_stays(design, patterns, i, k, upto - 1);
    }
}

/// Whether the design is a concatenation of patterns.
pub fn match_design(design: &[char], patterns: &Vec<Vec<char>>) -> (found: bool)
    ensures
        found == buildable(design@, pattern_lists(patterns@), 0),
        found == (ways(design@, pattern_lists(patterns@), 0) >= 1),
{
    let mut memo: HashMap<usize, bool> = HashMap::new();
    proof {
        lemma_buildable_iff_counted(design@, pattern_lists(patterns@), 0);
    }
    match_from(design, patterns, 0, &mut memo)
}

} // verus!
