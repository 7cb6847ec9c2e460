//! Ordering rules for pages: for a page, the rule set lists the pages that
//! must appear before it. An order breaks a rule when one of those pages
//! appears after the page instead.

use std::collections::{HashMap, HashSet};
use vstd::prelude::*;

verus! {

broadcast use vstd::std_specs::hash::group_hash_axioms;

/// `other` is listed among the pages that must come before `page`.
pub open spec fn must_precede(rules: Map<i32, Vec<i32>>, page: i32, other: i32) -> bool {
    rules.contains_key(page) && rules[page]@.contains(other)
}

/// The page at place `i` is followed by none of the pages that must come
/// before it.
pub open spec fn place_in_order(rules: Map<i32, Vec<i32>>, order: Seq<i32>, i: int) -> bool {
    forall|j: int| i < j < order.len() ==> !must_precede(rules, order[i], #[trigger] order[j])
}

/// No page of the order is followed by a page that must come before it.
pub open spec fn correct_order(rules: Map<i32, Vec<i32>>, order: Seq<i32>) -> bool {
    forall|i: int| 0 <= i < order.len() ==> #[trigger] place_in_order(rules, order, i)
}

/// Whether none of the pages in `rules` is among `pages`.
pub fn check_rule(rules: &Vec<i32>, pages: &HashSet<i32>) -> (ok: bool)
    ensures
        ok == (forall|k: int| 0 <= k < rules.len() ==> !pages@.contains(#[trigger] rules[k])),
{
    let mut k: usize = 0;
    while k < rules.len()
        invariant
            k <= rules.len(),
            forall|m: int| 0 <= m < k ==> !pages@.contains(#[trigger] rules[m]),
        decreases rules.len() - k,
    {
        if pages.contains(&rules[k]) {
            return false;
        }
        k += 1;
    }
    true
}

/// Whether the pages stand in an order that breaks no rule.
pub fn is_correct_order(rules: &HashMap<i32, Vec<i32>>, page_order: &Vec<i32>) -> (ok: bool)
    ensures
        ok == correct_order(rules@, page_order@),
{
    let mut i: usize = 0;
    while i < page_order.len()
        invariant
            i <= page_order.len(),
            forall|m: int| 0 <= m < i ==> #[trigger] place_in_order(rules@, page_order@, m),
        decreases page_order.len() - i,
    {
        match rules.get(&page_order[i]) {
            Some(before) => {
                let mut remaining: HashSet<i32> = HashSet::new();
                let mut j: usize = i + 1;
                while j < page_order.len()
                    invariant
                        i < j <= page_order.len(),
                        forall|p: i32|
                            remaining@.contains(p) <==> exists|m: int|
                                i < m < j && #[trigger] page_order[m] == p,
                    decreases page_order.len() - j,
                {
                    remaining.insert(page_order[j]);
                    j += 1;
                }
                if !check_rule(before, &remaining) {
                    proof {
                        let k = choose|k: int|
                            0 <= k < before.len() && remaining@.contains(#[trigger] before[k]);
                        let m = choose|m: int|
                            i < m < page_order.len() && #[trigger] page_order[m] == before[k];
                        assert(must_precede(rules@, page_order[i as int], page_order[m]));
                        assert(!place_in_order(rules@, page_order@, i as int));
                    }
                    return false;
                }
                proof {
                    assert forall|m: int| i < m < page_order.len() implies !must_precede(
                        rules@,
                        page_order[i as int],
                        #[trigger] page_order[m],
                    ) by {
                        if must_precede(rules@, page_order[i as int], page_order[m]) {
                            let k = choose|k: int|
                                0 <= k < before.len() && before[k] == page_order[m];
                            assert(remaining@.contains(page_order[m]));
                            assert(!remaining@.contains(before[k]));
                        }
                    }
                }
            },
            None => {},
        }
        i += 1;
    }
    true
}

/// The first place from `j` on whose page must come before the page at
/// place `i`, or the length of the order where there is none.
pub open spec fn first_breach(rules: Map<i32, Vec<i32>>, order: Seq<i32>, i: int, j: int) -> int
    decreases order.len() - j,
{
    if j >= order.len() {
        order.len() as int
    } else if must_precede(rules, order[i], order[j]) {
        j
    } else {
        first_breach(rules, order, i, j + 1)
    }
}

/// The order with the pages at places `i` and `j` exchanged.
pub open spec fn exchanged(order: Seq<i32>, i: int, j: int) -> Seq<i32> {
    order.update(i, order[j]).update(j, order[i])
}

/// One pass of repairs from place `i` on: each page in turn changes places
/// with the first later page that must come before it, if there is one.
pub open spec fn shuffled_from(rules: Map<i32, Vec<i32>>, order: Seq<i32>, i: int) -> Seq<i32>
    decreases order.len() - i,
{
    if i < 0 || i >= order.len() {
        order
    } else {
        let j = first_breach(rules, order, i, i + 1);
        if i < j < order.len() {
            shuffled_from(rules, exchanged(order, i, j), i + 1)
        } else {
            shuffled_from(rules, order, i + 1)
        }
    }
}

fn list_has(list: &Vec<i32>, x: i32) -> (found: bool)
    ensures
        found == list@.contains(x),
{
    let mut i: usize = 0;
    while i < list.len()
        invariant
            i <= list.len(),
            forall|j: int| 0 <= j < i ==> list[j] != x,
        decreases list.len() - i,
    {
        if list[i] == x {
            return true;
        }
        i += 1;
    }
    false
}

/// One pass of repairs over the order: going through the places from the
/// first, a page that is followed by a page that must come before it
/// changes places with the first such page.
pub fn shuffle(rules: &HashMap<i32, Vec<i32>>, page_order: &Vec<i32>) -> (new_order: Vec<i32>)
    ensures
        new_order@ == shuffled_from(rules@, page_order@, 0),
        new_order@.to_multiset() == page_order@.to_multiset(),
{
    let mut new_order = page_order.clone();
    let mut i: usize = 0;
    while i < new_order.len()
        invariant
            i <= new_order.len(),
            new_order.len() == page_order.len(),
            shuffled_from(rules@, new_order@, i as int) == shuffled_from(rules@, page_order@, 0),
            new_order@.to_multiset() == page_order@.to_multiset(),
        decreases new_order.len() - i,
    {
        match rules.get(&new_order[i]) {
            Some(rule) => {
                let mut j: usize = i + 1;
                while j < new_order.len() && !list_has(rule, new_order[j])
                    invariant
                        i < j <= new_order.len(),
                        rules@.contains_key(new_order[i as int]),
                        rules@[new_order[i as int]] == *rule,
                        first_breach(rules@, new_order@, i as int, j as int) == first_breach(
                            rules@,
                            new_order@,
                            i as int,
                            i + 1,
                        ),
                    decreases new_order.len() - j,
                {
                    j += 1;
                }
                if j < new_order.len() {
                    let ghost before = new_order@;
                    let a = new_order[i];
                    let b = new_order[j];
                    new_order.set(i, b);
                    new_order.set(j, a);
                    proof {
                        assert(new_order@ == exchanged(before, i as int, j as int));
                        lemma_exchange_keeps_pages(before, i as int, j as int);
                    }
                }
            },
            None => {
                assert(first_breach(rules@, new_order@, i as int, i + 1) == new_order.len()) by {
                    lemma_no_rule_no_breach(rules@, new_order@, i as int, i + 1);
                }
            },
        }
        i += 1;
    }
    new_order
}

/// Exchanging two pages neither adds nor loses a page.
proof fn lemma_exchange_keeps_pages(order: Seq<i32>, i: int, j: int)
    requires
        0 <= i < order.len(),
        0 <= j < order.len(),
    ensures
        exchanged(order, i, j).to_multiset() == order.to_multiset(),
{
    broadcast use vstd::multiset::group_multiset_axioms;

    let mid = order.update(i, order[j]);
    vstd::seq_lib::to_multiset_update(order, i, order[j]);
    vstd::seq_lib::to_multiset_update(mid, j, order[i]);
    vstd::seq_lib::to_multiset_contains(order, order[i]);
    vstd::seq_lib::to_multiset_contains(order, order[j]);
    assert(order.contains(order[i]));
    assert(order.contains(order[j]));
    if i != j {
        assert(mid[j] == order[j]);
    }
    assert(exchanged(order, i, j).to_multiset() =~= order.to_multiset());
}

proof fn lemma_no_rule_no_breach(rules: Map<i32, Vec<i32>>, order: Seq<i32>, i: int, j: int)
    requires
        0 <= i < order.len(),
        0 <= j,
        !rules.contains_key(order[i]),
    ensures
        first_breach(rules, order, i, j) == order.len(),
    decreases order.len() - j,
{
    if j < order.len() {
        lemma_no_rule_no_breach(rules, order, i, j + 1);
    }
}

/// The page in the middle of an order; 0 for an order without pages.
pub open spec fn middle(order: Seq<i32>) -> int {
    if order.len() == 0 {
        0
    } else {
        order[(order.len() - 1) / 2] as int
    }
}

/// The sum of the middle pages of those of the first `upto` orders that
/// break no rule.
pub open spec fn middle_sum(rules: Map<i32, Vec<i32>>, orders: Seq<Vec<i32>>, upto: int) -> int
    decreases upto,
{
    if upto <= 0 {
        0
    } else {
        middle_sum(rules, orders, upto - 1) + if correct_order(rules, orders[upto - 1]@) {
            middle(orders[upto - 1]@)
        } else {
            0
        }
    }
}

fn middle_page(order: &Vec<i32>) -> (page: i32)
    ensures
        page == middle(order@),
{
    if order.len() == 0 {
        0
    } else {
        order[(order.len() - 1) / 2]
    }
}

/// The sum of the middle pages of the orders that break no rule.
pub fn part1(rules: &HashMap<i32, Vec<i32>>, page_orders: &Vec<Vec<i32>>) -> (sum: i128)
    ensures
        sum == middle_sum(rules@, page_orders@, page_orders.len() as int),
{
    let mut sum: i128 = 0;
    let mut i: usize = 0;
    while i < page_orders.len()
        invariant
            i <= page_orders.len(),
            sum == middle_sum(rules@, page_orders@, i as int),
            -0x8000_0000 * i <= sum <= 0x8000_0000 * i,
        decreases page_orders.len() - i,
    {
        if is_correct_order(rules, &page_orders[i]) {
            sum = sum + middle_page(&page_orders[i]) as i128;
        }
        i += 1;
    }
    sum
}

/// The order after passes of repairs until it breaks no rule, if that takes
/// at most `passes` passes.
pub open spec fn settled(rules: Map<i32, Vec<i32>>, order: Seq<i32>, passes: nat) -> Option<Seq<i32>>
    decreases passes,
{
    if correct_order(rules, order) {
        Some(order)
    } else if passes == 0 {
        None
    } else {
        settled(rules, shuffled_from(rules, order, 0), (passes - 1) as nat)
    }
}

/// The sum of the middle pages of those of the first `upto` orders that
/// break a rule, each repaired first; `None` where one of them is not
/// repaired after `passes` passes.
pub open spec fn repaired_sum(
    rules: Map<i32, Vec<i32>>,
    orders: Seq<Vec<i32>>,
    passes: nat,
    upto: int,
) -> Option<int>
    decreases upto,
{
    if upto <= 0 {
        Some(0)
    } else {
        match repaired_sum(rules, orders, passes, upto - 1) {
            None => None,
            Some(before) => if correct_order(rules, orders[upto - 1]@) {
                Some(before)
            } else {
                match settled(rules, orders[upto - 1]@, passes) {
                    Some(order) => Some(before + middle(order)),
                    None => None,
                }
            },
        }
    }
}

proof fn lemma_repair_fails_for_good(
    rules: Map<i32, Vec<i32>>,
    orders: Seq<Vec<i32>>,
    passes: nat,
    upto: int,
    later: int,
)
    requires
        upto <= later,
        repaired_sum(rules, orders, passes, upto).is_none(),
    ensures
        repaired_sum(rules, orders, passes, later).is_none(),
    decreases later - upto,
{
    if upto < later {
        lemma_repair_fails_for_good(rules, orders, passes, upto, later - 1);
    }
}

/// The order repaired by passes of `shuffle` until it breaks no rule, or
/// `None` where `passes` passes are not enough.
pub fn settle(rules: &HashMap<i32, Vec<i32>>, page_order: &Vec<i32>, passes: usize) -> (order: Option<
    Vec<i32>,
>)
    ensures
        match settled(rules@, page_order@, passes as nat) {
            Some(list) => order.is_some() && order.unwrap()@ == list,
            None => order.is_none(),
        },
{
    let mut current = page_order.clone();
    let mut left = passes;
    loop
        invariant
            settled(rules@, current@, left as nat) == settled(rules@, page_order@, passes as nat),
        decreases left,
    {
        if is_correct_order(rules, &current) {
            return Some(current);
        }
        if left == 0 {
            return None;
        }
        current = shuffle(rules, &current);
        left -= 1;
    }
}

/// The sum of the middle pages of the orders that break a rule, each
/// repaired by at most `passes` passes of `shuffle`; `None` where an order
/// is not repaired by then.
pub fn part2(rules: &HashMap<i32, Vec<i32>>, page_orders: &Vec<Vec<i32>>, passes: usize) -> (sum: Option<
    i128,
>)
    ensures
        match repaired_sum(rules@, page_orders@, passes as nat, page_orders.len() as int) {
            Some(v) => sum == Some(v as i128),
            None => sum.is_none(),
        },
{
    let mut sum: i128 = 0;
    let mut i: usize = 0;
    while i < page_orders.len()
        invariant
            i <= page_orders.len(),
            repaired_sum(rules@, page_orders@, passes as nat, i as int) == Some(sum as int),
            -0x8000_0000 * i <= sum <= 0x8000_0000 * i,
        decreases page_orders.len() - i,
    {
        if !is_correct_order(rules, &page_orders[i]) {
            match settle(rules, &page_orders[i], passes) {
                Some(order) => {
                    sum = sum + middle_page(&order) as i128;
                },
                None => {
                    proof {
                        lemma_repair_fails_for_good(
                            rules@,
                            page_orders@,
                            passes as nat,
                            i + 1,
                            page_orders.len() as int,
                        );
                    }
                    return None;
                },
            }
        }
        i += 1;
    }
    Some(sum)
}

} // verus!
