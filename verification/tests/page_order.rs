use puzzle_kernels::page_order::{
    check_rule, is_correct_order, part1, part2, settle, shuffle,
};
use std::collections::{HashMap, HashSet};

fn rules() -> HashMap<i32, Vec<i32>> {
    let pairs = [
        (47, 53), (97, 13), (97, 61), (97, 47), (75, 29), (61, 13), (75, 53), (29, 13), (97, 29),
        (53, 29), (61, 53), (97, 53), (61, 29), (47, 13), (75, 47), (97, 75), (47, 61), (75, 61),
        (47, 29), (75, 13), (53, 13),
    ];
    let mut rules: HashMap<i32, Vec<i32>> = HashMap::new();
    for (before, after) in pairs {
        rules.entry(after).or_insert(Vec::new()).push(before);
    }
    rules
}

fn orders() -> Vec<Vec<i32>> {
    vec![
        vec![75, 47, 61, 53, 29],
        vec![97, 61, 53, 29, 13],
        vec![75, 29, 13],
        vec![75, 97, 47, 61, 53],
        vec![61, 13, 29],
        vec![97, 13, 75, 29, 47],
    ]
}

#[test]
fn sample_orders_checked() {
    let rules = rules();
    let verdicts: Vec<bool> = orders().iter().map(|o| is_correct_order(&rules, o)).collect();
    assert_eq!(verdicts, vec![true, true, true, false, false, false]);
    assert_eq!(part1(&rules, &orders()), 143);
}

#[test]
fn sample_orders_repaired() {
    let rules = rules();
    assert_eq!(part2(&rules, &orders(), 100), Some(123));
    assert_eq!(settle(&rules, &vec![75, 97, 47, 61, 53], 100), Some(vec![97, 75, 47, 61, 53]));
    assert_eq!(settle(&rules, &vec![61, 13, 29], 100), Some(vec![61, 29, 13]));
    assert_eq!(settle(&rules, &vec![97, 13, 75, 29, 47], 100), Some(vec![97, 75, 47, 29, 13]));
}

#[test]
fn one_pass_exchanges_with_the_first_later_page_that_must_come_before() {
    let rules = rules();
    assert_eq!(shuffle(&rules, &vec![61, 13, 29]), vec![61, 29, 13]);
    assert_eq!(shuffle(&rules, &vec![13, 29, 61]), vec![29, 61, 13]);
    let mut sorted_after = shuffle(&rules, &vec![97, 13, 75, 29, 47]);
    sorted_after.sort();
    assert_eq!(sorted_after, vec![13, 29, 47, 75, 97]);
}

#[test]
fn rules_that_contradict_each_other_are_never_settled() {
    let mut rules: HashMap<i32, Vec<i32>> = HashMap::new();
    rules.insert(1, vec![2]);
    rules.insert(2, vec![1]);
    assert_eq!(settle(&rules, &vec![1, 2], 10), None);
    assert_eq!(part2(&rules, &vec![vec![1, 2]], 10), None);
    assert_eq!(part2(&rules, &vec![vec![1]], 0), Some(0));
}

#[test]
fn rule_against_a_set_of_pages() {
    let pages: HashSet<i32> = [1, 2, 3].into_iter().collect();
    assert!(check_rule(&vec![4, 5], &pages));
    assert!(!check_rule(&vec![4, 2], &pages));
    assert!(check_rule(&vec![], &pages));
}

#[test]
fn orders_without_pages() {
    let rules = rules();
    assert!(is_correct_order(&rules, &vec![]));
    assert_eq!(part1(&rules, &vec![vec![], vec![13]]), 13);
}
