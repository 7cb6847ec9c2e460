use puzzle_kernels::towels::{count_designs, match_design};

fn chars(text: &str) -> Vec<char> {
    text.chars().collect()
}

fn patterns() -> Vec<Vec<char>> {
    ["r", "wr", "b", "g", "bwu", "rb", "gb", "br"].iter().map(|p| chars(p)).collect()
}

fn designs() -> Vec<Vec<char>> {
    ["brwrr", "bggr", "gbbr", "rrbgbr", "ubwu", "bwurrg", "brgr", "bbrgwb"]
        .iter()
        .map(|d| chars(d))
        .collect()
}

#[test]
fn sample_designs_that_can_be_built() {
    let patterns = patterns();
    let built: Vec<bool> = designs().iter().map(|d| match_design(d, &patterns)).collect();
    assert_eq!(built, vec![true, true, true, true, false, true, true, false]);
    assert_eq!(built.iter().filter(|b| **b).count(), 6);
}

#[test]
fn sample_designs_counted() {
    let patterns = patterns();
    let counts: Vec<Option<u64>> = designs().iter().map(|d| count_designs(d, &patterns)).collect();
    assert_eq!(
        counts,
        vec![Some(2), Some(1), Some(4), Some(6), Some(0), Some(1), Some(2), Some(0)]
    );
    assert_eq!(counts.iter().map(|c| c.unwrap()).sum::<u64>(), 16);
}

#[test]
fn the_empty_design_has_one_way() {
    assert_eq!(count_designs(&chars(""), &patterns()), Some(1));
    assert!(match_design(&chars(""), &patterns()));
    assert_eq!(count_designs(&chars(""), &vec![]), Some(1));
    assert_eq!(count_designs(&chars("r"), &vec![]), Some(0));
}

#[test]
fn empty_patterns_are_not_used() {
    let with_empty = vec![chars(""), chars("a")];
    assert_eq!(count_designs(&chars("aaa"), &with_empty), Some(1));
    assert!(match_design(&chars("aaa"), &with_empty));
    assert!(!match_design(&chars("ab"), &with_empty));
}

#[test]
fn counted_at_least_once_exactly_where_buildable() {
    let patterns = patterns();
    for design in designs() {
        let count = count_designs(&design, &patterns).unwrap();
        assert_eq!(match_design(&design, &patterns), count >= 1);
    }
}

#[test]
fn counts_grow_like_fibonacci_and_overflow_is_reported() {
    let patterns = vec![chars("a"), chars("aa")];
    let design: Vec<char> = std::iter::repeat('a').take(10).collect();
    assert_eq!(count_designs(&design, &patterns), Some(89));
    let long: Vec<char> = std::iter::repeat('a').take(92).collect();
    assert_eq!(count_designs(&long, &patterns), Some(12200160415121876738));
    let longer: Vec<char> = std::iter::repeat('a').take(93).collect();
    assert_eq!(count_designs(&longer, &patterns), None);
    assert!(match_design(&longer, &patterns));
}
