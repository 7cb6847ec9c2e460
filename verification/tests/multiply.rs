use puzzle_kernels::multiply::{part1, part2};

#[test]
fn sample_text() {
    let text = "xmul(2,4)%&mul[3,7]!@^do_not_mul(5,5)+mul(32,64]then(mul(11,8)mul(8,5))";
    assert_eq!(part1(text), Some(161));
}

#[test]
fn sample_text_with_switches() {
    let text = "xmul(2,4)&mul[3,7]!^don't()_mul(5,5)+mul(32,64](mul(11,8)undo()?mul(8,5))";
    assert_eq!(part1(text), Some(161));
    assert_eq!(part2(text), Some(48));
}

#[test]
fn numbers_have_one_to_three_digits() {
    assert_eq!(part1("mul(1,2)"), Some(2));
    assert_eq!(part1("mul(999,999)"), Some(998001));
    assert_eq!(part1("mul(1000,2)"), Some(0));
    assert_eq!(part1("mul(2,1000)"), Some(0));
    assert_eq!(part1("mul(,2)"), Some(0));
    assert_eq!(part1("mul(2,)"), Some(0));
    assert_eq!(part1("mul( 2,3)"), Some(0));
    assert_eq!(part1("mul(2, 3)"), Some(0));
    assert_eq!(part1("mul(007,010)"), Some(70));
}

#[test]
fn broken_instructions_and_text_ends() {
    assert_eq!(part1(""), Some(0));
    assert_eq!(part1("mul(3,4"), Some(0));
    assert_eq!(part1("mul(3,"), Some(0));
    assert_eq!(part1("mul("), Some(0));
    assert_eq!(part1("mumul(3,4)"), Some(12));
    assert_eq!(part1("mul(mul(3,4)"), Some(12));
    assert_eq!(part1("mul(2,3)mul(4,5)"), Some(26));
}

#[test]
fn other_characters_are_no_digits() {
    assert_eq!(part1("mul(\u{0663},4)"), Some(0));
    assert_eq!(part1("\u{00e9}mul(3,4)\u{4e2d}"), Some(12));
    assert_eq!(part2("\u{00e9}mul(3,4)\u{4e2d}don't()mul(1,1)"), Some(12));
}

#[test]
fn switches() {
    assert_eq!(part2("don't()mul(2,3)do()mul(4,5)"), Some(20));
    assert_eq!(part2("do()mul(2,3)"), Some(6));
    assert_eq!(part2("don't()don't()do()mul(2,3)"), Some(6));
    assert_eq!(part2("don't()mul(2,3)"), Some(0));
    assert_eq!(part2("do(mul(2,3)don't)mul(2,5)"), Some(16));
}
