use puzzle_kernels::word_search::{match_word, part1, part2};

fn parse(lines: &[&str]) -> Vec<Vec<char>> {
    lines.iter().map(|line| line.chars().collect()).collect()
}

fn sample() -> Vec<Vec<char>> {
    parse(&[
        "MMMSXXMASM",
        "MSAMXMSMSA",
        "AMXSXMAAMM",
        "MSAMASMSMX",
        "XMASAMXAMM",
        "XXAMMXXAMA",
        "SMSMSASXSS",
        "SAXAMASAAA",
        "MAMMMXMMMM",
        "MXMXAXMASX",
    ])
}

#[test]
fn sample_puzzle_counts() {
    assert_eq!(part1(&sample()), Some(18));
    assert_eq!(part2(&sample()), Some(9));
}

#[test]
fn words_along_a_step() {
    let puzzle = parse(&["XMAS", "M...", "A...", "S..."]);
    let word: Vec<char> = "XMAS".chars().collect();
    assert!(match_word(&puzzle, &word, 0, 0, 0, 1));
    assert!(match_word(&puzzle, &word, 0, 0, 1, 0));
    assert!(!match_word(&puzzle, &word, 0, 0, 1, 1));
    assert!(!match_word(&puzzle, &word, 0, 1, 0, 1));
    assert!(!match_word(&puzzle, &word, 0, 0, -1, 0));
    assert!(!match_word(&puzzle, &word, 7, 0, 0, 1));
    assert!(match_word(&puzzle, &vec![], 9, 9, 0, 0));
    assert!(match_word(&puzzle, &vec!['S'], 3, 0, 0, 0));
}

#[test]
fn large_steps_and_indices_do_not_overflow() {
    let puzzle = parse(&["AB"]);
    let word = vec!['A', 'B'];
    assert!(!match_word(&puzzle, &word, 0, 0, i32::MAX, i32::MAX));
    assert!(!match_word(&puzzle, &word, usize::MAX, usize::MAX, i32::MIN, i32::MIN));
    assert!(!match_word(&puzzle, &word, 0, 0, 0, i32::MIN));
}

#[test]
fn empty_and_small_puzzles() {
    assert_eq!(part1(&vec![]), Some(0));
    assert_eq!(part2(&vec![]), Some(0));
    assert_eq!(part1(&parse(&["XMASAMX"])), Some(2));
    assert_eq!(part2(&parse(&["M.S", ".A.", "M.S"])), Some(1));
    assert_eq!(part2(&parse(&["M.S", ".A.", "S.M"])), Some(0));
}
