use puzzle_kernels::machine::{combo, part2, run_program};

#[test]
fn sample_program_output() {
    let program = vec![[0, 1], [5, 4], [3, 0]];
    let end = run_program(729, 0, 0, &program);
    assert_eq!(end.3, vec![4, 6, 3, 5, 6, 3, 5, 2, 1, 0]);
    assert_eq!(end.0, 0);
}

#[test]
fn single_instructions() {
    assert_eq!(run_program(0, 0, 9, &vec![[2, 6]]).1, 1);
    assert_eq!(run_program(10, 0, 0, &vec![[5, 0], [5, 1], [5, 4]]).3, vec![0, 1, 2]);
    assert_eq!(run_program(0, 29, 0, &vec![[1, 7]]).1, 26);
    assert_eq!(run_program(0, 2024, 43690, &vec![[4, 0]]).1, 44354);
    assert_eq!(run_program(2024, 0, 0, &vec![[6, 2]]).1, 506);
    assert_eq!(run_program(2024, 0, 0, &vec![[7, 3]]).2, 253);
}

#[test]
fn larger_sample() {
    let program = vec![[0, 1], [5, 4], [3, 0]];
    let end = run_program(2024, 0, 0, &program);
    assert_eq!(end.3, vec![4, 2, 5, 6, 7, 7, 7, 7, 3, 1, 0]);
    assert_eq!(end.0, 0);
}

#[test]
fn shift_by_a_large_register_gives_zero() {
    assert_eq!(run_program(u64::MAX, 64, 0, &vec![[0, 5]]).0, 0);
    assert_eq!(run_program(u64::MAX, 63, 0, &vec![[0, 5]]).0, 1);
    assert_eq!(run_program(u64::MAX, u64::MAX, 0, &vec![[7, 5]]).2, 0);
}

#[test]
fn empty_program_halts_at_once() {
    let end = run_program(1, 2, 3, &vec![]);
    assert_eq!(end, (1, 2, 3, vec![]));
}

#[test]
fn same_start_same_end() {
    let program = vec![[2, 4], [1, 3], [7, 5], [0, 3], [4, 1], [1, 5], [5, 5], [3, 0]];
    let first = run_program(123456789, 7, 9, &program);
    let second = run_program(123456789, 7, 9, &program);
    assert_eq!(first, second);
}

#[test]
fn combo_operands() {
    assert_eq!(combo(0, 10, 20, 30), 0);
    assert_eq!(combo(3, 10, 20, 30), 3);
    assert_eq!(combo(4, 10, 20, 30), 10);
    assert_eq!(combo(5, 10, 20, 30), 20);
    assert_eq!(combo(6, 10, 20, 30), 30);
}

#[test]
fn smallest_register_that_prints_the_program() {
    let program = vec![[0, 3], [5, 4], [3, 0]];
    assert_eq!(part2(0, 0, &program), Some(117440));
    let end = run_program(117440, 0, 0, &program);
    assert_eq!(end.3, vec![0, 3, 5, 4, 3, 0]);
}

#[test]
fn no_register_prints_a_program_that_prints_nothing() {
    let program = vec![[0, 3], [3, 0]];
    assert_eq!(part2(0, 0, &program), None);
}
