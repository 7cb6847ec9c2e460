use array2d::Array2D;
use puzzle_kernels::claw::{count_tokens, Problem};

fn machine(ax: i64, ay: i64, bx: i64, by: i64, px: i64, py: i64) -> Problem {
    Problem {
        buttons: Array2D::from_row_major(&[ax, bx, ay, by], 2, 2).unwrap(),
        prize: Array2D::from_row_major(&[px, py], 2, 1).unwrap(),
    }
}

fn arcade() -> Vec<Problem> {
    vec![
        machine(94, 34, 22, 67, 8400, 5400),
        machine(26, 66, 67, 21, 12748, 12176),
        machine(17, 86, 84, 37, 7870, 6450),
        machine(69, 23, 27, 71, 18641, 10279),
    ]
}

#[test]
fn sample_machines() {
    assert_eq!(count_tokens(&arcade(), 0), Some(480));
    assert_eq!(count_tokens(&vec![machine(94, 34, 22, 67, 8400, 5400)], 0), Some(280));
    assert_eq!(count_tokens(&vec![machine(17, 86, 84, 37, 7870, 6450)], 0), Some(200));
}

#[test]
fn sample_machines_with_far_prizes() {
    assert_eq!(count_tokens(&arcade(), 10000000000000), Some(875318608908));
}

#[test]
fn machines_without_a_single_solution_cost_nothing() {
    assert_eq!(count_tokens(&vec![machine(1, 1, 2, 2, 3, 3)], 0), Some(0));
    assert_eq!(count_tokens(&vec![machine(0, 0, 0, 0, 0, 0)], 0), Some(0));
    assert_eq!(count_tokens(&vec![machine(2, 0, 0, 2, 3, 4)], 0), Some(0));
    assert_eq!(count_tokens(&vec![], 5), Some(0));
}

#[test]
fn exact_division_with_signs() {
    assert_eq!(count_tokens(&vec![machine(2, 0, 0, 2, 4, 6)], 0), Some(3 * 2 + 3));
    assert_eq!(count_tokens(&vec![machine(-2, 0, 0, 2, 4, 6)], 0), Some(3 * -2 + 3));
    assert_eq!(count_tokens(&vec![machine(1, 0, 0, -1, -5, 5)], 0), Some(3 * -5 - 5));
    assert_eq!(count_tokens(&vec![machine(1, 0, 0, 1, -1, -1)], 1), Some(0));
}

#[test]
fn presses_that_do_not_fit() {
    let huge = vec![machine(1, 0, 0, 1, i64::MAX, 0)];
    assert_eq!(count_tokens(&huge, 0), None);
    let fits = vec![machine(7, 0, 0, 1, i64::MAX, 0)];
    assert_eq!(count_tokens(&fits, 0), Some(3 * (i64::MAX / 7)));
    let not_whole = vec![machine(3, 0, 0, 1, i64::MAX, 0)];
    assert_eq!(count_tokens(&not_whole, 0), Some(0));
}
