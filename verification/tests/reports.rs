use puzzle_kernels::reports::{count_safe, count_safe_part2, is_report_safe, is_report_safe_part2};

fn sample() -> Vec<Vec<i32>> {
    vec![
        vec![7, 6, 4, 2, 1],
        vec![1, 2, 7, 8, 9],
        vec![9, 7, 6, 2, 1],
        vec![1, 3, 2, 4, 5],
        vec![8, 6, 4, 4, 1],
        vec![1, 3, 6, 7, 9],
    ]
}

#[test]
fn sample_reports_strict() {
    let reports = sample();
    let verdicts: Vec<bool> = reports.iter().map(is_report_safe).collect();
    assert_eq!(verdicts, vec![true, false, false, false, false, true]);
    assert_eq!(count_safe(&reports), 2);
}

#[test]
fn sample_reports_with_one_removal() {
    let reports = sample();
    let verdicts: Vec<bool> = reports.iter().map(is_report_safe_part2).collect();
    assert_eq!(verdicts, vec![true, false, false, true, true, true]);
    assert_eq!(count_safe_part2(&reports), 4);
}

#[test]
fn short_reports_are_safe() {
    assert!(is_report_safe(&vec![]));
    assert!(is_report_safe(&vec![5]));
    assert!(is_report_safe(&vec![5, 8]));
    assert!(!is_report_safe(&vec![5, 9]));
    assert!(is_report_safe_part2(&vec![5, 9]));
}

#[test]
fn extreme_levels_do_not_overflow() {
    assert!(!is_report_safe(&vec![i32::MIN, i32::MAX]));
    assert!(!is_report_safe(&vec![i32::MAX, i32::MIN, 0]));
}
