//! Reports of levels: a report is safe when its levels rise all the way or
//! fall all the way, by at least one and at most three from each level to
//! the next.

use vstd::prelude::*;

verus! {

/// The change from level `i` to the level after it.
pub open spec fn change(report: Seq<i32>, i: int) -> int {
    report[i + 1] - report[i]
}

/// Every change between neighbouring levels lies between `low` and `high`.
pub open spec fn changes_within(report: Seq<i32>, low: int, high: int) -> bool {
    forall|i: int| 0 <= i < report.len() - 1 ==> low <= #[trigger] change(report, i) <= high
}

/// The levels rise by 1 to 3 at every place, or fall by 1 to 3 at every
/// place.
pub open spec fn safe(report: Seq<i32>) -> bool {
    changes_within(report, 1, 3) || changes_within(report, -3, -1)
}

/// The report is safe as it stands or once a single level is left out.
pub open spec fn safe_with_removal(report: Seq<i32>) -> bool {
    safe(report) || exists|i: int| 0 <= i < report.len() && safe(#[trigger] report.remove(i))
}

/// Whether the report is safe.
pub fn is_report_safe(report: &Vec<i32>) -> (ok: bool)
    ensures
        ok == safe(report@),
{
    if report.len() < 2 {
        return true;
    }
    let mut rising = true;
    let mut falling = true;
    let mut i: usize = 0;
    while i < report.len() - 1
        invariant
            i <= report.len() - 1,
            rising == (forall|j: int| 0 <= j < i ==> 1 <= #[trigger] change(report@, j) <= 3),
            falling == (forall|j: int| 0 <= j < i ==> -3 <= #[trigger] change(report@, j) <= -1),
        decreases report.len() - i,
    {
        let diff: i64 = report[i + 1] as i64 - report[i] as i64;
        assert(diff == change(report@, i as int));
        if diff < 1 || diff > 3 {
            rising = false;
        }
        if diff < -3 || diff > -1 {
            falling = false;
        }
        i += 1;
    }
    rising || falling
}

/// Whether the report is safe, or becomes safe when one level is removed.
pub fn is_report_safe_part2(report: &Vec<i32>) -> (ok: bool)
    ensures
        ok == safe_with_removal(report@),
{
    if is_report_safe(report) {
        return true;
    }
    let mut i: usize = 0;
    while i < report.len()
        invariant
            i <= report.len(),
            !safe(report@),
            forall|j: int| 0 <= j < i ==> !safe(#[trigger] report@.remove(j)),
        decreases report.len() - i,
    {
        let mut shorter = report.clone();
        shorter.remove(i);
        if is_report_safe(&shorter) {
            return true;
        }
        i += 1;
    }
    false
}

/// The number of reports that `is_report_safe` accepts.
pub open spec fn safe_count(reports: Seq<Vec<i32>>) -> nat
    decreases reports.len(),
{
    if reports.len() == 0 {
        0
    } else {
        safe_count(reports.drop_last()) + if safe(reports.last()@) {
            1nat
        } else {
            0nat
        }
    }
}

/// The number of reports that `is_report_safe_part2` accepts.
pub open spec fn tolerant_count(reports: Seq<Vec<i32>>) -> nat
    decreases reports.len(),
{
    if reports.len() == 0 {
        0
    } else {
        tolerant_count(reports.drop_last()) + if safe_with_removal(reports.last()@) {
            1nat
        } else {
            0nat
        }
    }
}

/// Counts the safe reports.
pub fn count_safe(reports: &Vec<Vec<i32>>) -> (n: usize)
    ensures
        n == safe_count(reports@),
{
    let mut n: usize = 0;
    let mut i: usize = 0;
    while i < reports.len()
        invariant
            i <= reports.len(),
            n <= i,
            n == safe_count(reports@.take(i as int)),
        decreases reports.len() - i,
    {
        assert(reports@.take(i + 1).drop_last() =~= reports@.take(i as int));
        if is_report_safe(&reports[i]) {
            n += 1;
        }
        i += 1;
    }
    assert(reports@.take(reports.len() as int) =~= reports@);
    n
}

/// Counts the reports that are safe once at most one level is removed.
pub fn count_safe_part2(reports: &Vec<Vec<i32>>) -> (n: usize)
    ensures
        n == tolerant_count(reports@),
{
    let mut n: usize = 0;
    let mut i: usize = 0;
    while i < reports.len()
        invariant
            i <= reports.len(),
            n <= i,
            n == tolerant_count(reports@.take(i as int)),
        decreases reports.len() - i,
    {
        assert(reports@.take(i + 1).drop_last() =~= reports@.take(i as int));
        if is_report_safe_part2(&reports[i]) {
            n += 1;
        }
        i += 1;
    }
    assert(reports@.take(reports.len() as int) =~= reports@);
    n
}

} // verus!
