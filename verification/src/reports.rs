//! Safety checks for level reports.
//!
//! A report is a row of levels. It is safe when the levels are strictly
//! monotone in one direction and neighbouring levels differ by one to
//! three. The dampened variant also accepts a report that becomes safe
//! after dropping one level.

use vstd::prelude::*;

verus! {

/// The pair is ordered the right way round: rising when `incr`, falling
/// otherwise.
pub open spec fn spec_sorted(n1: i32, n2: i32, incr: bool) -> bool {
    if incr {
        n1 < n2
    } else {
        n1 > n2
    }
}

/// The pair differs by one to three.
pub open spec fn spec_range(n1: i32, n2: i32) -> bool {
    1 <= (if n1 < n2 {
        n2 - n1
    } else {
        n1 - n2
    }) <= 3
}

/// A safe report: every neighbouring pair keeps the direction the first
/// pair sets, and stays within the allowed step.
pub open spec fn spec_safe(s: Seq<i32>) -> bool {
    forall|i: int|
        1 <= i < s.len() ==> spec_sorted(#[trigger] s[i - 1], s[i], s[0] < s[1]) && spec_range(
            s[i - 1],
            s[i],
        )
}

/// A report that is safe once at most one level is dropped.
pub open spec fn spec_damped_safe(s: Seq<i32>) -> bool {
    spec_safe(s) || exists|i: int| 0 <= i < s.len() && spec_safe(#[trigger] s.remove(i))
}

/// Checks that a pair is ordered the right way round.
pub fn is_sorted(n1: i32, n2: i32, incr: bool) -> (r: bool)
    ensures
        r == spec_sorted(n1, n2, incr),
{
    if incr {
        n1 < n2
    } else {
        n1 > n2
    }
}

/// Checks that a pair differs by one to three.
pub fn is_range(n1: i32, n2: i32) -> (r: bool)
    ensures
        r == spec_range(n1, n2),
{
    let diff = if n1 < n2 {
        n2 as i64 - n1 as i64
    } else {
        n1 as i64 - n2 as i64
    };
    1 <= diff && diff <= 3
}

/// Checks that a report is safe.
pub fn is_safe(report: &Vec<i32>) -> (r: bool)
    requires
        report@.len() >= 2,
    ensures
        r == spec_safe(report@),
{
    let incr = report[0] < report[1];
    let mut i: usize = 1;
    while i < report.len()
        invariant
            1 <= i <= report@.len(),
            report@.len() >= 2,
            incr == (report@[0] < report@[1]),
            forall|t: int|
                1 <= t < i ==> spec_sorted(#[trigger] report@[t - 1], report@[t], incr)
                    && spec_range(report@[t - 1], report@[t]),
        decreases report@.len() - i,
    {
        if !is_sorted(report[i - 1], report[i], incr) || !is_range(report[i - 1], report[i]) {
            return false;
        }
        i = i + 1;
    }
    true
}

/// Checks that a report is safe once at most one level is dropped.
pub fn damped_safe(report: &Vec<i32>) -> (r: bool)
    requires
        report@.len() >= 2,
        spec_safe(report@) || report@.len() >= 3,
    ensures
        r == spec_damped_safe(report@),
{
    if is_safe(report) {
        return true;
    }
    let mut idx: usize = 0;
    while idx < report.len()
        invariant
            report@.len() >= 3,
            0 <= idx <= report@.len(),
            forall|t: int| 0 <= t < idx ==> !spec_safe(#[trigger] report@.remove(t)),
        decreases report@.len() - idx,
    {
        let mut copy: Vec<i32> = Vec::new();
        let mut j: usize = 0;
        while j < report.len()
            invariant
                0 <= j <= report@.len(),
                idx < report@.len(),
                copy@ =~= if j <= idx {
                    report@.take(j as int)
                } else {
                    report@.take(idx as int) + report@.subrange(idx + 1, j as int)
                },
            decreases report@.len() - j,
        {
            if j != idx {
                copy.push(report[j]);
            }
            j = j + 1;
        }
        proof {
            assert(copy@ =~= report@.remove(idx as int));
        }
        if is_safe(&copy) {
            return true;
        }
        idx = idx + 1;
    }
    false
}

/// How many of the first `k` reports are safe, dampened or not.
pub open spec fn count_safe(rows: Seq<Vec<i32>>, k: int, damped: bool) -> nat
    decreases k,
{
    if k <= 0 {
        0
    } else {
        count_safe(rows, k - 1, damped) + if (damped && spec_damped_safe(rows[k - 1]@)) || (!damped
            && spec_safe(rows[k - 1]@)) {
            1nat
        } else {
            0nat
        }
    }
}

/// Counts the safe reports.
pub fn part1(array: &Vec<Vec<i32>>) -> (r: i32)
    requires
        array@.len() <= i32::MAX,
        forall|t: int| 0 <= t < array@.len() ==> (#[trigger] array@[t])@.len() >= 2,
    ensures
        r == count_safe(array@, array@.len() as int, false),
{
    let mut safe_reports: i32 = 0;
    let mut t: usize = 0;
    while t < array.len()
        invariant
            0 <= t <= array@.len() <= i32::MAX,
            forall|s: int| 0 <= s < array@.len() ==> (#[trigger] array@[s])@.len() >= 2,
            safe_reports == count_safe(array@, t as int, false),
            safe_reports <= t,
        decreases array@.len() - t,
    {
        if is_safe(&array[t]) {
            safe_reports = safe_reports + 1;
        }
        t = t + 1;
    }
    safe_reports
}

/// Counts the reports that are safe once at most one level is dropped.
pub fn part2(array: &Vec<Vec<i32>>) -> (r: i32)
    requires
        array@.len() <= i32::MAX,
        forall|t: int|
            0 <= t < array@.len() ==> (#[trigger] array@[t])@.len() >= 2 && (spec_safe(array@[t]@)
                || array@[t]@.len() >= 3),
    ensures
        r == count_safe(array@, array@.len() as int, true),
{
    let mut safe_reports: i32 = 0;
    let mut t: usize = 0;
    while t < array.len()
        invariant
            0 <= t <= array@.len() <= i32::MAX,
            forall|s: int|
                0 <= s < array@.len() ==> (#[trigger] array@[s])@.len() >= 2 && (spec_safe(
                    array@[s]@,
                ) || array@[s]@.len() >= 3),
            safe_reports == count_safe(array@, t as int, true),
            safe_reports <= t,
        decreases array@.len() - t,
    {
        if damped_safe(&array[t]) {
            safe_reports = safe_reports + 1;
        }
        t = t + 1;
    }
    safe_reports
}

} // verus!
