//! Safety checks over level reports: a report is safe when its levels move
//! strictly in one direction with steps of one to three, and a damped check
//! also accepts reports that one deletion would make safe.
use vstd::prelude::*;

verus! {

/// One adjacent step is acceptable: a change of one to three in the fixed
/// direction.
pub open spec fn safe_step(a: int, b: int, increasing: bool) -> bool {
    1 <= (if b >= a {
        b - a
    } else {
        a - b
    }) <= 3 && ((b > a) == increasing)
}

/// The whole report moves in the direction set by its first two levels, one
/// acceptable step at a time.  Reports of at most one level are safe.
pub open spec fn report_safe(r: Seq<i64>) -> bool {
    r.len() <= 1 || forall|k: int| 0 < k < r.len() ==> safe_step(r[k - 1] as int, #[trigger] r[k] as int, r[1] > r[0])
}

/// Deleting some single level leaves a safe report.
pub open spec fn dampened_safe(r: Seq<i64>) -> bool {
    exists|k: int| 0 <= k < r.len() && report_safe(#[trigger] r.remove(k))
}

/// How many reports pass, with or without the damped second chance.
pub open spec fn safe_count(rs: Seq<Seq<i64>>, dampen: bool) -> int
    decreases rs.len(),
{
    if rs.len() == 0 {
        0
    } else {
        safe_count(rs.drop_last(), dampen) + if report_safe(rs.last()) || (dampen
            && dampened_safe(rs.last())) {
            1int
        } else {
            0int
        }
    }
}

/// Whether one report is safe as it stands.
pub fn is_safe(report: &Vec<i64>) -> (r: bool)
    ensures
        r == report_safe(report@),
{
    if report.len() <= 1 {
        return true;
    }
    let increasing = report[1] > report[0];
    let mut k: usize = 1;
    while k < report.len()
        invariant
            1 <= k <= report@.len(),
            report@.len() > 1,
            increasing == (report@[1] > report@[0]),
            forall|t: int| 0 < t < k ==> safe_step(report@[t - 1] as int, #[trigger] report@[t] as int, increasing),
        decreases report@.len() - k,
    {
        let a = report[k - 1];
        let b = report[k];
        let diff: i128 = (b as i128) - (a as i128);
        let ok = (1 <= diff && diff <= 3) || (-3 <= diff && diff <= -1);
        if !(ok && ((b > a) == increasing)) {
            return false;
        }
        k = k + 1;
    }
    true
}

/// Counts the safe reports; with `dampen` set, a report also counts when
/// deleting one level makes it safe.
pub fn solve(reports: &Vec<Vec<i64>>, dampen: bool) -> (num_safe: usize)
    ensures
        num_safe == safe_count(reports@.map_values(|v: Vec<i64>| v@), dampen),
{
    let ghost rs = reports@.map_values(|v: Vec<i64>| v@);
    let mut num_safe: usize = 0;
    let mut i: usize = 0;
    while i < reports.len()
        invariant
            0 <= i <= reports@.len(),
            rs == reports@.map_values(|v: Vec<i64>| v@),
            num_safe == safe_count(rs.take(i as int), dampen),
            num_safe <= i,
        decreases reports@.len() - i,
    {
        proof {
            assert(rs.take(i + 1).drop_last() =~= rs.take(i as int));
            assert(rs.take(i + 1).last() == rs[i as int]);
            assert(rs[i as int] == reports@[i as int]@);
        }
        let report = &reports[i];
        if is_safe(report) {
            num_safe = num_safe + 1;
        } else if dampen {
            let mut skip: usize = 0;
            let mut found = false;
            while skip < report.len() && !found
                invariant
                    0 <= skip <= report@.len(),
                    found ==> dampened_safe(report@),
                    !found ==> forall|t: int| 0 <= t < skip ==> !report_safe(#[trigger] report@.remove(t)),
                decreases report@.len() - skip + (if found { 0int } else { 1int }),
            {
                let mut updated: Vec<i64> = report.clone();
                updated.remove(skip);
                if is_safe(&updated) {
                    found = true;
                } else {
                    skip = skip + 1;
                }
            }
            if found {
                num_safe = num_safe + 1;
            } else {
                proof {
                    assert(!dampened_safe(report@));
                }
            }
        }
        i = i + 1;
    }
    proof {
        assert(rs.take(rs.len() as int) =~= rs);
    }
    num_safe
}

} // verus!
