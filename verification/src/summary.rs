//! The run as a whole: where it begins, and what is said at its end.

use crate::action::ActionReport;
use crate::format::{human_duration, human_size, Span};
use crate::path;
use crate::path::{Platform, TreePath};
use crate::text;
use vstd::prelude::*;

verus! {

/// The exit status of a run with problems.
pub const EXIT_FAILURE: i32 = 1;

/// The exit status of a run that was cancelled.
pub const EXIT_CANCELLED: i32 = 130;

/// The exit status of a run.
pub fn exit_code(cancelled: bool, failures: u64) -> (code: i32)
    ensures
        code == (if cancelled {
            EXIT_CANCELLED
        } else if failures > 0 {
            EXIT_FAILURE
        } else {
            0
        }),
{
    if cancelled {
        EXIT_CANCELLED
    } else if failures > 0 {
        EXIT_FAILURE
    } else {
        0
    }
}

/// A number of things.
pub open spec fn plural_text(count: nat, noun: Seq<char>) -> Seq<char> {
    if count == 1 {
        text::decimal(count) + " "@ + noun
    } else {
        text::decimal(count) + " "@ + noun + "s"@
    }
}

/// Writes a number of things.
pub fn plural(count: u64, noun: &str) -> (shown: String)
    ensures
        shown@ == plural_text(count as nat, noun@),
{
    let mut shown = text::decimal_text(count as u128);
    shown.append(" ");
    shown.append(noun);
    if count != 1 {
        shown.append("s");
    }
    shown
}

/// The bytes that actions reclaimed.
pub open spec fn reclaimed_by(reports: Seq<ActionReport>) -> nat
    decreases reports.len(),
{
    if reports.len() == 0 {
        0
    } else {
        reclaimed_by(reports.drop_last()) + reports.last().reclaimed_bytes as nat
    }
}

/// The files that actions removed.
pub open spec fn files_removed_by(reports: Seq<ActionReport>) -> nat
    decreases reports.len(),
{
    if reports.len() == 0 {
        0
    } else {
        files_removed_by(reports.drop_last()) + reports.last().files_removed as nat
    }
}

/// The failures of actions.
pub open spec fn failures_of(reports: Seq<ActionReport>) -> nat
    decreases reports.len(),
{
    if reports.len() == 0 {
        0
    } else {
        failures_of(reports.drop_last()) + reports.last().error_count as nat
    }
}

/// How many actions reclaimed anything.
pub open spec fn productive_among(reports: Seq<ActionReport>) -> nat
    decreases reports.len(),
{
    if reports.len() == 0 {
        0
    } else {
        productive_among(reports.drop_last()) + if reports.last().reclaimed_bytes > 0 {
            1nat
        } else {
            0nat
        }
    }
}

/// How many actions were skipped.
pub open spec fn skipped_among(reports: Seq<ActionReport>) -> nat
    decreases reports.len(),
{
    if reports.len() == 0 {
        0
    } else {
        skipped_among(reports.drop_last()) + if reports.last().skipped {
            1nat
        } else {
            0nat
        }
    }
}

/// All problems of a run: failures of actions, failures to find actions, and
/// actions that never reported.
pub open spec fn problems(
    reports: Seq<ActionReport>,
    action_count: nat,
    discovery_error_count: nat,
) -> nat {
    failures_of(reports) + discovery_error_count + if action_count > reports.len() {
        (action_count - reports.len()) as nat
    } else {
        0
    }
}

/// The last line of a run.
pub open spec fn summary_line(
    reports: Seq<ActionReport>,
    failures: nat,
    elapsed: Span,
) -> Seq<char> {
    let line = "Complete: "@ + text::decimal(productive_among(reports)) + " of "@ + text::decimal(
        reports.len(),
    ) + " actions reclaimed space, "@ + crate::format::size_text(reclaimed_by(reports))
        + " across "@ + plural_text(files_removed_by(reports), "file"@) + ", "@ + plural_text(
        failures,
        "problem"@,
    ) + ", "@ + crate::format::duration_text(elapsed.secs(), elapsed.nanos()) + " total"@;
    if skipped_among(reports) > 0 {
        line + " ("@ + text::decimal(skipped_among(reports)) + " skipped: build running)"@
    } else {
        line
    }
}

proof fn lemma_sums_grow(reports: Seq<ActionReport>, count: int)
    requires
        0 <= count <= reports.len(),
    ensures
        reclaimed_by(reports.take(count)) <= reclaimed_by(reports),
        files_removed_by(reports.take(count)) <= files_removed_by(reports),
        failures_of(reports.take(count)) <= failures_of(reports),
    decreases reports.len() - count,
{
    if count < reports.len() {
        lemma_sums_grow(reports, count + 1);
        assert(reports.take(count + 1).drop_last() =~= reports.take(count));
    } else {
        assert(reports.take(count) =~= reports);
    }
}

/// Whether the sums over all actions can be held.
pub fn summary_fits(
    reports: &Vec<ActionReport>,
    action_count: usize,
    discovery_error_count: usize,
) -> (fits: bool)
    ensures
        fits == {
            &&& reclaimed_by(reports@) <= u64::MAX
            &&& files_removed_by(reports@) <= u64::MAX
            &&& problems(reports@, action_count as nat, discovery_error_count as nat) <= u64::MAX
        },
{
    let unreported: usize = action_count.saturating_sub(reports.len());
    let mut reclaimed_bytes: u64 = 0;
    let mut files_removed: u64 = 0;
    let mut failures: u64 = 0;
    let mut index: usize = 0;
    while index < reports.len()
        invariant
            index <= reports.len(),
            reclaimed_bytes == reclaimed_by(reports@.take(index as int)),
            files_removed == files_removed_by(reports@.take(index as int)),
            failures == failures_of(reports@.take(index as int)),
        decreases reports.len() - index,
    {
        proof {
            assert(reports@.take(index + 1).drop_last() =~= reports@.take(index as int));
            assert(reports@.take(index + 1).last() == reports@[index as int]);
            lemma_sums_grow(reports@, index + 1);
        }
        let report = &reports[index];
        if report.reclaimed_bytes > u64::MAX - reclaimed_bytes || report.files_removed > u64::MAX
            - files_removed || report.error_count > u64::MAX - failures {
            return false;
        }
        reclaimed_bytes = reclaimed_bytes + report.reclaimed_bytes;
        files_removed = files_removed + report.files_removed;
        failures = failures + report.error_count;
        index = index + 1;
    }
    assert(reports@.take(reports@.len() as int) =~= reports@);
    let left: u64 = u64::MAX - failures;
    discovery_error_count as u64 <= left && unreported as u64 <= left - discovery_error_count as u64
}

/// Sums up a run: its last line, and how many problems there were.
pub fn report_summary(
    reports: &Vec<ActionReport>,
    action_count: usize,
    discovery_error_count: usize,
    elapsed: Span,
) -> (summary: (String, u64))
    requires
        reclaimed_by(reports@) <= u64::MAX,
        files_removed_by(reports@) <= u64::MAX,
        problems(reports@, action_count as nat, discovery_error_count as nat) <= u64::MAX,
    ensures
        summary.0@ == summary_line(reports@, summary.1 as nat, elapsed),
        summary.1 == problems(reports@, action_count as nat, discovery_error_count as nat),
{
    let mut reclaimed_bytes: u64 = 0;
    let mut files_removed: u64 = 0;
    let mut failures: u64 = 0;
    let mut productive: usize = 0;
    let mut skipped: usize = 0;
    let mut index: usize = 0;
    while index < reports.len()
        invariant
            index <= reports.len(),
            productive <= index,
            skipped <= index,
            reclaimed_by(reports@) <= u64::MAX,
            files_removed_by(reports@) <= u64::MAX,
            failures_of(reports@) <= u64::MAX,
            reclaimed_bytes == reclaimed_by(reports@.take(index as int)),
            files_removed == files_removed_by(reports@.take(index as int)),
            failures == failures_of(reports@.take(index as int)),
            productive == productive_among(reports@.take(index as int)),
            skipped == skipped_among(reports@.take(index as int)),
        decreases reports.len() - index,
    {
        proof {
            assert(reports@.take(index + 1).drop_last() =~= reports@.take(index as int));
            assert(reports@.take(index + 1).last() == reports@[index as int]);
            lemma_sums_grow(reports@, index + 1);
        }
        let report = &reports[index];
        reclaimed_bytes = reclaimed_bytes + report.reclaimed_bytes;
        files_removed = files_removed + report.files_removed;
        failures = failures + report.error_count;
        if report.reclaimed_bytes > 0 {
            productive = productive + 1;
        }
        if report.skipped {
            skipped = skipped + 1;
        }
        index = index + 1;
    }
    assert(reports@.take(reports@.len() as int) =~= reports@);
    let unreported: usize = action_count.saturating_sub(reports.len());
    let failures: u64 = failures + discovery_error_count as u64 + unreported as u64;

    let mut line = "Complete: ".to_owned();
    line.append(text::decimal_text(productive as u128).as_str());
    line.append(" of ");
    line.append(text::decimal_text(reports.len() as u128).as_str());
    line.append(" actions reclaimed space, ");
    line.append(human_size(reclaimed_bytes).as_str());
    line.append(" across ");
    line.append(plural(files_removed, "file").as_str());
    line.append(", ");
    line.append(plural(failures, "problem").as_str());
    line.append(", ");
    line.append(human_duration(elapsed).as_str());
    line.append(" total");
    if skipped > 0 {
        line.append(" (");
        line.append(text::decimal_text(skipped as u128).as_str());
        line.append(" skipped: build running)");
    }
    (line, failures)
}

/// A report with the number of its action.
pub type NumberedReport = (usize, ActionReport);

/// With a report put behind all whose actions do not come later.
pub open spec fn with_report(
    reports: Seq<NumberedReport>,
    report: NumberedReport,
) -> Seq<NumberedReport>
    decreases reports.len(),
{
    if reports.len() > 0 && reports.last().0 > report.0 {
        with_report(reports.drop_last(), report).push(reports.last())
    } else {
        reports.push(report)
    }
}

/// Reports in the order of their actions; those of one action stay in the
/// order in which they came.
pub open spec fn in_order(reports: Seq<NumberedReport>) -> Seq<NumberedReport>
    decreases reports.len(),
{
    if reports.len() == 0 {
        reports
    } else {
        with_report(in_order(reports.drop_last()), reports.last())
    }
}

/// Puts reports into the order of their actions.
pub fn order_reports(reports: Vec<NumberedReport>) -> (ordered: Vec<ActionReport>)
    ensures
        ordered@ == in_order(reports@).map_values(|report: NumberedReport| report.1),
{
    let ghost all = reports@;
    let mut waiting = reports;
    let mut numbers: Vec<usize> = Vec::new();
    let mut ordered: Vec<ActionReport> = Vec::new();
    let ghost mut done: int = 0;
    let ghost mut sorted: Seq<NumberedReport> = Seq::empty();
    assert(all.take(0) =~= Seq::empty());
    assert(numbers@ =~= sorted.map_values(|report: NumberedReport| report.0));
    assert(ordered@ =~= sorted.map_values(|report: NumberedReport| report.1));
    while waiting.len() > 0
        invariant
            0 <= done <= all.len(),
            waiting@ == all.skip(done),
            sorted == in_order(all.take(done)),
            numbers@ == sorted.map_values(|report: NumberedReport| report.0),
            ordered@ == sorted.map_values(|report: NumberedReport| report.1),
        decreases waiting.len(),
    {
        let (number, report) = waiting.remove(0);
        let mut at: usize = numbers.len();
        assert(sorted.take(at as int) =~= sorted);
        assert(with_report(sorted, (number, report)) =~= with_report(
            sorted.take(at as int),
            (number, report),
        ) + sorted.skip(at as int));
        while at > 0 && numbers[at - 1] > number
            invariant
                at <= numbers.len(),
                numbers@ == sorted.map_values(|report: NumberedReport| report.0),
                with_report(sorted, (number, report)) == with_report(
                    sorted.take(at as int),
                    (number, report),
                ) + sorted.skip(at as int),
            decreases at,
        {
            proof {
                let shorter = sorted.take(at as int);
                assert(shorter.drop_last() =~= sorted.take(at - 1));
                assert(shorter.last() == sorted[at - 1]);
                assert(with_report(sorted, (number, report)) =~= with_report(
                    sorted.take(at - 1),
                    (number, report),
                ) + sorted.skip(at - 1));
            }
            at = at - 1;
        }
        proof {
            let item = (number, report);
            assert(with_report(sorted.take(at as int), item) =~= sorted.take(at as int).push(item));
            assert(with_report(sorted, item) =~= sorted.insert(at as int, item));
            assert(all.take(done + 1).drop_last() =~= all.take(done));
            assert(all.take(done + 1).last() == item);
            assert(waiting@ =~= all.skip(done + 1));
        }
        numbers.insert(at, number);
        ordered.insert(at, report);
        proof {
            let item = (number, report);
            let longer = sorted.insert(at as int, item);
            assert(numbers@ =~= longer.map_values(|report: NumberedReport| report.0));
            assert(ordered@ =~= longer.map_values(|report: NumberedReport| report.1));
            sorted = longer;
            done = done + 1;
        }
    }
    assert(all.take(done) =~= all);
    ordered
}

/// Putting reports into order keeps them all and leaves none behind a later
/// one.
pub proof fn law_reports_end_up_in_order(reports: Seq<NumberedReport>)
    ensures
        in_order(reports).to_multiset() == reports.to_multiset(),
        forall|i: int, j: int|
            0 <= i < j < reports.len() ==> (#[trigger] in_order(reports)[i]).0 <= (
            #[trigger] in_order(reports)[j]).0,
    decreases reports.len(),
{
    if reports.len() > 0 {
        let less = reports.drop_last();
        law_reports_end_up_in_order(less);
        assert(in_order(less).len() == less.len()) by {
            vstd::seq_lib::to_multiset_len(in_order(less));
            vstd::seq_lib::to_multiset_len(less);
        }
        lemma_with_report(in_order(less), reports.last());
        assert(reports =~= less.push(reports.last()));
        vstd::seq_lib::to_multiset_build(less, reports.last());
        assert(in_order(reports).len() == reports.len()) by {
            vstd::seq_lib::to_multiset_len(in_order(reports));
            vstd::seq_lib::to_multiset_len(reports);
        }
    }
}

proof fn lemma_with_report(reports: Seq<NumberedReport>, report: NumberedReport)
    requires
        forall|i: int, j: int|
            0 <= i < j < reports.len() ==> (#[trigger] reports[i]).0 <= (#[trigger] reports[j]).0,
    ensures
        with_report(reports, report).to_multiset() == reports.to_multiset().insert(report),
        with_report(reports, report).len() == reports.len() + 1,
        forall|i: int, j: int|
            0 <= i < j <= reports.len() ==> (#[trigger] with_report(reports, report)[i]).0 <= (
            #[trigger] with_report(reports, report)[j]).0,
        reports.len() > 0 ==> with_report(reports, report).last().0 == (if reports.last().0
            > report.0 {
            reports.last().0
        } else {
            report.0
        }),
    decreases reports.len(),
{
    if reports.len() > 0 && reports.last().0 > report.0 {
        let less = reports.drop_last();
        let inner = with_report(less, report);
        lemma_with_report(less, report);
        vstd::seq_lib::to_multiset_build(inner, reports.last());
        vstd::seq_lib::to_multiset_build(less, reports.last());
        assert(reports =~= less.push(reports.last()));
        assert(inner.push(reports.last()).to_multiset() =~= reports.to_multiset().insert(report));
        let outer = with_report(reports, report);
        assert forall|i: int, j: int| 0 <= i < j <= reports.len() implies (#[trigger] outer[i]).0
            <= (#[trigger] outer[j]).0 by {
            if j == reports.len() {
                if i < inner.len() - 1 {
                    assert(inner[i].0 <= inner[inner.len() - 1].0);
                }
                if less.len() > 0 {
                    assert(reports[less.len() - 1].0 <= reports[reports.len() - 1].0);
                }
            } else {
                assert(outer[i] == inner[i]);
                assert(outer[j] == inner[j]);
            }
        }
    } else {
        vstd::seq_lib::to_multiset_build(reports, report);
        let outer = with_report(reports, report);
        assert forall|i: int, j: int| 0 <= i < j <= reports.len() implies (#[trigger] outer[i]).0
            <= (#[trigger] outer[j]).0 by {
            if j == reports.len() && i < reports.len() - 1 {
                assert(reports[i].0 <= reports[reports.len() - 1].0);
            }
        }
    }
}

/// The directory that is cleaned is the one around the current directory.
/// Finds it, if the current directory is known and has a parent.
pub fn cleanup_parent(current: Result<TreePath, String>) -> (parent: Result<TreePath, String>)
    ensures
        match (current, parent) {
            (Ok(directory), Ok(parent)) => path::parent_of(directory@) == Some(parent@),
            (Ok(directory), Err(error)) => {
                path::parent_of(directory@) is None && error@ == "Current directory has no parent"@
            },
            (Err(cause), Err(error)) => {
                error@ == "Could not get current directory: "@ + cause@
            },
            (Err(_), Ok(_)) => false,
        },
{
    match current {
        Ok(directory) => match directory.parent() {
            Some(parent) => Ok(parent),
            None => Err("Current directory has no parent".to_owned()),
        },
        Err(cause) => {
            let mut error = "Could not get current directory: ".to_owned();
            error.append(cause.as_str());
            Err(error)
        },
    }
}

/// The root to clean: the canonical form of the parent, if there is one.
pub fn cleanup_root(
    parent: &TreePath,
    canonical: Result<TreePath, String>,
    platform: Platform,
) -> (root: Result<TreePath, String>)
    ensures
        match (canonical, root) {
            (Ok(canonical), Ok(root)) => root@ == canonical@,
            (Err(cause), Err(error)) => error@ == "Could not canonicalize cleanup root "@
                + crate::format::plain_text(parent@, platform) + ": "@ + cause@,
            _ => false,
        },
{
    match canonical {
        Ok(root) => Ok(root),
        Err(cause) => {
            let mut error = "Could not canonicalize cleanup root ".to_owned();
            error.append(crate::format::plain_path(parent, platform).as_str());
            error.append(": ");
            error.append(cause.as_str());
            Err(error)
        },
    }
}

/// The line for the start of the search.
pub fn scanning_line(root: &TreePath, platform: Platform) -> (line: String)
    ensures
        line@ == "Scanning "@ + crate::format::display_text(root@, platform),
{
    let mut line = "Scanning ".to_owned();
    line.append(crate::format::display_path(root, platform).as_str());
    line
}

/// How many workers to use, where it may be known how many can run at once.
pub fn worker_count(available: Option<usize>) -> (count: usize)
    ensures
        count == (match available {
            Some(count) => count,
            None => 4,
        }),
{
    match available {
        Some(count) => count,
        None => 4,
    }
}

} // verus!
