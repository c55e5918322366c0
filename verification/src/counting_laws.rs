//! What the sums over the actions of a run come to.

use crate::action::{ActionReport, ActionState, Progress};
use crate::format::Span;
use crate::screen;
use crate::summary;
use crate::summary::NumberedReport;
use crate::text;
use vstd::prelude::*;

verus! {

/// The sum of a list of numbers.
pub open spec fn sum_of(numbers: Seq<nat>) -> nat
    decreases numbers.len(),
{
    if numbers.len() == 0 {
        0
    } else {
        numbers[0] + sum_of(numbers.drop_first())
    }
}

pub proof fn lemma_sum_push(numbers: Seq<nat>, number: nat)
    ensures
        sum_of(numbers.push(number)) == sum_of(numbers) + number,
    decreases numbers.len(),
{
    if numbers.len() == 0 {
        assert(numbers.push(number).drop_first() =~= Seq::<nat>::empty());
        assert(sum_of(numbers.push(number).drop_first()) == 0);
    } else {
        lemma_sum_push(numbers.drop_first(), number);
        assert(numbers.push(number).drop_first() =~= numbers.drop_first().push(number));
    }
}

/// The bytes, files and failures of a run are the sums of what its reports say,
/// whatever else they say; the productive actions are those that reclaimed a
/// byte or more, and the skipped ones those that say so.
pub proof fn law_reports_are_summed(reports: Seq<ActionReport>)
    ensures
        summary::reclaimed_by(reports) == sum_of(
            reports.map_values(|report: ActionReport| report.reclaimed_bytes as nat),
        ),
        summary::files_removed_by(reports) == sum_of(
            reports.map_values(|report: ActionReport| report.files_removed as nat),
        ),
        summary::failures_of(reports) == sum_of(
            reports.map_values(|report: ActionReport| report.error_count as nat),
        ),
        summary::productive_among(reports) == reports.filter(
            |report: ActionReport| report.reclaimed_bytes >= 1,
        ).len(),
        summary::skipped_among(reports) == reports.filter(
            |report: ActionReport| report.skipped,
        ).len(),
    decreases reports.len(),
{
    reveal(Seq::filter);
    let bytes = |report: ActionReport| report.reclaimed_bytes as nat;
    let files = |report: ActionReport| report.files_removed as nat;
    let failures = |report: ActionReport| report.error_count as nat;
    if reports.len() > 0 {
        let less = reports.drop_last();
        let last = reports.last();
        law_reports_are_summed(less);
        lemma_sum_push(less.map_values(bytes), bytes(last));
        lemma_sum_push(less.map_values(files), files(last));
        lemma_sum_push(less.map_values(failures), failures(last));
        assert(reports.map_values(bytes) =~= less.map_values(bytes).push(bytes(last)));
        assert(reports.map_values(files) =~= less.map_values(files).push(files(last)));
        assert(reports.map_values(failures) =~= less.map_values(failures).push(failures(last)));
    }
}

/// Every report adds what it says to the sums, and nothing else does.
pub proof fn law_each_report_counts(reports: Seq<ActionReport>, report: ActionReport)
    ensures
        summary::reclaimed_by(reports.push(report)) == summary::reclaimed_by(reports)
            + report.reclaimed_bytes,
        summary::files_removed_by(reports.push(report)) == summary::files_removed_by(reports)
            + report.files_removed,
        summary::failures_of(reports.push(report)) == summary::failures_of(reports)
            + report.error_count,
        summary::productive_among(reports.push(report)) == summary::productive_among(reports) + (
        if report.reclaimed_bytes == 0 {
            0int
        } else {
            1int
        }),
        summary::skipped_among(reports.push(report)) == summary::skipped_among(reports) + (
        if report.skipped {
            1int
        } else {
            0int
        }),
        summary::reclaimed_by(Seq::empty()) == 0,
        summary::files_removed_by(Seq::empty()) == 0,
        summary::failures_of(Seq::empty()) == 0,
        summary::productive_among(Seq::empty()) == 0,
        summary::skipped_among(Seq::empty()) == 0,
{
    assert(reports.push(report).drop_last() =~= reports);
}

/// Two halves of a run sum up to the whole.
pub proof fn law_sums_of_parts(first: Seq<ActionReport>, second: Seq<ActionReport>)
    ensures
        summary::reclaimed_by(first + second) == summary::reclaimed_by(first)
            + summary::reclaimed_by(second),
        summary::files_removed_by(first + second) == summary::files_removed_by(first)
            + summary::files_removed_by(second),
        summary::failures_of(first + second) == summary::failures_of(first)
            + summary::failures_of(second),
    decreases second.len(),
{
    if second.len() == 0 {
        assert(first + second =~= first);
    } else {
        law_sums_of_parts(first, second.drop_last());
        assert((first + second).drop_last() =~= first + second.drop_last());
        assert((first + second).last() == second.last());
    }
}

/// The problems of a run are the failures of its reports, the failures to find
/// actions, and one for each action that did not report.
pub proof fn law_problems_are_counted(
    reports: Seq<ActionReport>,
    action_count: nat,
    discovery_error_count: nat,
)
    ensures
        ({
            let failures = sum_of(
                reports.map_values(|report: ActionReport| report.error_count as nat),
            );
            let counted = summary::problems(reports, action_count, discovery_error_count);
            &&& action_count >= reports.len() ==> counted + reports.len() == failures
                + discovery_error_count + action_count
            &&& action_count <= reports.len() ==> counted == failures + discovery_error_count
        }),
{
    law_reports_are_summed(reports);
}

/// A run is free of problems exactly when no report has a failure, nothing
/// failed while actions were looked for, and every action reported.
pub proof fn law_clean_runs_have_no_problems(
    reports: Seq<ActionReport>,
    action_count: nat,
    discovery_error_count: nat,
)
    ensures
        summary::problems(reports, action_count, discovery_error_count) == 0 <==> {
            &&& forall|i: int|
                0 <= i < reports.len() ==> (#[trigger] reports[i]).error_count == 0
            &&& discovery_error_count == 0
            &&& action_count <= reports.len()
        },
{
    lemma_no_failures(reports);
}

proof fn lemma_no_failures(reports: Seq<ActionReport>)
    ensures
        summary::failures_of(reports) == 0 <==> forall|i: int|
            0 <= i < reports.len() ==> (#[trigger] reports[i]).error_count == 0,
    decreases reports.len(),
{
    if reports.len() > 0 {
        let less = reports.drop_last();
        lemma_no_failures(less);
        assert(reports.last() == reports[reports.len() - 1]);
        if summary::failures_of(reports) == 0 {
            assert forall|i: int| 0 <= i < reports.len() implies (
            #[trigger] reports[i]).error_count == 0 by {
                if i < less.len() {
                    assert(less[i].error_count == 0);
                }
            }
        } else if summary::failures_of(less) != 0 {
            let i = choose|i: int| 0 <= i < less.len() && (#[trigger] less[i]).error_count != 0;
            assert(reports[i] == less[i]);
        }
    }
}

/// The last line of a run names, in this order, how many actions reclaimed
/// anything, how many reported, the bytes, the files, the problems and the time,
/// and how many were skipped if any were.
pub proof fn law_runs_are_summed_up(
    reports: Seq<ActionReport>,
    failures: nat,
    elapsed: Span,
)
    ensures
        ({
            let productive = reports.filter(|report: ActionReport| report.reclaimed_bytes >= 1);
            let skipped = reports.filter(|report: ActionReport| report.skipped);
            let bytes = sum_of(
                reports.map_values(|report: ActionReport| report.reclaimed_bytes as nat),
            );
            let files = sum_of(
                reports.map_values(|report: ActionReport| report.files_removed as nat),
            );
            let files_text = text::decimal(files) + if files == 1 {
                " file, "@
            } else {
                " files, "@
            };
            let problems_text = text::decimal(failures) + if failures == 1 {
                " problem, "@
            } else {
                " problems, "@
            };
            let line = "Complete: "@ + text::decimal(productive.len()) + " of "@ + text::decimal(
                reports.len(),
            ) + " actions reclaimed space, "@ + crate::format::size_text(bytes) + " across "@
                + files_text + problems_text + crate::format::duration_text(
                elapsed.secs(),
                elapsed.nanos(),
            ) + " total"@;
            summary::summary_line(reports, failures, elapsed) == if skipped.len() >= 1 {
                line + " ("@ + text::decimal(skipped.len()) + " skipped: build running)"@
            } else {
                line
            }
        }),
{
    law_reports_are_summed(reports);
    reveal_strlit(" ");
    reveal_strlit("s");
    reveal_strlit(", ");
    reveal_strlit("file");
    reveal_strlit("problem");
    reveal_strlit(" file, ");
    reveal_strlit(" files, ");
    reveal_strlit(" problem, ");
    reveal_strlit(" problems, ");
    let files = summary::files_removed_by(reports);
    let files_text = text::decimal(files) + if files == 1 {
        " file, "@
    } else {
        " files, "@
    };
    let problems_text = text::decimal(failures) + if failures == 1 {
        " problem, "@
    } else {
        " problems, "@
    };
    assert(summary::plural_text(files, "file"@) + ", "@ =~= files_text);
    assert(summary::plural_text(failures, "problem"@) + ", "@ =~= problems_text);
    let head = "Complete: "@ + text::decimal(summary::productive_among(reports)) + " of "@
        + text::decimal(reports.len()) + " actions reclaimed space, "@ + crate::format::size_text(
        summary::reclaimed_by(reports),
    ) + " across "@;
    let tail = crate::format::duration_text(elapsed.secs(), elapsed.nanos()) + " total"@;
    assert(head + summary::plural_text(files, "file"@) + ", "@ + summary::plural_text(
        failures,
        "problem"@,
    ) + ", "@ + crate::format::duration_text(elapsed.secs(), elapsed.nanos()) + " total"@ =~= head
        + files_text + problems_text + crate::format::duration_text(
        elapsed.secs(),
        elapsed.nanos(),
    ) + " total"@);
}

/// One thing is named in the singular, any other number in the plural.
pub proof fn law_numbers_agree_with_nouns(count: nat, noun: Seq<char>)
    ensures
        count == 1 ==> summary::plural_text(count, noun) == text::decimal(1) + " "@ + noun,
        count != 1 ==> summary::plural_text(count, noun) == text::decimal(count) + " "@ + noun
            + "s"@,
{
}

/// The statuses with which a run exits.
pub proof fn law_exit_statuses()
    ensures
        summary::EXIT_FAILURE == 1,
        summary::EXIT_CANCELLED == 130,
{
}

/// The known bytes of a run are the sum of the totals that are known, the done
/// bytes the sum of what each action has done, and the completed actions those
/// that are done; nothing else about an action matters to either.
pub proof fn law_totals_are_summed(progress: Seq<Progress>)
    ensures
        screen::known_bytes(progress) == sum_of(
            progress.map_values(
                |one: Progress|
                    match one@.total {
                        Some(total) => total as nat,
                        None => 0nat,
                    },
            ),
        ),
        screen::done_bytes(progress) == sum_of(
            progress.map_values(|one: Progress| one@.done_bytes as nat),
        ),
        screen::completed(progress) == progress.filter(
            |one: Progress| one@.state == ActionState::Done,
        ).len(),
    decreases progress.len(),
{
    reveal(Seq::filter);
    let known = |one: Progress|
        match one@.total {
            Some(total) => total as nat,
            None => 0nat,
        };
    let done = |one: Progress| one@.done_bytes as nat;
    if progress.len() > 0 {
        let less = progress.drop_last();
        let last = progress.last();
        law_totals_are_summed(less);
        lemma_sum_push(less.map_values(known), known(last));
        lemma_sum_push(less.map_values(done), done(last));
        assert(progress.map_values(known) =~= less.map_values(known).push(known(last)));
        assert(progress.map_values(done) =~= less.map_values(done).push(done(last)));
    }
}

/// An action adds its total to the known bytes once that is known, whatever its
/// state; it adds what it has done to the done bytes, and one to the completed
/// actions exactly when it is done.
pub proof fn law_each_action_counts(progress: Seq<Progress>, one: Progress)
    ensures
        one@.total matches Some(total) ==> screen::known_bytes(progress.push(one))
            == screen::known_bytes(progress) + total,
        one@.total is None ==> screen::known_bytes(progress.push(one)) == screen::known_bytes(
            progress,
        ),
        screen::done_bytes(progress.push(one)) == screen::done_bytes(progress)
            + one@.done_bytes,
        one@.state == ActionState::Done ==> screen::completed(progress.push(one))
            == screen::completed(progress) + 1,
        one@.state != ActionState::Done ==> screen::completed(progress.push(one))
            == screen::completed(progress),
        screen::known_bytes(Seq::empty()) == 0,
        screen::done_bytes(Seq::empty()) == 0,
        screen::completed(Seq::empty()) == 0,
{
    assert(progress.push(one).drop_last() =~= progress);
}

/// Two moments of a run with the same totals have the same known bytes, those
/// with the same work done the same done bytes, and those with the same states
/// the same completed actions.
pub proof fn law_totals_are_independent(left: Seq<Progress>, right: Seq<Progress>)
    requires
        left.len() == right.len(),
    ensures
        (forall|i: int| 0 <= i < left.len() ==> (#[trigger] left[i])@.total == right[i]@.total)
            ==> screen::known_bytes(left) == screen::known_bytes(right),
        (forall|i: int|
            0 <= i < left.len() ==> (#[trigger] left[i])@.done_bytes == right[i]@.done_bytes)
            ==> screen::done_bytes(left) == screen::done_bytes(right),
        (forall|i: int| 0 <= i < left.len() ==> (#[trigger] left[i])@.state == right[i]@.state)
            ==> screen::completed(left) == screen::completed(right),
        screen::completed(left) <= left.len(),
        (forall|i: int|
            0 <= i < left.len() ==> (#[trigger] left[i])@.state == ActionState::Done)
            ==> screen::completed(left) == left.len(),
    decreases left.len(),
{
    if left.len() > 0 {
        let (a, b) = (left.drop_last(), right.drop_last());
        law_totals_are_independent(a, b);
        let last = left.len() - 1;
        assert(left.last() == left[last] && right.last() == right[last]);
        assert(forall|i: int| 0 <= i < a.len() ==> #[trigger] a[i] == left[i] && b[i] == right[i]);
    }
}

proof fn lemma_with_report_stable(
    reports: Seq<NumberedReport>,
    report: NumberedReport,
    number: usize,
)
    ensures
        summary::with_report(reports, report).filter(|one: NumberedReport| one.0 == number)
            == reports.push(report).filter(|one: NumberedReport| one.0 == number),
    decreases reports.len(),
{
    reveal(Seq::filter);
    let same = |one: NumberedReport| one.0 == number;
    assert(reports.push(report).drop_last() =~= reports);
    if reports.len() > 0 && reports.last().0 > report.0 {
        let less = reports.drop_last();
        lemma_with_report_stable(less, report, number);
        let inner = summary::with_report(less, report);
        assert(inner.push(reports.last()).drop_last() =~= inner);
        assert(less.push(report).drop_last() =~= less);
        assert(reports.filter(same) == if same(reports.last()) {
            less.filter(same).push(reports.last())
        } else {
            less.filter(same)
        });
    }
}

/// Reports with the same number keep the order in which they came.
pub proof fn law_reports_keep_their_order(reports: Seq<NumberedReport>, number: usize)
    ensures
        summary::in_order(reports).filter(|one: NumberedReport| one.0 == number) == reports.filter(
            |one: NumberedReport| one.0 == number,
        ),
    decreases reports.len(),
{
    reveal(Seq::filter);
    let same = |one: NumberedReport| one.0 == number;
    if reports.len() > 0 {
        let less = reports.drop_last();
        law_reports_keep_their_order(less, number);
        lemma_with_report_stable(summary::in_order(less), reports.last(), number);
        let ordered = summary::in_order(less);
        assert(ordered.push(reports.last()).drop_last() =~= ordered);
    }
}

} // verus!
