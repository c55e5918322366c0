//! What holds of every removal, whatever the file system answers and whenever
//! it is cancelled.

use crate::action::ProgressView;
use crate::disk;
use crate::path;
use crate::path::{PartView, Platform};
use crate::remove;
use crate::remove::{
    RemovalPhaseView, RemovalReplyView, RemovalRequestView, RemovalView, Retry, RetryReply,
    RetryStep,
};
use vstd::prelude::*;

verus! {

/// An answer, and whether the removal is cancelled when it comes.
pub type Answer = (RemovalReplyView, bool);

/// A removal after a number of answers.
pub open spec fn answered(removal: RemovalView, answers: Seq<Answer>) -> RemovalView
    decreases answers.len(),
{
    if answers.len() == 0 {
        removal
    } else {
        answered(removal, answers.drop_last()).after(answers.last().0, answers.last().1)
    }
}

/// Whether each answer is one to what the removal asks for at its time.
pub open spec fn apt(removal: RemovalView, answers: Seq<Answer>) -> bool
    decreases answers.len(),
{
    if answers.len() == 0 {
        true
    } else {
        &&& apt(removal, answers.drop_last())
        &&& answered(removal, answers.drop_last()).awaits(answers.last().0)
    }
}

/// Whether a request is about nothing outside a directory.
pub open spec fn request_inside(request: RemovalRequestView, root: Seq<PartView>) -> bool {
    match request {
        RemovalRequestView::Exists(path) => path::begins_with(path, root),
        RemovalRequestView::Open(path) => path::begins_with(path, root),
        RemovalRequestView::RemoveLink(path) => path::beneath(path, root),
        RemovalRequestView::RemoveFile(path) => path::beneath(path, root),
        RemovalRequestView::RemoveDirectory(path) => path::begins_with(path, root),
        RemovalRequestView::NextEntry => true,
        RemovalRequestView::Finished => true,
    }
}

spec fn phase_inside(phase: RemovalPhaseView, root: Seq<PartView>) -> bool {
    match phase {
        RemovalPhaseView::Looking { root: place } => place == root,
        RemovalPhaseView::Opening { directory } => path::begins_with(directory, root),
        RemovalPhaseView::Listing { directory } => path::begins_with(directory, root),
        RemovalPhaseView::Unlinking { directory, path } => {
            path::begins_with(directory, root) && path::beneath(path, root)
        },
        RemovalPhaseView::Deleting { directory, path, size } => {
            path::begins_with(directory, root) && path::beneath(path, root)
        },
        RemovalPhaseView::RemovingDirectory { directory } => path::begins_with(directory, root),
        RemovalPhaseView::Finished => true,
    }
}

spec fn inside(removal: RemovalView, root: Seq<PartView>) -> bool {
    &&& phase_inside(removal.phase, root)
    &&& forall|i: int|
        0 <= i < removal.stack.len() ==> path::begins_with(
            (#[trigger] removal.stack[i]).directory(),
            root,
        )
}

proof fn lemma_next_step_inside(removal: RemovalView, cancel: bool, root: Seq<PartView>)
    requires
        forall|i: int|
            0 <= i < removal.stack.len() ==> path::begins_with(
                (#[trigger] removal.stack[i]).directory(),
                root,
            ),
    ensures
        inside(removal.next_step(cancel), root),
{
    let after = removal.next_step(cancel);
    if removal.stack.len() > 0 {
        let last = removal.stack.len() - 1;
        assert(removal.stack[last] == removal.stack.last());
        assert forall|i: int| 0 <= i < after.stack.len() implies path::begins_with(
            (#[trigger] after.stack[i]).directory(),
            root,
        ) by {
            if i < last {
                assert(after.stack[i] == removal.stack[i]);
            }
        }
    }
}

proof fn lemma_after_inside(
    removal: RemovalView,
    reply: RemovalReplyView,
    cancel: bool,
    root: Seq<PartView>,
)
    requires
        inside(removal, root),
        removal.awaits(reply),
    ensures
        inside(removal.after(reply, cancel), root),
{
    match removal.phase {
        RemovalPhaseView::Looking { root: place } => {
            assert(path::begins_with(root, root)) by {
                path::lemma_begins_with_alike(root, root);
            }
            lemma_next_step_inside(
                removal.with_step(remove::StepView::Enter(place)),
                cancel,
                root,
            );
        },
        RemovalPhaseView::Opening { directory } => match reply {
            RemovalReplyView::OpenFailed(error) => {
                let failed = removal.with_failure(
                    "cannot read "@ + removal.shown(directory) + ": "@ + error,
                );
                lemma_next_step_inside(failed, cancel, root);
            },
            _ => {},
        },
        RemovalPhaseView::Listing { directory } => match reply {
            RemovalReplyView::NoMoreEntries => lemma_next_step_inside(removal, cancel, root),
            RemovalReplyView::Entry { name, kind, size } => {
                disk::lemma_child_beneath(directory, name, root);
                let after = removal.after(reply, cancel);
                assert forall|i: int| 0 <= i < after.stack.len() implies path::begins_with(
                    (#[trigger] after.stack[i]).directory(),
                    root,
                ) by {
                    if i < removal.stack.len() {
                        assert(after.stack[i] == removal.stack[i]);
                    }
                }
            },
            _ => {},
        },
        RemovalPhaseView::RemovingDirectory { directory } => match reply {
            RemovalReplyView::RemoveFailed { cause, message } => {
                let failed = removal.with_failure(
                    "cannot remove directory "@ + removal.shown(directory) + ": "@ + message,
                );
                lemma_next_step_inside(failed, cancel, root);
                lemma_next_step_inside(removal, cancel, root);
            },
            _ => lemma_next_step_inside(removal, cancel, root),
        },
        _ => {},
    }
}

proof fn lemma_answered_inside(
    root: Seq<PartView>,
    platform: Platform,
    answers: Seq<Answer>,
)
    requires
        apt(remove::removal_begun(root, platform), answers),
    ensures
        inside(answered(remove::removal_begun(root, platform), answers), root),
    decreases answers.len(),
{
    if answers.len() > 0 {
        let earlier = answers.drop_last();
        lemma_answered_inside(root, platform, earlier);
        lemma_after_inside(
            answered(remove::removal_begun(root, platform), earlier),
            answers.last().0,
            answers.last().1,
            root,
        );
    }
}

/// Whatever the file system answers, a removal asks for nothing outside the
/// tree it is to remove.
pub proof fn law_removals_stay_inside(
    root: Seq<PartView>,
    platform: Platform,
    answers: Seq<Answer>,
)
    requires
        apt(remove::removal_begun(root, platform), answers),
    ensures
        request_inside(
            answered(remove::removal_begun(root, platform), answers).request(),
            root,
        ),
{
    lemma_answered_inside(root, platform, answers);
    assert(path::begins_with(root, root)) by {
        path::lemma_begins_with_alike(root, root);
    }
}

/// A removal that is cancelled removes and opens nothing more, and is over
/// with the next answer at the latest.
pub proof fn law_cancelling_stops_removals(
    removal: RemovalView,
    reply: RemovalReplyView,
    next: RemovalReplyView,
)
    requires
        removal.awaits(reply),
        removal.after(reply, true).awaits(next),
    ensures
        removal.after(reply, true).request() is NextEntry || removal.after(
            reply,
            true,
        ).request() is Finished,
        removal.after(reply, true).after(next, true).request() is Finished,
        removal.after(reply, true).after(next, true).bytes_removed == removal.after(
            reply,
            true,
        ).bytes_removed,
        removal.after(reply, true).after(next, true).files_removed == removal.after(
            reply,
            true,
        ).files_removed,
{
}

/// A tree that is not there is not an error: the removal is over, with
/// nothing removed and nothing to report.
pub proof fn law_missing_trees_cost_nothing(
    root: Seq<PartView>,
    platform: Platform,
    cancel: bool,
)
    ensures
        ({
            let end = remove::removal_begun(root, platform).after(
                RemovalReplyView::Found(false),
                cancel,
            );
            &&& end.phase is Finished
            &&& !end.cancelled
            &&& end.bytes_removed == 0
            &&& end.files_removed == 0
            &&& end.failures.count == 0
            &&& end.failures.sample.len() == 0
        }),
{
}

/// The counters of an action after a number of answers to its removal.
pub open spec fn progress_after(
    removal: RemovalView,
    answers: Seq<Answer>,
    progress: ProgressView,
) -> ProgressView
    decreases answers.len(),
{
    if answers.len() == 0 {
        progress
    } else {
        answered(removal, answers.drop_last()).progressed(
            answers.last().0,
            progress_after(removal, answers.drop_last(), progress),
        )
    }
}

proof fn lemma_step_counts(
    removal: RemovalView,
    reply: RemovalReplyView,
    cancel: bool,
    progress: ProgressView,
)
    requires
        removal.awaits(reply),
    ensures
        ({
            let after = removal.after(reply, cancel);
            let counted = removal.progressed(reply, progress);
            let bytes = after.bytes_removed - removal.bytes_removed;
            let files = after.files_removed - removal.files_removed;
            &&& 0 <= bytes <= u64::MAX
            &&& 0 <= files <= 1
            &&& counted.done_bytes as int == (progress.done_bytes + bytes)
                % 0x1_0000_0000_0000_0000
            &&& counted.done_files as int == (progress.done_files + files)
                % 0x1_0000_0000_0000_0000
            &&& counted.state == progress.state
            &&& counted.total == progress.total
        }),
{
    match removal.phase {
        RemovalPhaseView::Unlinking { directory, path } => {},
        RemovalPhaseView::Deleting { directory, path, size } => {},
        _ => {
            assert(removal.progressed(reply, progress) == progress);
            assert(removal.after(reply, cancel).bytes_removed == removal.bytes_removed);
            assert(removal.after(reply, cancel).files_removed == removal.files_removed);
        },
    }
}

proof fn lemma_sum_in_turn(start: int, first: int, second: int)
    ensures
        ((start + first) % 0x1_0000_0000_0000_0000 + second) % 0x1_0000_0000_0000_0000 == (start
            + (first + second)) % 0x1_0000_0000_0000_0000,
{
    vstd::arithmetic::div_mod::lemma_add_mod_noop_right(
        second,
        start + first,
        0x1_0000_0000_0000_0000,
    );
}

/// The counters of an action keep up with its removal: they count what it
/// counts, modulo two to the power of 64.
#[verifier::rlimit(40)]
pub proof fn law_progress_keeps_up(
    root: Seq<PartView>,
    platform: Platform,
    answers: Seq<Answer>,
    progress: ProgressView,
)
    requires
        apt(remove::removal_begun(root, platform), answers),
    ensures
        ({
            let start = remove::removal_begun(root, platform);
            let removal = answered(start, answers);
            let counted = progress_after(start, answers, progress);
            &&& counted.done_bytes as int == (progress.done_bytes + removal.bytes_removed)
                % 0x1_0000_0000_0000_0000
            &&& counted.done_files as int == (progress.done_files + removal.files_removed)
                % 0x1_0000_0000_0000_0000
            &&& counted.state == progress.state
            &&& counted.total == progress.total
        }),
    decreases answers.len(),
{
    if answers.len() > 0 {
        let earlier = answers.drop_last();
        let start = remove::removal_begun(root, platform);
        let before = answered(start, earlier);
        let counted = progress_after(start, earlier, progress);
        law_progress_keeps_up(root, platform, earlier, progress);
        let last = answers.last();
        let after = before.after(last.0, last.1);
        lemma_step_counts(before, last.0, last.1, counted);
        lemma_sum_in_turn(
            progress.done_bytes as int,
            before.bytes_removed as int,
            after.bytes_removed - before.bytes_removed,
        );
        lemma_sum_in_turn(
            progress.done_files as int,
            before.files_removed as int,
            after.files_removed - before.files_removed,
        );
    }
}

/// A removal reports failures if and only if it counts some, and never counts
/// fewer than it reports.
pub proof fn law_removals_report_their_failures(
    root: Seq<PartView>,
    platform: Platform,
    answers: Seq<Answer>,
)
    ensures
        ({
            let failures = answered(remove::removal_begun(root, platform), answers).failures;
            &&& failures.sample.len() == 0 <==> failures.count == 0
            &&& failures.sample.len() <= failures.count
            &&& failures.sample.len() <= remove::MAX_REPORTED_ERRORS + 1
        }),
    decreases answers.len(),
{
    if answers.len() > 0 {
        let earlier = answers.drop_last();
        law_removals_report_their_failures(root, platform, earlier);
        lemma_failures_after(
            answered(remove::removal_begun(root, platform), earlier),
            answers.last().0,
            answers.last().1,
        );
    }
}

/// An answer adds one failure at most.
proof fn lemma_failures_after(removal: RemovalView, reply: RemovalReplyView, cancel: bool)
    ensures
        removal.after(reply, cancel).failures == removal.failures || exists|message: Seq<char>|
            removal.after(reply, cancel).failures == #[trigger] removal.failures.with(message),
{
    let after = removal.after(reply, cancel);
    match (removal.phase, reply) {
        (RemovalPhaseView::Opening { directory }, RemovalReplyView::OpenFailed(error)) => {
            let message = "cannot read "@ + removal.shown(directory) + ": "@ + error;
            assert(after.failures == removal.failures.with(message));
        },
        (
            RemovalPhaseView::Listing { directory },
            RemovalReplyView::EntryUnknown { name, error },
        ) => {
            let message = "cannot inspect "@ + removal.shown(path::child(directory, name)) + ": "@
                + error;
            assert(cancel || after.failures == removal.failures.with(message));
        },
        (RemovalPhaseView::Listing { directory }, RemovalReplyView::EntryFailed(error)) => {
            let message = "cannot read an entry in "@ + removal.shown(directory) + ": "@ + error;
            assert(cancel || after.failures == removal.failures.with(message));
        },
        (
            RemovalPhaseView::Unlinking { directory, path },
            RemovalReplyView::RemoveFailed { cause, message },
        ) => {
            let line = "cannot remove link "@ + removal.shown(path) + ": "@ + message;
            assert(after.failures == removal.failures.with(line));
        },
        (
            RemovalPhaseView::Deleting { directory, path, size },
            RemovalReplyView::RemoveFailed { cause, message },
        ) => {
            let line = "cannot remove "@ + removal.shown(path) + ": "@ + message;
            assert(after.failures == removal.failures.with(line));
        },
        (
            RemovalPhaseView::RemovingDirectory { directory },
            RemovalReplyView::RemoveFailed { cause, message },
        ) => {
            let line = "cannot remove directory "@ + removal.shown(directory) + ": "@ + message;
            assert(after.failures == removal.failures || after.failures
                == removal.failures.with(line));
        },
        _ => {},
    }
}

/// A removal is tried twice at most: it is settled with the third answer at
/// the latest, and what is gone already counts as removed.
pub proof fn law_removals_are_tried_twice_at_most(
    first: RetryReply,
    second: RetryReply,
    third: RetryReply,
)
    ensures
        first is Attempted ==> (match remove::retried(Retry::First, first) {
            RetryStep::Settled(result) => {
                result is Ok && (first->Attempted_0 is Ok || first->Attempted_0->Err_0.kind
                    == remove::FailureKind::NotFound)
            },
            RetryStep::Waits(retry) => {
                &&& retry is Clearing
                &&& second is Cleared ==> (match remove::retried(retry, second) {
                    RetryStep::Settled(result) => result == first->Attempted_0,
                    RetryStep::Waits(again) => {
                        &&& again is Second
                        &&& third is Attempted ==> remove::retried(again, third)
                            == RetryStep::Settled(third->Attempted_0)
                    },
                })
            },
        }),
{
}

} // verus!
