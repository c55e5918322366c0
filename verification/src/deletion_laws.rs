//! What each step of a deletion does, and what is said of it.

use crate::action::ProgressView;
use crate::counting_laws;
use crate::discover::EntryKind;
use crate::path;
use crate::path::{PartView, Platform};
use crate::remove;
use crate::remove::{
    FailureKind, FailuresView, MeasuredEntryView, RemovalFailure, RemovalPhaseView,
    RemovalReplyView, RemovalRequestView, RemovalView, Retry, RetryReply, RetryStep, StepView,
    TreeMeasureView,
};
use vstd::prelude::*;

verus! {

/// All failures are reported up to twenty; of more, the first twenty are, and a
/// line that says that there are more.
pub proof fn law_twenty_failures_are_reported(failures: Seq<Seq<char>>)
    ensures
        ({
            let lines = remove::reported(failures);
            &&& failures.len() <= 20 ==> lines == failures
            &&& failures.len() > 20 ==> lines.len() == 21 && lines[20]
                == "… further failures elided"@
            &&& forall|i: int|
                0 <= i < lines.len() && i < 20 ==> #[trigger] lines[i] == failures[i]
        }),
{
}

/// Every failure counts; those from the twenty-second on leave the sample as it
/// is, and the first are in it as they are.
pub proof fn law_failures_are_kept_in_order(failures: FailuresView, message: Seq<char>)
    ensures
        failures.with(message).count == failures.count + 1,
        failures.sample.len() < 20 ==> failures.with(message).sample == failures.sample.push(
            message,
        ),
        failures.sample.len() == 20 ==> failures.with(message).sample == failures.sample.push(
            "… further failures elided"@,
        ),
        failures.sample.len() > 20 ==> failures.with(message).sample == failures.sample,
{
}

/// A file counts with its size, if that is known; a link, a directory and what
/// cannot be read count nothing, and only a directory is looked into.
pub proof fn law_only_files_have_a_size(
    measure: TreeMeasureView,
    directory: Seq<PartView>,
    name: Seq<u8>,
    bytes: u64,
)
    ensures
        ({
            let file = measure.with(
                directory,
                (MeasuredEntryView::File { size: Some(bytes) }),
            );
            let unknown = measure.with(directory, (MeasuredEntryView::File { size: None }));
            let link = measure.with(directory, MeasuredEntryView::Symlink);
            let inner = measure.with(directory, (MeasuredEntryView::Directory { name }));
            let unreadable = measure.with(directory, MeasuredEntryView::Unreadable);
            &&& file.total == measure.total + bytes
            &&& file.pending == measure.pending
            &&& unknown.total == measure.total && unknown.pending == measure.pending
            &&& link.total == measure.total && link.pending == measure.pending
            &&& unreadable.total == measure.total && unreadable.pending == measure.pending
            &&& inner.total == measure.total
            &&& inner.pending == measure.pending.push(path::child(directory, name))
        }),
{
}

/// Looking into a directory takes it from those that are left, the last one
/// first, and adds nothing to the size.
pub proof fn law_directories_are_looked_into_once(measure: TreeMeasureView)
    requires
        measure.pending.len() > 0,
    ensures
        measure.taken().pending.push(measure.pending.last()) == measure.pending,
        measure.taken().total == measure.total,
{
    assert(measure.taken().pending.push(measure.pending.last()) =~= measure.pending);
}

/// The size of an entry.
pub open spec fn bytes_of(entry: MeasuredEntryView) -> nat {
    match entry {
        MeasuredEntryView::File { size } => match size {
            Some(bytes) => bytes as nat,
            None => 0,
        },
        _ => 0,
    }
}

/// What a directory adds to the size of a tree is the sum of the sizes of its
/// entries.
pub proof fn law_directories_are_summed(
    measure: TreeMeasureView,
    directory: Seq<PartView>,
    entries: Seq<MeasuredEntryView>,
)
    ensures
        remove::measured(measure, directory, entries).total == measure.total
            + counting_laws::sum_of(entries.map_values(|entry: MeasuredEntryView| bytes_of(entry))),
    decreases entries.len(),
{
    let sizes = entries.map_values(|entry: MeasuredEntryView| bytes_of(entry));
    if entries.len() > 0 {
        let less = entries.drop_last();
        law_directories_are_summed(measure, directory, less);
        let earlier = less.map_values(|entry: MeasuredEntryView| bytes_of(entry));
        counting_laws::lemma_sum_push(earlier, bytes_of(entries.last()));
        assert(sizes =~= earlier.push(bytes_of(entries.last())));
    }
}

/// Measuring begins with the root itself, unless that is a link: then there is
/// nothing to measure.
pub proof fn law_links_are_not_measured(root: Seq<PartView>)
    ensures
        remove::measure_begun(root, EntryKind::Symlink).pending.len() == 0,
        remove::measure_begun(root, EntryKind::Directory).pending == seq![root],
        remove::measure_begun(root, EntryKind::Other).pending == seq![root],
        remove::measure_begun(root, EntryKind::Symlink).total == 0,
        remove::measure_begun(root, EntryKind::Directory).total == 0,
        remove::measure_begun(root, EntryKind::Other).total == 0,
{
}

/// What is gone counts as removed. After any other failure the read-only mark is
/// cleared; only if that was done is the removal tried again, and then what comes
/// of it stands; otherwise the first failure does.
pub proof fn law_refused_removals_are_tried_again(
    failure: RemovalFailure,
    result: Result<(), RemovalFailure>,
)
    ensures
        remove::retried(Retry::First, RetryReply::Attempted(Ok(()))) == RetryStep::Settled(Ok(())),
        failure.kind == FailureKind::NotFound ==> remove::retried(
            Retry::First,
            RetryReply::Attempted(Err(failure)),
        ) == RetryStep::Settled(Ok(())),
        failure.kind == FailureKind::DirectoryNotEmpty || failure.kind == FailureKind::Other
            ==> remove::retried(Retry::First, RetryReply::Attempted(Err(failure)))
            == RetryStep::Waits(Retry::Clearing(failure)),
        remove::retried(Retry::Clearing(failure), RetryReply::Cleared(true)) == RetryStep::Waits(
            Retry::Second,
        ),
        remove::retried(Retry::Clearing(failure), RetryReply::Cleared(false))
            == RetryStep::Settled(Err(failure)),
        remove::retried(Retry::Second, RetryReply::Attempted(result)) == RetryStep::Settled(result),
{
}

/// What is written of a path.
pub open spec fn shown(removal: RemovalView, place: Seq<PartView>) -> Seq<char> {
    crate::format::display_text(place, removal.platform)
}

/// What has been removed and what has failed is the same as before.
pub open spec fn same_counts(before: RemovalView, after: RemovalView) -> bool {
    &&& after.bytes_removed == before.bytes_removed
    &&& after.files_removed == before.files_removed
    &&& after.failures == before.failures
}

/// Nothing more is removed, and one more failure is noted with a line.
pub open spec fn one_failure(before: RemovalView, after: RemovalView, line: Seq<char>) -> bool {
    &&& after.bytes_removed == before.bytes_removed
    &&& after.files_removed == before.files_removed
    &&& after.failures == before.failures.with(line)
}

/// An entry is removed as what it is: a link as a link, never followed; a file
/// as a file; and a directory is entered later.
#[verifier::spinoff_prover]
#[verifier::rlimit(50)]
pub proof fn law_entries_are_removed_as_what_they_are(
    removal: RemovalView,
    directory: Seq<PartView>,
    name: Seq<u8>,
    kind: EntryKind,
    size: Option<u64>,
)
    requires
        removal.phase == (RemovalPhaseView::Listing { directory }),
    ensures
        ({
            let place = path::child(directory, name);
            let after = removal.after((RemovalReplyView::Entry { name, kind, size }), false);
            &&& removal.request() == RemovalRequestView::NextEntry
            &&& same_counts(removal, after)
            &&& kind == EntryKind::Symlink ==> after.request() == RemovalRequestView::RemoveLink(
                place,
            ) && after.stack == removal.stack
            &&& kind == EntryKind::Other ==> after.request() == RemovalRequestView::RemoveFile(
                place,
            ) && after.stack == removal.stack
            &&& kind == EntryKind::Directory ==> after.request() == RemovalRequestView::NextEntry
                && after.stack == removal.stack.push(StepView::Enter(place))
        }),
{
}

/// What cannot be inspected or read is passed over with a line.
#[verifier::spinoff_prover]
#[verifier::rlimit(50)]
pub proof fn law_unreadable_entries_are_passed_over(
    removal: RemovalView,
    directory: Seq<PartView>,
    name: Seq<u8>,
    error: Seq<char>,
)
    requires
        removal.phase == (RemovalPhaseView::Listing { directory }),
    ensures
        ({
            let place = path::child(directory, name);
            let unknown = removal.after((RemovalReplyView::EntryUnknown { name, error }), false);
            let failed = removal.after(RemovalReplyView::EntryFailed(error), false);
            &&& unknown.phase == removal.phase
            &&& unknown.stack == removal.stack
            &&& one_failure(
                removal,
                unknown,
                "cannot inspect "@ + shown(removal, place) + ": "@ + error,
            )
            &&& failed.phase == removal.phase
            &&& failed.stack == removal.stack
            &&& one_failure(
                removal,
                failed,
                "cannot read an entry in "@ + shown(removal, directory) + ": "@ + error,
            )
        }),
{
}

/// A file that is removed counts with its size, or nothing if that is unknown; a
/// link counts nothing but itself; both count as one. What cannot be removed is
/// passed over with a line. Either way the next entry follows.
#[verifier::spinoff_prover]
#[verifier::rlimit(50)]
pub proof fn law_removed_entries_count(
    removal: RemovalView,
    directory: Seq<PartView>,
    name: Seq<u8>,
    size: Option<u64>,
    cause: FailureKind,
    message: Seq<char>,
    progress: ProgressView,
    cancel: bool,
)
    requires
        removal.phase == (RemovalPhaseView::Listing { directory }),
    ensures
        ({
            let place = path::child(directory, name);
            let failure = RemovalReplyView::RemoveFailed { cause, message };
            let link = removal.after(
                (RemovalReplyView::Entry { name, kind: EntryKind::Symlink, size }),
                false,
            );
            let file = removal.after(
                (RemovalReplyView::Entry { name, kind: EntryKind::Other, size }),
                false,
            );
            let bytes = match size {
                Some(bytes) => bytes,
                None => 0,
            };
            let unlinked = link.after(RemovalReplyView::Removed, cancel);
            let deleted = file.after(RemovalReplyView::Removed, cancel);
            let kept = link.after(failure, cancel);
            let refused = file.after(failure, cancel);
            &&& unlinked.phase == removal.phase && deleted.phase == removal.phase && kept.phase
                == removal.phase && refused.phase == removal.phase
            &&& unlinked.files_removed == removal.files_removed + 1 && unlinked.bytes_removed
                == removal.bytes_removed && unlinked.failures == removal.failures
            &&& deleted.files_removed == removal.files_removed + 1 && deleted.bytes_removed
                == removal.bytes_removed + bytes && deleted.failures == removal.failures
            &&& one_failure(
                removal,
                kept,
                "cannot remove link "@ + shown(removal, place) + ": "@ + message,
            )
            &&& one_failure(
                removal,
                refused,
                "cannot remove "@ + shown(removal, place) + ": "@ + message,
            )
            &&& link.progressed(RemovalReplyView::Removed, progress)
                == crate::action::with_removed(progress, 0)
            &&& file.progressed(RemovalReplyView::Removed, progress)
                == crate::action::with_removed(progress, bytes)
            &&& link.progressed(failure, progress) == progress
            &&& file.progressed(failure, progress) == progress
        }),
{
}

/// A directory is opened when its turn comes, listed to its end, and removed when
/// everything found in it has had its turn; one that cannot be opened is passed
/// over with a line, and still tried.
#[verifier::spinoff_prover]
#[verifier::rlimit(50)]
pub proof fn law_directories_are_removed_last(
    removal: RemovalView,
    directory: Seq<PartView>,
    error: Seq<char>,
)
    requires
        removal.phase == (RemovalPhaseView::Opening { directory }),
        removal.stack.len() > 0,
        removal.stack.last() == StepView::RemoveDirectory(directory),
    ensures
        ({
            let opened = removal.after(RemovalReplyView::Opened, false);
            let failed = removal.after(RemovalReplyView::OpenFailed(error), false);
            let ended = opened.after(RemovalReplyView::NoMoreEntries, false);
            &&& removal.request() == RemovalRequestView::Open(directory)
            &&& opened.request() == RemovalRequestView::NextEntry
            &&& opened.stack == removal.stack && same_counts(removal, opened)
            &&& failed.request() == RemovalRequestView::RemoveDirectory(directory)
            &&& one_failure(
                removal,
                failed,
                "cannot read "@ + shown(removal, directory) + ": "@ + error,
            )
            &&& ended.request() == RemovalRequestView::RemoveDirectory(directory)
            &&& ended.stack == removal.stack.drop_last() && same_counts(removal, ended)
        }),
{
}

/// The directory that was found last is the next to be entered, and comes up for
/// removal after all that is found in it.
pub proof fn law_directories_are_entered_in_turn(
    removal: RemovalView,
    directory: Seq<PartView>,
    inner: Seq<PartView>,
)
    requires
        removal.phase == (RemovalPhaseView::Listing { directory }),
        removal.stack.len() > 0,
        removal.stack.last() == StepView::Enter(inner),
    ensures
        ({
            let after = removal.after(RemovalReplyView::NoMoreEntries, false);
            &&& after.request() == RemovalRequestView::Open(inner)
            &&& after.stack == removal.stack.drop_last().push(StepView::RemoveDirectory(inner))
            &&& same_counts(removal, after)
        }),
{
}

/// A directory that is removed counts for nothing itself. That it is not empty
/// is no failure of its own, as what is left in it has been noted; any other is.
#[verifier::spinoff_prover]
#[verifier::rlimit(50)]
pub proof fn law_directories_that_stay(
    removal: RemovalView,
    directory: Seq<PartView>,
    message: Seq<char>,
    progress: ProgressView,
    cause: FailureKind,
    cancel: bool,
)
    requires
        removal.phase == (RemovalPhaseView::RemovingDirectory { directory }),
    ensures
        ({
            let removed = removal.after(RemovalReplyView::Removed, cancel);
            let failure = RemovalReplyView::RemoveFailed { cause, message };
            let failed = removal.after(failure, cancel);
            &&& removal.request() == RemovalRequestView::RemoveDirectory(directory)
            &&& same_counts(removal, removed)
            &&& cause == FailureKind::DirectoryNotEmpty ==> same_counts(removal, failed)
            &&& cause == FailureKind::NotFound || cause == FailureKind::Other ==> one_failure(
                removal,
                failed,
                "cannot remove directory "@ + shown(removal, directory) + ": "@ + message,
            )
            &&& removal.progressed(RemovalReplyView::Removed, progress) == progress
            &&& removal.progressed(failure, progress) == progress
            &&& removal.stack.len() == 0 ==> removed.request() == RemovalRequestView::Finished
                && failed.request() == RemovalRequestView::Finished && removed.cancelled
                == removal.cancelled
            &&& removal.stack.len() > 0 && cancel ==> removed.request()
                == RemovalRequestView::Finished && removed.cancelled && failed.cancelled
            &&& removal.stack.len() > 0 && !cancel ==> removed.cancelled == removal.cancelled
        }),
{
}

/// A removal begins with whether there is anything at its root; if there is, the
/// root is opened, and if not, it is over.
#[verifier::spinoff_prover]
#[verifier::rlimit(50)]
pub proof fn law_removals_begin_at_their_root(root: Seq<PartView>, platform: Platform)
    ensures
        ({
            let start = remove::removal_begun(root, platform);
            let there = start.after(RemovalReplyView::Found(true), false);
            let gone = start.after(RemovalReplyView::Found(false), false);
            let stopped = start.after(RemovalReplyView::Found(true), true);
            &&& start.request() == RemovalRequestView::Exists(root)
            &&& start.bytes_removed == 0 && start.files_removed == 0
            &&& start.failures.count == 0 && start.failures.sample.len() == 0
            &&& !start.cancelled && start.stack.len() == 0
            &&& there.request() == RemovalRequestView::Open(root)
            &&& there.stack == seq![StepView::RemoveDirectory(root)]
            &&& same_counts(start, there) && !there.cancelled
            &&& gone.request() == RemovalRequestView::Finished
            &&& same_counts(start, gone) && !gone.cancelled
            &&& stopped.request() == RemovalRequestView::Finished
            &&& same_counts(start, stopped) && stopped.cancelled
        }),
{
    let start = remove::removal_begun(root, platform);
    assert(start.with_step(StepView::Enter(root)).stack.drop_last() =~= Seq::empty());
    assert(start.after(RemovalReplyView::Found(true), false).stack =~= seq![
        StepView::RemoveDirectory(root),
    ]);
}

/// A removal that is cancelled while it lists a directory leaves the entry that
/// was found alone, and says that it was cancelled.
#[verifier::spinoff_prover]
#[verifier::rlimit(50)]
pub proof fn law_cancelled_listings_leave_the_rest(
    removal: RemovalView,
    directory: Seq<PartView>,
    name: Seq<u8>,
    kind: EntryKind,
    size: Option<u64>,
    error: Seq<char>,
)
    requires
        removal.phase == (RemovalPhaseView::Listing { directory }),
    ensures
        ({
            let entry = removal.after((RemovalReplyView::Entry { name, kind, size }), true);
            let unknown = removal.after((RemovalReplyView::EntryUnknown { name, error }), true);
            let failed = removal.after(RemovalReplyView::EntryFailed(error), true);
            &&& entry.request() == RemovalRequestView::Finished && entry.cancelled
            &&& unknown.request() == RemovalRequestView::Finished && unknown.cancelled
            &&& failed.request() == RemovalRequestView::Finished && failed.cancelled
            &&& same_counts(removal, entry)
            &&& same_counts(removal, unknown)
            &&& same_counts(removal, failed)
        }),
{
}

/// A removal takes exactly the answers to what it asks for.
pub proof fn law_removals_take_answers(removal: RemovalView, reply: RemovalReplyView)
    ensures
        removal.awaits(reply) <==> match removal.request() {
            RemovalRequestView::Exists(_) => reply is Found,
            RemovalRequestView::Open(_) => reply is Opened || reply is OpenFailed,
            RemovalRequestView::NextEntry => reply is Entry || reply is EntryUnknown
                || reply is EntryFailed || reply is NoMoreEntries,
            RemovalRequestView::RemoveLink(_) => reply is Removed || reply is RemoveFailed,
            RemovalRequestView::RemoveFile(_) => reply is Removed || reply is RemoveFailed,
            RemovalRequestView::RemoveDirectory(_) => reply is Removed || reply is RemoveFailed,
            RemovalRequestView::Finished => false,
        },
{
}

/// A removal has room as long as one more file and one more failure can be
/// counted, and the bytes of the file that it deletes.
pub proof fn law_removals_have_room_for_one_more(removal: RemovalView)
    ensures
        removal.has_room() <==> {
            &&& removal.files_removed + 1 <= u64::MAX
            &&& removal.failures.count + 1 <= u64::MAX
            &&& removal.request() is RemoveFile ==> removal.after(
                RemovalReplyView::Removed,
                false,
            ).bytes_removed <= u64::MAX
        },
{
}

} // verus!
