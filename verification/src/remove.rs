//! Measures and deletes directory trees. Deleting tolerates failures: an
//! entry that cannot be removed costs only that entry, everything else is
//! still reclaimed, and the failure is reported.

use crate::action;
use crate::action::{Progress, ProgressView};
use crate::discover::EntryKind;
use crate::format::display_path;
use crate::path;
use crate::path::{PartView, Platform, TreePath};
use crate::text;
use vstd::prelude::*;

verus! {

/// How many failures are reported one by one. A single locked file can
/// produce one failure per sibling; a readable sample does.
pub const MAX_REPORTED_ERRORS: usize = 20;

/// What deleting a tree came to.
#[derive(Debug)]
pub struct RemovalOutcome {
    pub bytes_removed: u64,
    pub files_removed: u64,
    /// A sample of the failures: at most `MAX_REPORTED_ERRORS` of them, and
    /// where there are more, one line that says so.
    pub errors: Vec<String>,
    /// All failures, with those that are not in the sample.
    pub error_count: u64,
    pub cancelled: bool,
}

/// What deleting a tree came to, as a value.
pub struct RemovalOutcomeView {
    pub bytes_removed: u64,
    pub files_removed: u64,
    pub errors: Seq<Seq<char>>,
    pub error_count: u64,
    pub cancelled: bool,
}

impl View for RemovalOutcome {
    type V = RemovalOutcomeView;

    open spec fn view(&self) -> RemovalOutcomeView {
        RemovalOutcomeView {
            bytes_removed: self.bytes_removed,
            files_removed: self.files_removed,
            errors: text::texts(self.errors@),
            error_count: self.error_count,
            cancelled: self.cancelled,
        }
    }
}

/// What stands for the failures beyond the sample.
pub open spec fn elision() -> Seq<char> {
    "… further failures elided"@
}

/// What is reported of a list of failures: all of them, or the first ones and
/// a line for the rest.
pub open spec fn reported(failures: Seq<Seq<char>>) -> Seq<Seq<char>> {
    if failures.len() <= MAX_REPORTED_ERRORS {
        failures
    } else {
        failures.take(MAX_REPORTED_ERRORS as int).push(elision())
    }
}

/// The failures so far: a sample, and how many there are.
#[derive(Debug)]
pub struct Failures {
    sample: Vec<String>,
    count: u64,
}

/// Failures as a value.
pub struct FailuresView {
    pub sample: Seq<Seq<char>>,
    pub count: nat,
}

impl View for Failures {
    type V = FailuresView;

    closed spec fn view(&self) -> FailuresView {
        FailuresView { sample: text::texts(self.sample@), count: self.count as nat }
    }
}

impl FailuresView {
    /// With one more failure.
    pub open spec fn with(self, message: Seq<char>) -> FailuresView {
        FailuresView {
            sample: if self.sample.len() < MAX_REPORTED_ERRORS {
                self.sample.push(message)
            } else if self.sample.len() == MAX_REPORTED_ERRORS {
                self.sample.push(elision())
            } else {
                self.sample
            },
            count: self.count + 1,
        }
    }

    /// Whether these are the sample and the number of a list of failures.
    pub open spec fn of(self, failures: Seq<Seq<char>>) -> bool {
        self.sample == reported(failures) && self.count == failures.len()
    }
}

/// Failures are counted one by one, and reported as a sample of them is.
pub proof fn law_failures_are_sampled(
    failures: FailuresView,
    messages: Seq<Seq<char>>,
    message: Seq<char>,
)
    requires
        failures.of(messages),
    ensures
        failures.with(message).of(messages.push(message)),
{
    let longer = messages.push(message);
    if messages.len() >= MAX_REPORTED_ERRORS {
        assert(longer.take(MAX_REPORTED_ERRORS as int) =~= messages.take(
            MAX_REPORTED_ERRORS as int,
        ));
        if messages.len() == MAX_REPORTED_ERRORS {
            assert(messages.take(MAX_REPORTED_ERRORS as int) =~= messages);
        }
    }
}

impl Failures {
    /// No failures.
    pub fn new() -> (failures: Failures)
        ensures
            failures@ == (FailuresView { sample: Seq::empty(), count: 0 }),
    {
        let failures = Failures { sample: Vec::new(), count: 0 };
        assert(failures@.sample =~= Seq::<Seq<char>>::empty());
        failures
    }

    /// Whether one more failure can be counted.
    pub fn has_room(&self) -> (room: bool)
        ensures
            room == (self@.count < u64::MAX),
    {
        self.count < u64::MAX
    }

    /// Adds a failure.
    pub fn push(&mut self, message: String)
        requires
            old(self)@.count < u64::MAX,
        ensures
            final(self)@ == old(self)@.with(message@),
    {
        self.count = self.count + 1;
        if self.sample.len() < MAX_REPORTED_ERRORS {
            self.sample.push(message);
        } else if self.sample.len() == MAX_REPORTED_ERRORS {
            self.sample.push("… further failures elided".to_owned());
        }
        assert(self@.sample =~= old(self)@.with(message@).sample);
    }
}

/// An entry of a directory, for measuring.
#[derive(Debug, PartialEq, Eq)]
pub enum MeasuredEntry {
    /// It, or its kind, could not be read.
    Unreadable,
    Symlink,
    Directory { name: Vec<u8> },
    /// Anything else, with its size where that could be read.
    File { size: Option<u64> },
}

/// An entry as a value.
pub enum MeasuredEntryView {
    Unreadable,
    Symlink,
    Directory { name: Seq<u8> },
    File { size: Option<u64> },
}

impl View for MeasuredEntry {
    type V = MeasuredEntryView;

    open spec fn view(&self) -> MeasuredEntryView {
        match self {
            MeasuredEntry::Unreadable => MeasuredEntryView::Unreadable,
            MeasuredEntry::Symlink => MeasuredEntryView::Symlink,
            MeasuredEntry::Directory { name } => MeasuredEntryView::Directory { name: name@ },
            MeasuredEntry::File { size } => MeasuredEntryView::File { size: *size },
        }
    }
}

/// The apparent size of an entry. Links count as nothing and are never
/// followed, so one that points elsewhere cannot inflate a total.
pub open spec fn entry_size(entry: MeasuredEntryView) -> nat {
    match entry {
        MeasuredEntryView::File { size: Some(bytes) } => bytes as nat,
        _ => 0,
    }
}

/// Sums the apparent size of every regular file of a tree. What cannot be
/// read is passed over: the total is what progress is measured against, and
/// nothing rests on it.
#[derive(Debug)]
pub struct TreeMeasure {
    pending: Vec<TreePath>,
    total: u64,
}

/// A measurement under way, as a value.
#[verifier::ext_equal]
pub struct TreeMeasureView {
    /// The directories still to be listed, the next one last.
    pub pending: Seq<Seq<PartView>>,
    pub total: nat,
}

impl View for TreeMeasure {
    type V = TreeMeasureView;

    closed spec fn view(&self) -> TreeMeasureView {
        TreeMeasureView {
            pending: self.pending@.map_values(|path: TreePath| path@),
            total: self.total as nat,
        }
    }
}

impl TreeMeasureView {
    /// With the next directory taken.
    pub open spec fn taken(self) -> TreeMeasureView {
        TreeMeasureView { pending: self.pending.drop_last(), ..self }
    }

    /// With an entry of a directory counted, or queued.
    pub open spec fn with(
        self,
        directory: Seq<PartView>,
        entry: MeasuredEntryView,
    ) -> TreeMeasureView {
        TreeMeasureView {
            pending: match entry {
                MeasuredEntryView::Directory { name } => self.pending.push(
                    path::child(directory, name),
                ),
                _ => self.pending,
            },
            total: self.total + entry_size(entry),
        }
    }
}

/// A measurement that begins. A root that is itself a link is not followed.
pub open spec fn measure_begun(root: Seq<PartView>, kind: EntryKind) -> TreeMeasureView {
    TreeMeasureView {
        pending: if kind == EntryKind::Symlink {
            Seq::empty()
        } else {
            seq![root]
        },
        total: 0,
    }
}

/// Begins to measure the tree below a root, of which it is known what it is.
pub fn measure_tree(root: &TreePath, kind: EntryKind) -> (measure: TreeMeasure)
    ensures
        measure@ == measure_begun(root@, kind),
{
    let mut pending: Vec<TreePath> = Vec::new();
    if kind != EntryKind::Symlink {
        pending.push(root.copy());
    }
    let measure = TreeMeasure { pending, total: 0 };
    assert(measure@ =~= measure_begun(root@, kind));
    measure
}

impl TreeMeasure {
    /// The directory to list next; none when all are listed, or when the
    /// measurement is cancelled.
    pub fn next(&mut self, cancelled: bool) -> (directory: Option<TreePath>)
        ensures
            directory is Some <==> old(self)@.pending.len() > 0 && !cancelled,
            directory matches Some(path) ==> path@ == old(self)@.pending.last(),
            final(self)@ == (if old(self)@.pending.len() > 0 {
                old(self)@.taken()
            } else {
                old(self)@
            }),
    {
        let directory = self.pending.pop();
        assert(old(self)@.pending.len() > 0 ==> self@.pending =~= old(
            self,
        )@.pending.drop_last());
        match directory {
            Some(path) => if cancelled {
                None
            } else {
                Some(path)
            },
            None => None,
        }
    }

    /// Whether the total can take an entry.
    pub fn has_room(&self, entry: &MeasuredEntry) -> (room: bool)
        ensures
            room == (self@.total + entry_size(entry@) <= u64::MAX),
    {
        match entry {
            MeasuredEntry::File { size: Some(bytes) } => *bytes <= u64::MAX - self.total,
            _ => true,
        }
    }

    /// Takes in an entry of the directory that is being listed.
    pub fn add(&mut self, directory: &TreePath, entry: MeasuredEntry)
        requires
            old(self)@.total + entry_size(entry@) <= u64::MAX,
        ensures
            final(self)@ == old(self)@.with(directory@, entry@),
    {
        match entry {
            MeasuredEntry::Directory { name } => {
                self.pending.push(directory.join_bytes(name));
            },
            MeasuredEntry::File { size: Some(bytes) } => {
                self.total = self.total + bytes;
            },
            _ => {},
        }
        assert(self@ =~= old(self)@.with(directory@, entry@));
    }

    /// The total so far.
    pub fn total(&self) -> (total: u64)
        ensures
            total == self@.total,
    {
        self.total
    }
}

/// The sum of the sizes of entries.
pub open spec fn entries_size(entries: Seq<MeasuredEntryView>) -> nat
    decreases entries.len(),
{
    if entries.len() == 0 {
        0
    } else {
        entries_size(entries.drop_last()) + entry_size(entries.last())
    }
}

/// A measurement after all entries of a directory.
pub open spec fn measured(
    measure: TreeMeasureView,
    directory: Seq<PartView>,
    entries: Seq<MeasuredEntryView>,
) -> TreeMeasureView
    decreases entries.len(),
{
    if entries.len() == 0 {
        measure
    } else {
        measured(measure, directory, entries.drop_last()).with(directory, entries.last())
    }
}

/// A listed directory adds the sizes of its files to the total, and nothing
/// else.
pub proof fn law_directories_add_their_files(
    measure: TreeMeasureView,
    directory: Seq<PartView>,
    entries: Seq<MeasuredEntryView>,
)
    ensures
        measured(measure, directory, entries).total == measure.total + entries_size(entries),
    decreases entries.len(),
{
    if entries.len() > 0 {
        law_directories_add_their_files(measure, directory, entries.drop_last());
    }
}

/// Measuring never leaves the tree: whatever is queued lies below its root.
pub proof fn law_measuring_stays_inside(
    measure: TreeMeasureView,
    root: Seq<PartView>,
    directory: Seq<PartView>,
    entry: MeasuredEntryView,
)
    requires
        path::begins_with(directory, root),
        forall|i: int|
            0 <= i < measure.pending.len() ==> path::begins_with(
                #[trigger] measure.pending[i],
                root,
            ),
    ensures
        forall|i: int|
            0 <= i < measure.with(directory, entry).pending.len() ==> path::begins_with(
                #[trigger] measure.with(directory, entry).pending[i],
                root,
            ),
{
    let after = measure.with(directory, entry);
    assert forall|i: int| 0 <= i < after.pending.len() implies path::begins_with(
        #[trigger] after.pending[i],
        root,
    ) by {
        if i < measure.pending.len() {
            assert(after.pending[i] == measure.pending[i]);
        } else {
            if let MeasuredEntryView::Directory { name } = entry {
                crate::disk::lemma_child_beneath(directory, name, root);
            }
        }
    }
}

/// Why an entry could not be removed, as far as it matters here.
#[derive(Clone, Copy, Debug, PartialEq, Eq, Structural)]
pub enum FailureKind {
    NotFound,
    DirectoryNotEmpty,
    Other,
}

/// A removal that failed.
#[derive(Debug, PartialEq, Eq)]
pub struct RemovalFailure {
    pub kind: FailureKind,
    pub message: String,
}

/// What a removal that is tried again once waits for.
#[derive(Debug, PartialEq, Eq)]
pub enum Retry {
    /// The first attempt.
    First,
    /// Whether the read-only attribute has been cleared, after a failure.
    Clearing(RemovalFailure),
    /// The second attempt.
    Second,
}

/// What comes of waiting.
#[derive(Debug, PartialEq, Eq)]
pub enum RetryReply {
    Attempted(Result<(), RemovalFailure>),
    Cleared(bool),
}

/// How a removal goes on.
#[derive(Debug, PartialEq, Eq)]
pub enum RetryStep {
    Waits(Retry),
    Settled(Result<(), RemovalFailure>),
}

/// Whether an answer is one to what a removal waits for.
pub open spec fn retry_awaits(retry: Retry, reply: RetryReply) -> bool {
    reply is Cleared <==> retry is Clearing
}

/// How a removal goes on. What is gone already counts as removed. Some
/// systems refuse to remove read-only entries, so after any other failure the
/// attribute is cleared, and if that changed something the removal is tried
/// once more; the second attempt settles it.
pub open spec fn retried(retry: Retry, reply: RetryReply) -> RetryStep {
    match (retry, reply) {
        (Retry::First, RetryReply::Attempted(Ok(()))) => RetryStep::Settled(Ok(())),
        (Retry::First, RetryReply::Attempted(Err(failure))) => if failure.kind
            == FailureKind::NotFound {
            RetryStep::Settled(Ok(()))
        } else {
            RetryStep::Waits(Retry::Clearing(failure))
        },
        (Retry::Clearing(failure), RetryReply::Cleared(cleared)) => if cleared {
            RetryStep::Waits(Retry::Second)
        } else {
            RetryStep::Settled(Err(failure))
        },
        (Retry::Second, RetryReply::Attempted(result)) => RetryStep::Settled(result),
        (retry, _) => RetryStep::Waits(retry),
    }
}

/// Decides how a removal goes on.
pub fn remove_with_readonly_retry(retry: Retry, reply: RetryReply) -> (step: RetryStep)
    requires
        retry_awaits(retry, reply),
    ensures
        step == retried(retry, reply),
{
    match retry {
        Retry::First => match reply {
            RetryReply::Attempted(Ok(())) => RetryStep::Settled(Ok(())),
            RetryReply::Attempted(Err(failure)) => if failure.kind == FailureKind::NotFound {
                RetryStep::Settled(Ok(()))
            } else {
                RetryStep::Waits(Retry::Clearing(failure))
            },
            RetryReply::Cleared(_) => RetryStep::Waits(Retry::First),
        },
        Retry::Clearing(failure) => match reply {
            RetryReply::Cleared(true) => RetryStep::Waits(Retry::Second),
            RetryReply::Cleared(false) => RetryStep::Settled(Err(failure)),
            RetryReply::Attempted(_) => RetryStep::Waits(Retry::Clearing(failure)),
        },
        Retry::Second => match reply {
            RetryReply::Attempted(result) => RetryStep::Settled(result),
            RetryReply::Cleared(_) => RetryStep::Waits(Retry::Second),
        },
    }
}

/// Whether the read-only attribute is worth clearing: what is known of it, if
/// it could be read, is that it is set.
pub fn clear_readonly(readonly: Option<bool>) -> (worthwhile: bool)
    ensures
        worthwhile == (readonly == Some(true)),
{
    match readonly {
        Some(set) => set,
        None => false,
    }
}

/// How a link is removed.
#[derive(Clone, Copy, Debug, PartialEq, Eq, Structural)]
pub enum Unlink {
    AsFile,
    AsDirectory,
}

/// How a link is removed: as the file it is, but on Windows as a directory if
/// it leads to one.
pub fn remove_symlink(platform: Platform, to_directory: bool) -> (unlink: Unlink)
    ensures
        unlink == (if platform == Platform::Windows && to_directory {
            Unlink::AsDirectory
        } else {
            Unlink::AsFile
        }),
{
    if platform == Platform::Windows && to_directory {
        Unlink::AsDirectory
    } else {
        Unlink::AsFile
    }
}

/// What is still to be done.
#[derive(Debug, PartialEq, Eq)]
enum Step {
    Enter(TreePath),
    RemoveDirectory(TreePath),
}

/// What is still to be done, as a value.
pub enum StepView {
    /// Delete what is in a directory.
    Enter(Seq<PartView>),
    /// Delete the directory itself.
    RemoveDirectory(Seq<PartView>),
}

impl StepView {
    /// The directory it is about.
    pub open spec fn directory(self) -> Seq<PartView> {
        match self {
            StepView::Enter(directory) => directory,
            StepView::RemoveDirectory(directory) => directory,
        }
    }
}

impl Step {
    spec fn view(&self) -> StepView {
        match self {
            Step::Enter(directory) => StepView::Enter(directory@),
            Step::RemoveDirectory(directory) => StepView::RemoveDirectory(directory@),
        }
    }
}

/// What a removal asks of the file system.
#[derive(Debug, PartialEq, Eq)]
pub enum RemovalRequest {
    /// Whether there is anything at a path.
    Exists(TreePath),
    /// Open a directory for listing.
    Open(TreePath),
    /// The next entry of the directory opened last.
    NextEntry,
    /// Remove a link.
    RemoveLink(TreePath),
    /// Remove a file.
    RemoveFile(TreePath),
    /// Remove an empty directory.
    RemoveDirectory(TreePath),
    /// Nothing: the removal is over.
    Finished,
}

/// What the file system answers.
#[derive(Debug, PartialEq, Eq)]
pub enum RemovalReply {
    Found(bool),
    Opened,
    OpenFailed(String),
    /// An entry; for what is neither a link nor a directory, its size, where
    /// that could be read.
    Entry { name: Vec<u8>, kind: EntryKind, size: Option<u64> },
    /// An entry whose kind could not be read.
    EntryUnknown { name: Vec<u8>, error: String },
    EntryFailed(String),
    NoMoreEntries,
    Removed,
    RemoveFailed(RemovalFailure),
}

/// A request as a value.
pub enum RemovalRequestView {
    Exists(Seq<PartView>),
    Open(Seq<PartView>),
    NextEntry,
    RemoveLink(Seq<PartView>),
    RemoveFile(Seq<PartView>),
    RemoveDirectory(Seq<PartView>),
    Finished,
}

/// An answer as a value.
pub enum RemovalReplyView {
    Found(bool),
    Opened,
    OpenFailed(Seq<char>),
    Entry { name: Seq<u8>, kind: EntryKind, size: Option<u64> },
    EntryUnknown { name: Seq<u8>, error: Seq<char> },
    EntryFailed(Seq<char>),
    NoMoreEntries,
    Removed,
    RemoveFailed { cause: FailureKind, message: Seq<char> },
}

impl View for RemovalRequest {
    type V = RemovalRequestView;

    open spec fn view(&self) -> RemovalRequestView {
        match self {
            RemovalRequest::Exists(path) => RemovalRequestView::Exists(path@),
            RemovalRequest::Open(path) => RemovalRequestView::Open(path@),
            RemovalRequest::NextEntry => RemovalRequestView::NextEntry,
            RemovalRequest::RemoveLink(path) => RemovalRequestView::RemoveLink(path@),
            RemovalRequest::RemoveFile(path) => RemovalRequestView::RemoveFile(path@),
            RemovalRequest::RemoveDirectory(path) => RemovalRequestView::RemoveDirectory(path@),
            RemovalRequest::Finished => RemovalRequestView::Finished,
        }
    }
}

impl View for RemovalReply {
    type V = RemovalReplyView;

    open spec fn view(&self) -> RemovalReplyView {
        match self {
            RemovalReply::Found(found) => RemovalReplyView::Found(*found),
            RemovalReply::Opened => RemovalReplyView::Opened,
            RemovalReply::OpenFailed(error) => RemovalReplyView::OpenFailed(error@),
            RemovalReply::Entry { name, kind, size } => RemovalReplyView::Entry {
                name: name@,
                kind: *kind,
                size: *size,
            },
            RemovalReply::EntryUnknown { name, error } => RemovalReplyView::EntryUnknown {
                name: name@,
                error: error@,
            },
            RemovalReply::EntryFailed(error) => RemovalReplyView::EntryFailed(error@),
            RemovalReply::NoMoreEntries => RemovalReplyView::NoMoreEntries,
            RemovalReply::Removed => RemovalReplyView::Removed,
            RemovalReply::RemoveFailed(failure) => RemovalReplyView::RemoveFailed {
                cause: failure.kind,
                message: failure.message@,
            },
        }
    }
}

/// What a removal waits for.
#[derive(Debug)]
enum RemovalPhase {
    Looking { root: TreePath },
    Opening { directory: TreePath },
    Listing { directory: TreePath },
    Unlinking { directory: TreePath, path: TreePath },
    Deleting { directory: TreePath, path: TreePath, size: u64 },
    RemovingDirectory { directory: TreePath },
    Finished,
}

/// What a removal waits for, as a value.
pub enum RemovalPhaseView {
    /// Whether there is anything to delete.
    Looking { root: Seq<PartView> },
    /// Whether a directory can be opened.
    Opening { directory: Seq<PartView> },
    /// The next entry of a directory.
    Listing { directory: Seq<PartView> },
    /// The end of a link of a directory.
    Unlinking { directory: Seq<PartView>, path: Seq<PartView> },
    /// The end of a file of a directory.
    Deleting { directory: Seq<PartView>, path: Seq<PartView>, size: u64 },
    /// The end of a directory.
    RemovingDirectory { directory: Seq<PartView> },
    Finished,
}

impl RemovalPhase {
    spec fn view(&self) -> RemovalPhaseView {
        match self {
            RemovalPhase::Looking { root } => RemovalPhaseView::Looking { root: root@ },
            RemovalPhase::Opening { directory } => RemovalPhaseView::Opening {
                directory: directory@,
            },
            RemovalPhase::Listing { directory } => RemovalPhaseView::Listing {
                directory: directory@,
            },
            RemovalPhase::Unlinking { directory, path } => RemovalPhaseView::Unlinking {
                directory: directory@,
                path: path@,
            },
            RemovalPhase::Deleting { directory, path, size } => RemovalPhaseView::Deleting {
                directory: directory@,
                path: path@,
                size: *size,
            },
            RemovalPhase::RemovingDirectory { directory } => RemovalPhaseView::RemovingDirectory {
                directory: directory@,
            },
            RemovalPhase::Finished => RemovalPhaseView::Finished,
        }
    }
}

/// A removal under way: depth-first, the entries of a directory before the
/// directory.
#[derive(Debug)]
pub struct Removal {
    platform: Platform,
    stack: Vec<Step>,
    bytes_removed: u64,
    files_removed: u64,
    failures: Failures,
    cancelled: bool,
    phase: RemovalPhase,
}

/// A removal under way, as a value.
#[verifier::ext_equal]
pub struct RemovalView {
    pub platform: Platform,
    /// What is still to be done, the next step last.
    pub stack: Seq<StepView>,
    pub bytes_removed: nat,
    pub files_removed: nat,
    pub failures: FailuresView,
    pub cancelled: bool,
    pub phase: RemovalPhaseView,
}

impl View for Removal {
    type V = RemovalView;

    closed spec fn view(&self) -> RemovalView {
        RemovalView {
            platform: self.platform,
            stack: self.stack@.map_values(|step: Step| step.view()),
            bytes_removed: self.bytes_removed as nat,
            files_removed: self.files_removed as nat,
            failures: self.failures@,
            cancelled: self.cancelled,
            phase: self.phase.view(),
        }
    }
}

impl RemovalView {
    pub open spec fn with_failure(self, message: Seq<char>) -> RemovalView {
        RemovalView { failures: self.failures.with(message), ..self }
    }

    /// With one more entry gone.
    pub open spec fn with_removed(self, size: nat) -> RemovalView {
        RemovalView {
            bytes_removed: self.bytes_removed + size,
            files_removed: self.files_removed + 1,
            ..self
        }
    }

    pub open spec fn with_step(self, step: StepView) -> RemovalView {
        RemovalView { stack: self.stack.push(step), ..self }
    }

    pub open spec fn waiting(self, phase: RemovalPhaseView) -> RemovalView {
        RemovalView { phase, ..self }
    }

    /// On with a directory.
    pub open spec fn listing(self, directory: Seq<PartView>) -> RemovalView {
        self.waiting(RemovalPhaseView::Listing { directory })
    }

    /// Given up before its end.
    pub open spec fn abandoned(self) -> RemovalView {
        RemovalView { cancelled: true, phase: RemovalPhaseView::Finished, ..self }
    }

    /// On to the next step. A directory is queued before its children, so
    /// that it comes after them.
    pub open spec fn next_step(self, cancel: bool) -> RemovalView {
        if self.stack.len() == 0 {
            self.waiting(RemovalPhaseView::Finished)
        } else {
            let rest = RemovalView { stack: self.stack.drop_last(), ..self };
            if cancel {
                rest.abandoned()
            } else {
                match self.stack.last() {
                    StepView::Enter(directory) => rest.with_step(
                        StepView::RemoveDirectory(directory),
                    ).waiting(RemovalPhaseView::Opening { directory }),
                    StepView::RemoveDirectory(directory) => rest.waiting(
                        RemovalPhaseView::RemovingDirectory { directory },
                    ),
                }
            }
        }
    }

    /// How a path is shown.
    pub open spec fn shown(self, path: Seq<PartView>) -> Seq<char> {
        crate::format::display_text(path, self.platform)
    }

    /// What the removal asks for.
    pub open spec fn request(self) -> RemovalRequestView {
        match self.phase {
            RemovalPhaseView::Looking { root } => RemovalRequestView::Exists(root),
            RemovalPhaseView::Opening { directory } => RemovalRequestView::Open(directory),
            RemovalPhaseView::Listing { directory } => RemovalRequestView::NextEntry,
            RemovalPhaseView::Unlinking { directory, path } => RemovalRequestView::RemoveLink(path),
            RemovalPhaseView::Deleting { directory, path, size } => RemovalRequestView::RemoveFile(
                path,
            ),
            RemovalPhaseView::RemovingDirectory { directory } => {
                RemovalRequestView::RemoveDirectory(directory)
            },
            RemovalPhaseView::Finished => RemovalRequestView::Finished,
        }
    }

    /// Whether an answer is one to what the removal asks for.
    pub open spec fn awaits(self, reply: RemovalReplyView) -> bool {
        match reply {
            RemovalReplyView::Found(_) => self.phase is Looking,
            RemovalReplyView::Opened | RemovalReplyView::OpenFailed(_) => self.phase is Opening,
            RemovalReplyView::Entry { .. }
            | RemovalReplyView::EntryUnknown { .. }
            | RemovalReplyView::EntryFailed(_)
            | RemovalReplyView::NoMoreEntries => self.phase is Listing,
            RemovalReplyView::Removed | RemovalReplyView::RemoveFailed { .. } => {
                self.phase is Unlinking || self.phase is Deleting || self.phase
                    is RemovingDirectory
            },
        }
    }

    /// Whether the counters can take one more entry.
    pub open spec fn has_room(self) -> bool {
        &&& self.files_removed < u64::MAX
        &&& self.failures.count < u64::MAX
        &&& match self.phase {
            RemovalPhaseView::Deleting { directory, path, size } => self.bytes_removed + size
                <= u64::MAX,
            _ => true,
        }
    }

    /// The removal after an entry of the directory that is being listed.
    pub open spec fn listed(
        self,
        directory: Seq<PartView>,
        name: Seq<u8>,
        kind: EntryKind,
        size: Option<u64>,
    ) -> RemovalView {
        let path = path::child(directory, name);
        match kind {
            EntryKind::Symlink => self.waiting(RemovalPhaseView::Unlinking { directory, path }),
            EntryKind::Directory => self.with_step(StepView::Enter(path)),
            EntryKind::Other => self.waiting(
                RemovalPhaseView::Deleting {
                    directory,
                    path,
                    size: match size {
                        Some(bytes) => bytes,
                        None => 0,
                    },
                },
            ),
        }
    }

    /// The removal after an answer to a question about a directory that is
    /// being listed.
    pub open spec fn after_listing(
        self,
        directory: Seq<PartView>,
        reply: RemovalReplyView,
        cancel: bool,
    ) -> RemovalView {
        match reply {
            RemovalReplyView::NoMoreEntries => self.next_step(cancel),
            RemovalReplyView::Entry { name, kind, size } => if cancel {
                self.abandoned()
            } else {
                self.listed(directory, name, kind, size)
            },
            RemovalReplyView::EntryUnknown { name, error } => if cancel {
                self.abandoned()
            } else {
                self.with_failure(
                    "cannot inspect "@ + self.shown(path::child(directory, name)) + ": "@ + error,
                )
            },
            RemovalReplyView::EntryFailed(error) => if cancel {
                self.abandoned()
            } else {
                self.with_failure(
                    "cannot read an entry in "@ + self.shown(directory) + ": "@ + error,
                )
            },
            _ => self,
        }
    }

    /// The removal after an answer, where `cancel` tells whether to give up.
    pub open spec fn after(self, reply: RemovalReplyView, cancel: bool) -> RemovalView {
        match (self.phase, reply) {
            (RemovalPhaseView::Looking { root }, RemovalReplyView::Found(found)) => if found {
                self.with_step(StepView::Enter(root)).next_step(cancel)
            } else {
                self.waiting(RemovalPhaseView::Finished)
            },
            (RemovalPhaseView::Opening { directory }, RemovalReplyView::Opened) => self.listing(
                directory,
            ),
            (
                RemovalPhaseView::Opening { directory },
                RemovalReplyView::OpenFailed(error),
            ) => self.with_failure(
                "cannot read "@ + self.shown(directory) + ": "@ + error,
            ).next_step(cancel),
            (RemovalPhaseView::Listing { directory }, reply) => self.after_listing(
                directory,
                reply,
                cancel,
            ),
            (
                RemovalPhaseView::Unlinking { directory, path },
                RemovalReplyView::Removed,
            ) => self.with_removed(0).listing(directory),
            (
                RemovalPhaseView::Unlinking { directory, path },
                RemovalReplyView::RemoveFailed { cause, message },
            ) => self.with_failure(
                "cannot remove link "@ + self.shown(path) + ": "@ + message,
            ).listing(directory),
            (
                RemovalPhaseView::Deleting { directory, path, size },
                RemovalReplyView::Removed,
            ) => self.with_removed(size as nat).listing(directory),
            (
                RemovalPhaseView::Deleting { directory, path, size },
                RemovalReplyView::RemoveFailed { cause, message },
            ) => self.with_failure(
                "cannot remove "@ + self.shown(path) + ": "@ + message,
            ).listing(directory),
            (
                RemovalPhaseView::RemovingDirectory { directory },
                RemovalReplyView::Removed,
            ) => self.next_step(cancel),
            (
                RemovalPhaseView::RemovingDirectory { directory },
                RemovalReplyView::RemoveFailed { cause, message },
            ) => if cause == FailureKind::DirectoryNotEmpty {
                // A child failed and was reported already.
                self.next_step(cancel)
            } else {
                self.with_failure(
                    "cannot remove directory "@ + self.shown(directory) + ": "@ + message,
                ).next_step(cancel)
            },
            _ => self,
        }
    }

    /// What an answer does to the counters of the action.
    pub open spec fn progressed(
        self,
        reply: RemovalReplyView,
        progress: ProgressView,
    ) -> ProgressView {
        match (self.phase, reply) {
            (
                RemovalPhaseView::Unlinking { directory, path },
                RemovalReplyView::Removed,
            ) => action::with_removed(progress, 0),
            (
                RemovalPhaseView::Deleting { directory, path, size },
                RemovalReplyView::Removed,
            ) => action::with_removed(progress, size),
            _ => progress,
        }
    }
}

/// A removal that begins.
pub open spec fn removal_begun(root: Seq<PartView>, platform: Platform) -> RemovalView {
    RemovalView {
        platform,
        stack: Seq::empty(),
        bytes_removed: 0,
        files_removed: 0,
        failures: FailuresView { sample: Seq::empty(), count: 0 },
        cancelled: false,
        phase: RemovalPhaseView::Looking { root },
    }
}

impl Removal {
    /// Begins to delete what is at a path.
    pub fn new(root: &TreePath, platform: Platform) -> (removal: Removal)
        ensures
            removal@ == removal_begun(root@, platform),
    {
        let removal = Removal {
            platform,
            stack: Vec::new(),
            bytes_removed: 0,
            files_removed: 0,
            failures: Failures::new(),
            cancelled: false,
            phase: RemovalPhase::Looking { root: root.copy() },
        };
        assert(removal@ =~= removal_begun(root@, platform));
        removal
    }

    /// What the removal asks for.
    pub fn request(&self) -> (request: RemovalRequest)
        ensures
            request@ == self@.request(),
    {
        match &self.phase {
            RemovalPhase::Looking { root } => RemovalRequest::Exists(root.copy()),
            RemovalPhase::Opening { directory } => RemovalRequest::Open(directory.copy()),
            RemovalPhase::Listing { directory } => RemovalRequest::NextEntry,
            RemovalPhase::Unlinking { directory, path } => RemovalRequest::RemoveLink(path.copy()),
            RemovalPhase::Deleting { directory, path, size } => {
                RemovalRequest::RemoveFile(path.copy())
            },
            RemovalPhase::RemovingDirectory { directory } => {
                RemovalRequest::RemoveDirectory(directory.copy())
            },
            RemovalPhase::Finished => RemovalRequest::Finished,
        }
    }

    /// Whether the counters can take one more entry.
    pub fn has_room(&self) -> (room: bool)
        ensures
            room == self@.has_room(),
    {
        let fits = match &self.phase {
            RemovalPhase::Deleting { directory, path, size } => {
                *size <= u64::MAX - self.bytes_removed
            },
            _ => true,
        };
        self.files_removed < u64::MAX && self.failures.has_room() && fits
    }

    fn fail(&mut self, what: &str, path: &TreePath, error: &str)
        requires
            old(self)@.failures.count < u64::MAX,
        ensures
            final(self)@ == old(self)@.with_failure(
                what@ + old(self)@.shown(path@) + ": "@ + error@,
            ),
    {
        let mut line = what.to_owned();
        line.append(display_path(path, self.platform).as_str());
        line.append(": ");
        line.append(error);
        let ghost expected = what@ + self@.shown(path@) + ": "@ + error@;
        assert(line@ =~= expected);
        self.failures.push(line);
        assert(self@ =~= old(self)@.with_failure(expected));
    }

    fn count(&mut self, size: u64)
        requires
            old(self)@.bytes_removed + size <= u64::MAX,
            old(self)@.files_removed < u64::MAX,
        ensures
            final(self)@ == old(self)@.with_removed(size as nat),
    {
        self.bytes_removed = self.bytes_removed + size;
        self.files_removed = self.files_removed + 1;
        assert(self@ =~= old(self)@.with_removed(size as nat));
    }

    fn queue(&mut self, step: Step)
        ensures
            final(self)@ == old(self)@.with_step(step.view()),
    {
        self.stack.push(step);
        assert(self@ =~= old(self)@.with_step(step.view()));
    }

    fn wait(&mut self, phase: RemovalPhase)
        ensures
            final(self)@ == old(self)@.waiting(phase.view()),
    {
        self.phase = phase;
    }

    fn abandon(&mut self)
        ensures
            final(self)@ == old(self)@.abandoned(),
    {
        self.cancelled = true;
        self.phase = RemovalPhase::Finished;
    }

    fn advance(&mut self, cancel: bool)
        ensures
            final(self)@ == old(self)@.next_step(cancel),
    {
        let step = self.stack.pop();
        match step {
            None => self.wait(RemovalPhase::Finished),
            Some(step) => {
                assert(self@ =~= RemovalView {
                    stack: old(self)@.stack.drop_last(),
                    ..old(self)@
                });
                if cancel {
                    self.abandon();
                } else {
                    match step {
                        Step::Enter(directory) => {
                            self.queue(Step::RemoveDirectory(directory.copy()));
                            self.wait(RemovalPhase::Opening { directory });
                        },
                        Step::RemoveDirectory(directory) => {
                            self.wait(RemovalPhase::RemovingDirectory { directory });
                        },
                    }
                }
            },
        }
        assert(self@ =~= old(self)@.next_step(cancel));
    }

    fn list(
        &mut self,
        directory: TreePath,
        name: Vec<u8>,
        kind: EntryKind,
        size: Option<u64>,
    )
        requires
            old(self)@.phase == (RemovalPhaseView::Listing { directory: directory@ }),
        ensures
            final(self)@ == old(self)@.listed(directory@, name@, kind, size),
    {
        let path = directory.join_bytes(name);
        match kind {
            EntryKind::Symlink => self.wait(RemovalPhase::Unlinking { directory, path }),
            EntryKind::Directory => self.queue(Step::Enter(path)),
            EntryKind::Other => {
                let size: u64 = match size {
                    Some(bytes) => bytes,
                    None => 0,
                };
                self.wait(RemovalPhase::Deleting { directory, path, size });
            },
        }
    }

    fn take_entry(&mut self, directory: TreePath, reply: RemovalReply, cancel: bool)
        requires
            old(self)@.phase == (RemovalPhaseView::Listing { directory: directory@ }),
            old(self)@.failures.count < u64::MAX,
        ensures
            final(self)@ == old(self)@.after_listing(directory@, reply@, cancel),
    {
        match reply {
            RemovalReply::NoMoreEntries => self.advance(cancel),
            RemovalReply::Entry { name, kind, size } => {
                if cancel {
                    self.abandon();
                } else {
                    self.list(directory, name, kind, size);
                }
            },
            RemovalReply::EntryUnknown { name, error } => {
                if cancel {
                    self.abandon();
                } else {
                    let path = directory.join_bytes(name);
                    self.fail("cannot inspect ", &path, error.as_str());
                }
            },
            RemovalReply::EntryFailed(error) => {
                if cancel {
                    self.abandon();
                } else {
                    self.fail("cannot read an entry in ", &directory, error.as_str());
                }
            },
            _ => {},
        }
    }

    /// Takes the answer to what the removal asks for. `cancel` tells whether
    /// to give up.
    pub fn remove_tree(&mut self, reply: RemovalReply, progress: &mut Progress, cancel: bool)
        requires
            old(self)@.awaits(reply@),
            old(self)@.has_room(),
        ensures
            final(self)@ == old(self)@.after(reply@, cancel),
            final(progress)@ == old(self)@.progressed(reply@, old(progress)@),
    {
        let mut phase = RemovalPhase::Finished;
        std::mem::swap(&mut phase, &mut self.phase);
        match phase {
            RemovalPhase::Looking { root } => match reply {
                RemovalReply::Found(true) => {
                    self.queue(Step::Enter(root));
                    self.advance(cancel);
                },
                _ => {},
            },
            RemovalPhase::Opening { directory } => match reply {
                RemovalReply::OpenFailed(error) => {
                    self.fail("cannot read ", &directory, error.as_str());
                    self.advance(cancel);
                },
                _ => self.wait(RemovalPhase::Listing { directory }),
            },
            RemovalPhase::Listing { directory } => {
                self.wait(RemovalPhase::Listing { directory: directory.copy() });
                self.take_entry(directory, reply, cancel);
            },
            RemovalPhase::Unlinking { directory, path } => {
                match reply {
                    RemovalReply::RemoveFailed(failure) => {
                        self.fail("cannot remove link ", &path, failure.message.as_str());
                    },
                    _ => {
                        self.count(0);
                        progress.record_removed(0);
                    },
                }
                self.wait(RemovalPhase::Listing { directory });
            },
            RemovalPhase::Deleting { directory, path, size } => {
                match reply {
                    RemovalReply::RemoveFailed(failure) => {
                        self.fail("cannot remove ", &path, failure.message.as_str());
                    },
                    _ => {
                        self.count(size);
                        progress.record_removed(size);
                    },
                }
                self.wait(RemovalPhase::Listing { directory });
            },
            RemovalPhase::RemovingDirectory { directory } => {
                match reply {
                    RemovalReply::RemoveFailed(failure) => {
                        if failure.kind != FailureKind::DirectoryNotEmpty {
                            self.fail(
                                "cannot remove directory ",
                                &directory,
                                failure.message.as_str(),
                            );
                        }
                    },
                    _ => {},
                }
                self.advance(cancel);
            },
            RemovalPhase::Finished => {},
        }
        assert(self@ =~= old(self)@.after(reply@, cancel));
    }

    /// What the removal came to.
    pub fn outcome(self) -> (outcome: RemovalOutcome)
        ensures
            outcome@.bytes_removed == self@.bytes_removed,
            outcome@.files_removed == self@.files_removed,
            outcome@.errors == self@.failures.sample,
            outcome@.error_count == self@.failures.count,
            outcome@.cancelled == self@.cancelled,
    {
        RemovalOutcome {
            bytes_removed: self.bytes_removed,
            files_removed: self.files_removed,
            errors: self.failures.sample,
            error_count: self.failures.count,
            cancelled: self.cancelled,
        }
    }
}

} // verus!
