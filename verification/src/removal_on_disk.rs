//! What deleting a directory tree comes to.

use crate::discover::EntryKind;
use crate::disk;
use crate::disk::DiskNode;
use crate::path::{PartView, Platform};
use crate::remove;
use crate::remove::{
    FailureKind, FailuresView, MeasuredEntryView, RemovalPhaseView, RemovalReplyView,
    RemovalRequestView, RemovalView, StepView, TreeMeasureView,
};
use vstd::prelude::*;

verus! {

/// A removal, and what it has removed so far.
pub struct Course {
    pub state: RemovalView,
    pub removed: Seq<Seq<PartView>>,
}

/// What a request asks to be removed.
pub open spec fn condemned(request: RemovalRequestView) -> Option<Seq<PartView>> {
    match request {
        RemovalRequestView::RemoveLink(path) => Some(path),
        RemovalRequestView::RemoveFile(path) => Some(path),
        RemovalRequestView::RemoveDirectory(path) => Some(path),
        _ => None,
    }
}

impl Course {
    /// How it goes on after an answer.
    pub open spec fn after(self, reply: RemovalReplyView) -> Course {
        Course {
            state: self.state.after(reply, false),
            removed: match condemned(self.state.request()) {
                Some(path) => if reply is Removed {
                    self.removed.push(path)
                } else {
                    self.removed
                },
                None => self.removed,
            },
        }
    }

    /// How it goes on after a number of answers.
    pub open spec fn answered(self, replies: Seq<RemovalReplyView>) -> Course
        decreases replies.len(),
    {
        if replies.len() == 0 {
            self
        } else {
            self.answered(replies.drop_last()).after(replies.last())
        }
    }

    /// Whether each answer is one to what the removal asks for at its time.
    pub open spec fn apt(self, replies: Seq<RemovalReplyView>) -> bool
        decreases replies.len(),
    {
        if replies.len() == 0 {
            true
        } else {
            &&& self.apt(replies.drop_last())
            &&& self.answered(replies.drop_last()).state.awaits(replies.last())
        }
    }
}

proof fn lemma_answered_in_turn(
    course: Course,
    first: Seq<RemovalReplyView>,
    second: Seq<RemovalReplyView>,
)
    ensures
        course.answered(first + second) == course.answered(first).answered(second),
        course.apt(first + second) == (course.apt(first) && course.answered(first).apt(second)),
    decreases second.len(),
{
    if second.len() == 0 {
        assert(first + second =~= first);
    } else {
        lemma_answered_in_turn(course, first, second.drop_last());
        assert((first + second).drop_last() =~= first + second.drop_last());
        assert((first + second).last() == second.last());
    }
}

proof fn lemma_answered_once(course: Course, reply: RemovalReplyView)
    ensures
        course.answered(seq![reply]) == course.after(reply),
        course.apt(seq![reply]) == course.state.awaits(reply),
{
    let replies = seq![reply];
    assert(replies.drop_last() =~= Seq::<RemovalReplyView>::empty());
    assert(replies.last() == reply);
    assert(course.answered(replies.drop_last()) == course);
    assert(course.apt(replies.drop_last()));
}

/// A file system on which some things fail, and what it says of them.
pub struct Disk {
    /// What cannot be removed.
    pub stuck: Set<Seq<PartView>>,
    /// The directories that cannot be opened.
    pub closed: Set<Seq<PartView>>,
    /// The entries that cannot be read from their directories.
    pub unread: Set<Seq<PartView>>,
    /// The entries that cannot be inspected.
    pub blurred: Set<Seq<PartView>>,
    pub denial: Seq<char>,
}

impl Disk {
    /// Whether it stays unknown what an entry is.
    pub open spec fn hides(self, place: Seq<PartView>) -> bool {
        self.unread.contains(place) || self.blurred.contains(place)
    }
}

/// What a removal takes with it.
pub struct Toll {
    pub removed: Seq<Seq<PartView>>,
    pub bytes: nat,
    pub files: nat,
    pub failures: Seq<Seq<char>>,
}

impl Toll {
    pub open spec fn none() -> Toll {
        Toll { removed: Seq::empty(), bytes: 0, files: 0, failures: Seq::empty() }
    }

    /// One after the other.
    pub open spec fn and(self, other: Toll) -> Toll {
        Toll {
            removed: self.removed + other.removed,
            bytes: self.bytes + other.bytes,
            files: self.files + other.files,
            failures: self.failures + other.failures,
        }
    }
}

impl FailuresView {
    /// With a number of failures more.
    pub open spec fn with_all(self, messages: Seq<Seq<char>>) -> FailuresView
        decreases messages.len(),
    {
        if messages.len() == 0 {
            self
        } else {
            self.with_all(messages.drop_last()).with(messages.last())
        }
    }
}

proof fn lemma_with_all_in_turn(
    failures: FailuresView,
    first: Seq<Seq<char>>,
    second: Seq<Seq<char>>,
)
    ensures
        failures.with_all(first + second) == failures.with_all(first).with_all(second),
    decreases second.len(),
{
    if second.len() == 0 {
        assert(first + second =~= first);
    } else {
        lemma_with_all_in_turn(failures, first, second.drop_last());
        assert((first + second).drop_last() =~= first + second.drop_last());
        assert((first + second).last() == second.last());
    }
}

proof fn lemma_with_all_are_sampled(messages: Seq<Seq<char>>)
    ensures
        (FailuresView { sample: Seq::empty(), count: 0 }).with_all(messages).of(messages),
    decreases messages.len(),
{
    let none = FailuresView { sample: Seq::empty(), count: 0 };
    if messages.len() == 0 {
        assert(messages =~= Seq::<Seq<char>>::empty());
    } else {
        let earlier = messages.drop_last();
        lemma_with_all_are_sampled(earlier);
        remove::law_failures_are_sampled(none.with_all(earlier), earlier, messages.last());
        assert(earlier.push(messages.last()) =~= messages);
    }
}

impl Course {
    /// With a toll taken.
    pub open spec fn with(self, toll: Toll) -> Course {
        Course {
            state: RemovalView {
                bytes_removed: self.state.bytes_removed + toll.bytes,
                files_removed: self.state.files_removed + toll.files,
                failures: self.state.failures.with_all(toll.failures),
                ..self.state
            },
            removed: self.removed + toll.removed,
        }
    }

    /// On to the next step.
    pub open spec fn next(self) -> Course {
        Course { state: self.state.next_step(false), ..self }
    }

    /// With other things to do.
    pub open spec fn to_do(self, stack: Seq<StepView>) -> Course {
        Course { state: RemovalView { stack, ..self.state }, ..self }
    }

    /// Waiting for something else.
    pub open spec fn waiting(self, phase: RemovalPhaseView) -> Course {
        Course { state: self.state.waiting(phase), ..self }
    }
}

proof fn lemma_tolls_in_turn(course: Course, first: Toll, second: Toll)
    ensures
        course.with(first).with(second) == course.with(first.and(second)),
{
    lemma_with_all_in_turn(course.state.failures, first.failures, second.failures);
    assert(course.with(first).with(second).removed =~= course.with(first.and(second)).removed);
}

proof fn lemma_no_toll(course: Course)
    ensures
        course.with(Toll::none()) == course,
{
    assert(course.removed + Toll::none().removed =~= course.removed);
}

/// Whether all entries of a directory can go, with all that is below them.
pub open spec fn all_go(nodes: Seq<DiskNode>, directory: Seq<PartView>, disk: Disk) -> bool
    decreases nodes,
{
    if nodes.len() == 0 {
        true
    } else {
        let place = nodes.last().place(directory);
        &&& all_go(nodes.drop_last(), directory, disk)
        &&& !disk.stuck.contains(place)
        &&& !disk.hides(place)
        &&& match nodes.last() {
            DiskNode::Directory { name, children } => if disk.closed.contains(place) {
                children.len() == 0
            } else {
                all_go(children, place, disk)
            },
            _ => true,
        }
    }
}

/// Whether a directory is empty once its entries have been dealt with. Those
/// of one that cannot be opened stay.
pub open spec fn emptied(children: Seq<DiskNode>, place: Seq<PartView>, disk: Disk) -> bool {
    if disk.closed.contains(place) {
        children.len() == 0
    } else {
        all_go(children, place, disk)
    }
}

/// Whether a directory has to be dealt with.
pub open spec fn is_entered(node: DiskNode, directory: Seq<PartView>, disk: Disk) -> bool {
    node is Directory && !disk.hides(node.place(directory))
}

/// What the file system answers to the removal of an entry by itself.
pub open spec fn verdict_on(place: Seq<PartView>, disk: Disk) -> RemovalReplyView {
    if disk.stuck.contains(place) {
        RemovalReplyView::RemoveFailed { cause: FailureKind::Other, message: disk.denial }
    } else {
        RemovalReplyView::Removed
    }
}

/// What the file system answers to the removal of a directory once its
/// entries have been dealt with.
pub open spec fn verdict_on_directory(
    children: Seq<DiskNode>,
    place: Seq<PartView>,
    disk: Disk,
) -> RemovalReplyView {
    if emptied(children, place, disk) {
        verdict_on(place, disk)
    } else {
        RemovalReplyView::RemoveFailed {
            cause: FailureKind::DirectoryNotEmpty,
            message: disk.denial,
        }
    }
}

/// What the file system answers while a directory is listed: each entry, and
/// for all but directories whether it can go.
pub open spec fn answers_listing(
    nodes: Seq<DiskNode>,
    directory: Seq<PartView>,
    disk: Disk,
) -> Seq<RemovalReplyView>
    decreases nodes.len(),
{
    if nodes.len() == 0 {
        Seq::empty()
    } else {
        answers_listing(nodes.drop_last(), directory, disk) + answers_about(
            nodes.last(),
            directory,
            disk,
        )
    }
}

/// What the file system answers about an entry.
pub open spec fn answers_about(
    node: DiskNode,
    directory: Seq<PartView>,
    disk: Disk,
) -> Seq<RemovalReplyView> {
    let listed = RemovalReplyView::Entry {
        name: node.name(),
        kind: node.kind(),
        size: match node {
            DiskNode::File { name, size } => Some(size),
            _ => None,
        },
    };
    if disk.unread.contains(node.place(directory)) {
        seq![RemovalReplyView::EntryFailed(disk.denial)]
    } else if disk.blurred.contains(node.place(directory)) {
        seq![RemovalReplyView::EntryUnknown { name: node.name(), error: disk.denial }]
    } else if node is Directory {
        seq![listed]
    } else {
        seq![listed] + seq![verdict_on(node.place(directory), disk)]
    }
}

/// What the file system answers about the directories in a directory, the
/// last one first.
pub open spec fn answers_below(
    nodes: Seq<DiskNode>,
    directory: Seq<PartView>,
    disk: Disk,
) -> Seq<RemovalReplyView>
    decreases nodes,
{
    if nodes.len() == 0 {
        Seq::empty()
    } else {
        let rest = answers_below(nodes.drop_last(), directory, disk);
        match nodes.last() {
            DiskNode::Directory { name, children } => {
                let place = nodes.last().place(directory);
                let listing = answers_listing(children, place, disk);
                let below = answers_below(children, place, disk);
                if disk.hides(place) {
                    rest
                } else {
                    answers_in(children, place, disk, listing, below) + rest
                }
            },
            _ => rest,
        }
    }
}

/// What the file system answers about a directory, given what it answers
/// about what is in it.
pub open spec fn answers_in(
    children: Seq<DiskNode>,
    place: Seq<PartView>,
    disk: Disk,
    listing: Seq<RemovalReplyView>,
    below: Seq<RemovalReplyView>,
) -> Seq<RemovalReplyView> {
    let end = seq![verdict_on_directory(children, place, disk)];
    if disk.closed.contains(place) {
        seq![RemovalReplyView::OpenFailed(disk.denial)] + end
    } else {
        seq![RemovalReplyView::Opened] + listing + seq![RemovalReplyView::NoMoreEntries] + below
            + end
    }
}

/// What the file system answers about a directory tree.
pub open spec fn answers(
    children: Seq<DiskNode>,
    root: Seq<PartView>,
    disk: Disk,
) -> Seq<RemovalReplyView> {
    seq![RemovalReplyView::Found(true)] + answers_in(
        children,
        root,
        disk,
        answers_listing(children, root, disk),
        answers_below(children, root, disk),
    )
}

/// How a failure to remove something is reported.
pub open spec fn complaint(
    what: Seq<char>,
    place: Seq<PartView>,
    disk: Disk,
    platform: Platform,
) -> Seq<char> {
    what + crate::format::display_text(place, platform) + ": "@ + disk.denial
}

/// What a failure takes: nothing but a complaint.
pub open spec fn toll_of_failure(
    what: Seq<char>,
    place: Seq<PartView>,
    disk: Disk,
    platform: Platform,
) -> Toll {
    Toll { failures: seq![complaint(what, place, disk, platform)], ..Toll::none() }
}

/// What the removal of a file or a link takes.
pub open spec fn toll_of(
    node: DiskNode,
    directory: Seq<PartView>,
    disk: Disk,
    platform: Platform,
) -> Toll {
    let place = node.place(directory);
    if disk.unread.contains(place) {
        toll_of_failure("cannot read an entry in "@, directory, disk, platform)
    } else if disk.blurred.contains(place) {
        toll_of_failure("cannot inspect "@, place, disk, platform)
    } else {
        match node {
            DiskNode::Directory { name, children } => Toll::none(),
            DiskNode::File { name, size } => if disk.stuck.contains(place) {
                toll_of_failure("cannot remove "@, place, disk, platform)
            } else {
                Toll { removed: seq![place], bytes: size as nat, files: 1, failures: Seq::empty() }
            },
            DiskNode::Link { name, to_file } => if disk.stuck.contains(place) {
                toll_of_failure("cannot remove link "@, place, disk, platform)
            } else {
                Toll { removed: seq![place], bytes: 0, files: 1, failures: Seq::empty() }
            },
        }
    }
}

/// What the removal of the files and links of a directory takes.
pub open spec fn toll_listing(
    nodes: Seq<DiskNode>,
    directory: Seq<PartView>,
    disk: Disk,
    platform: Platform,
) -> Toll
    decreases nodes.len(),
{
    if nodes.len() == 0 {
        Toll::none()
    } else {
        toll_listing(nodes.drop_last(), directory, disk, platform).and(
            toll_of(nodes.last(), directory, disk, platform),
        )
    }
}

/// What the removal of a directory itself takes, once its entries have been
/// dealt with. A directory that is not empty has been complained about
/// already.
pub open spec fn toll_of_directory(
    children: Seq<DiskNode>,
    place: Seq<PartView>,
    disk: Disk,
    platform: Platform,
) -> Toll {
    if !emptied(children, place, disk) {
        Toll::none()
    } else if disk.stuck.contains(place) {
        toll_of_failure("cannot remove directory "@, place, disk, platform)
    } else {
        Toll { removed: seq![place], ..Toll::none() }
    }
}

/// What the removal of the directories in a directory takes, the last one
/// first.
pub open spec fn toll_below(
    nodes: Seq<DiskNode>,
    directory: Seq<PartView>,
    disk: Disk,
    platform: Platform,
) -> Toll
    decreases nodes,
{
    if nodes.len() == 0 {
        Toll::none()
    } else {
        let rest = toll_below(nodes.drop_last(), directory, disk, platform);
        match nodes.last() {
            DiskNode::Directory { name, children } => {
                let place = nodes.last().place(directory);
                let listing = toll_listing(children, place, disk, platform);
                let below = toll_below(children, place, disk, platform);
                if disk.hides(place) {
                    rest
                } else {
                    toll_in(children, place, disk, platform, listing, below).and(rest)
                }
            },
            _ => rest,
        }
    }
}

/// What the removal of a directory takes, given what the removal of what is
/// in it takes.
pub open spec fn toll_in(
    children: Seq<DiskNode>,
    place: Seq<PartView>,
    disk: Disk,
    platform: Platform,
    listing: Toll,
    below: Toll,
) -> Toll {
    let entries = if disk.closed.contains(place) {
        toll_of_failure("cannot read "@, place, disk, platform)
    } else {
        listing.and(below)
    };
    entries.and(toll_of_directory(children, place, disk, platform))
}

/// What the removal of a directory tree takes: everything that does not fail
/// and holds nothing that does.
pub open spec fn toll(
    children: Seq<DiskNode>,
    root: Seq<PartView>,
    disk: Disk,
    platform: Platform,
) -> Toll {
    toll_in(
        children,
        root,
        disk,
        platform,
        toll_listing(children, root, disk, platform),
        toll_below(children, root, disk, platform),
    )
}

/// The steps that the directories in a directory make necessary.
spec fn steps_into(
    nodes: Seq<DiskNode>,
    directory: Seq<PartView>,
    disk: Disk,
) -> Seq<StepView>
    decreases nodes.len(),
{
    if nodes.len() == 0 {
        Seq::empty()
    } else {
        let earlier = steps_into(nodes.drop_last(), directory, disk);
        if is_entered(nodes.last(), directory, disk) {
            earlier.push(StepView::Enter(nodes.last().place(directory)))
        } else {
            earlier
        }
    }
}

proof fn lemma_failure(course: Course, what: Seq<char>, place: Seq<PartView>, disk: Disk)
    ensures
        course.with(toll_of_failure(what, place, disk, course.state.platform)) == (Course {
            state: course.state.with_failure(
                complaint(what, place, disk, course.state.platform),
            ),
            ..course
        }),
{
    let taken = toll_of_failure(what, place, disk, course.state.platform);
    let line = taken.failures[0];
    let failures = course.state.failures;
    assert(seq![line].drop_last() =~= Seq::<Seq<char>>::empty());
    assert(seq![line].last() == line);
    assert(failures.with_all(seq![line].drop_last()) == failures);
    assert(failures.with_all(taken.failures) == failures.with(line));
    assert(course.removed + taken.removed =~= course.removed);
    assert(course.with(taken).state =~= course.state.with_failure(line));
}

proof fn lemma_about(course: Course, node: DiskNode, directory: Seq<PartView>, disk: Disk)
    requires
        course.state.phase == (RemovalPhaseView::Listing { directory }),
    ensures
        course.apt(answers_about(node, directory, disk)),
        course.answered(answers_about(node, directory, disk)) == course.with(
            toll_of(node, directory, disk, course.state.platform),
        ).to_do(
            if is_entered(node, directory, disk) {
                course.state.stack.push(StepView::Enter(node.place(directory)))
            } else {
                course.state.stack
            },
        ),
{
    let place = node.place(directory);
    let platform = course.state.platform;
    let taken = toll_of(node, directory, disk, platform);
    let listed = answers_about(node, directory, disk)[0];
    lemma_answered_once(course, listed);
    let asked = course.after(listed);
    if disk.hides(place) {
        if disk.unread.contains(place) {
            lemma_failure(course, "cannot read an entry in "@, directory, disk);
        } else {
            lemma_failure(course, "cannot inspect "@, place, disk);
        }
        assert(answers_about(node, directory, disk) =~= seq![listed]);
        assert(asked.state =~= course.with(taken).to_do(course.state.stack).state);
    } else if node is Directory {
        lemma_no_toll(course);
        assert(answers_about(node, directory, disk) =~= seq![listed]);
    } else {
        let end = verdict_on(place, disk);
        lemma_answered_once(asked, end);
        lemma_answered_in_turn(course, seq![listed], seq![end]);
        assert(answers_about(node, directory, disk) =~= seq![listed] + seq![end]);
        let done = asked.after(end);
        let failures = course.state.failures;
        assert(failures.with_all(Seq::empty()) == failures);
        if disk.stuck.contains(place) {
            let what = if node is File {
                "cannot remove "@
            } else {
                "cannot remove link "@
            };
            lemma_failure(course, what, place, disk);
        } else {
            assert(course.removed + taken.removed =~= course.removed.push(place));
        }
        assert(done.state =~= course.with(taken).to_do(course.state.stack).state);
    }
}

proof fn lemma_listing(
    course: Course,
    nodes: Seq<DiskNode>,
    directory: Seq<PartView>,
    disk: Disk,
)
    requires
        course.state.phase == (RemovalPhaseView::Listing { directory }),
    ensures
        course.apt(answers_listing(nodes, directory, disk)),
        course.answered(answers_listing(nodes, directory, disk)) == course.with(
            toll_listing(nodes, directory, disk, course.state.platform),
        ).to_do(course.state.stack + steps_into(nodes, directory, disk)),
    decreases nodes.len(),
{
    let platform = course.state.platform;
    if nodes.len() == 0 {
        lemma_no_toll(course);
        assert(course.state.stack + steps_into(nodes, directory, disk) =~= course.state.stack);
    } else {
        let earlier = nodes.drop_last();
        let node = nodes.last();
        lemma_listing(course, earlier, directory, disk);
        let first = toll_listing(earlier, directory, disk, platform);
        let second = toll_of(node, directory, disk, platform);
        let middle = course.with(first).to_do(course.state.stack + steps_into(earlier, directory, disk));
        lemma_about(middle, node, directory, disk);
        lemma_answered_in_turn(
            course,
            answers_listing(earlier, directory, disk),
            answers_about(node, directory, disk),
        );
        lemma_tolls_in_turn(course, first, second);
        let stack = if is_entered(node, directory, disk) {
            middle.state.stack.push(StepView::Enter(node.place(directory)))
        } else {
            middle.state.stack
        };
        assert(stack =~= course.state.stack + steps_into(nodes, directory, disk));
    }
}

proof fn lemma_directory(
    base: Course,
    children: Seq<DiskNode>,
    place: Seq<PartView>,
    disk: Disk,
)
    ensures
        directory_dealt_with(base, children, place, disk),
    decreases children, 1int,
{
    if disk.closed.contains(place) {
        lemma_closed_directory(base, children, place, disk);
    } else {
        lemma_below(
            base.with(toll_listing(children, place, disk, base.state.platform)).to_do(
                base.state.stack.push(StepView::RemoveDirectory(place)),
            ),
            children,
            place,
            disk,
        );
        lemma_open_directory(base, children, place, disk);
    }
}

/// What is to be shown of the removal of a directory.
spec fn directory_dealt_with(
    base: Course,
    children: Seq<DiskNode>,
    place: Seq<PartView>,
    disk: Disk,
) -> bool {
    let start = base.to_do(base.state.stack.push(StepView::RemoveDirectory(place))).waiting(
        RemovalPhaseView::Opening { directory: place },
    );
    let replies = answers_in(
        children,
        place,
        disk,
        answers_listing(children, place, disk),
        answers_below(children, place, disk),
    );
    &&& start.apt(replies)
    &&& start.answered(replies) == base.with(
        toll(children, place, disk, base.state.platform),
    ).next()
}

proof fn lemma_closed_directory(
    base: Course,
    children: Seq<DiskNode>,
    place: Seq<PartView>,
    disk: Disk,
)
    requires
        disk.closed.contains(place),
    ensures
        directory_dealt_with(base, children, place, disk),
{
    let platform = base.state.platform;
    let stack = base.state.stack.push(StepView::RemoveDirectory(place));
    let start = base.to_do(stack).waiting(RemovalPhaseView::Opening { directory: place });
    let failed = RemovalReplyView::OpenFailed(disk.denial);
    let end = verdict_on_directory(children, place, disk);
    let first = toll_of_failure("cannot read "@, place, disk, platform);
    let second = toll_of_directory(children, place, disk, platform);
    lemma_answered_once(start, failed);
    lemma_failure(base, "cannot read "@, place, disk);
    let alone = base.with(first);
    let left = start.after(failed);
    assert(stack.drop_last() =~= base.state.stack);
    assert(left.state =~= alone.waiting(
        RemovalPhaseView::RemovingDirectory { directory: place },
    ).state);
    lemma_answered_once(left, end);
    lemma_directory_itself(alone, children, place, disk);
    lemma_tolls_in_turn(base, first, second);
    lemma_answered_in_turn(start, seq![failed], seq![end]);
}

proof fn lemma_open_directory(
    base: Course,
    children: Seq<DiskNode>,
    place: Seq<PartView>,
    disk: Disk,
)
    requires
        !disk.closed.contains(place),
        below_dealt_with(
            base.with(toll_listing(children, place, disk, base.state.platform)).to_do(
                base.state.stack.push(StepView::RemoveDirectory(place)),
            ),
            children,
            place,
            disk,
        ),
    ensures
        directory_dealt_with(base, children, place, disk),
{
    let platform = base.state.platform;
    let stack = base.state.stack.push(StepView::RemoveDirectory(place));
    let start = base.to_do(stack).waiting(RemovalPhaseView::Opening { directory: place });
    let listing = answers_listing(children, place, disk);
    let below = answers_below(children, place, disk);
    let end = verdict_on_directory(children, place, disk);

    // The directory is opened and listed.
    let opened = start.after(RemovalReplyView::Opened);
    lemma_answered_once(start, RemovalReplyView::Opened);
    lemma_listing(opened, children, place, disk);
    let first = toll_listing(children, place, disk, platform);
    let listed = opened.answered(listing);

    // Its directories are dealt with.
    lemma_answered_once(listed, RemovalReplyView::NoMoreEntries);
    let base_below = base.with(first).to_do(stack);
    let queued = base_below.to_do(stack + steps_into(children, place, disk)).next();
    assert(listed.after(RemovalReplyView::NoMoreEntries).state =~= queued.state);
    let second = toll_below(children, place, disk, platform);
    let left = base_below.with(second).next();

    // It is removed itself.
    let alone = base.with(first).with(second);
    assert(stack.drop_last() =~= base.state.stack);
    assert(left.state =~= alone.waiting(
        RemovalPhaseView::RemovingDirectory { directory: place },
    ).state);
    lemma_answered_once(left, end);
    let third = toll_of_directory(children, place, disk, platform);
    lemma_directory_itself(alone, children, place, disk);
    lemma_tolls_in_turn(base, first, second);
    lemma_tolls_in_turn(base, first.and(second), third);

    lemma_answered_in_turn(start, seq![RemovalReplyView::Opened], listing);
    lemma_answered_in_turn(
        start,
        seq![RemovalReplyView::Opened] + listing,
        seq![RemovalReplyView::NoMoreEntries],
    );
    lemma_answered_in_turn(
        start,
        seq![RemovalReplyView::Opened] + listing + seq![RemovalReplyView::NoMoreEntries],
        below,
    );
    lemma_answered_in_turn(
        start,
        seq![RemovalReplyView::Opened] + listing + seq![RemovalReplyView::NoMoreEntries] + below,
        seq![end],
    );
}

proof fn lemma_directory_itself(
    base: Course,
    children: Seq<DiskNode>,
    place: Seq<PartView>,
    disk: Disk,
)
    ensures
        ({
            let asked = base.waiting(RemovalPhaseView::RemovingDirectory { directory: place });
            let end = verdict_on_directory(children, place, disk);
            &&& asked.state.awaits(end)
            &&& asked.after(end) == base.with(
                toll_of_directory(children, place, disk, base.state.platform),
            ).next()
        }),
{
    let asked = base.waiting(RemovalPhaseView::RemovingDirectory { directory: place });
    let end = verdict_on_directory(children, place, disk);
    let taken = toll_of_directory(children, place, disk, base.state.platform);
    let failures = base.state.failures;
    assert(failures.with_all(Seq::empty()) == failures);
    lemma_no_toll(base);
    if emptied(children, place, disk) {
        if disk.stuck.contains(place) {
            lemma_failure(base, "cannot remove directory "@, place, disk);
        } else {
            assert(base.removed + taken.removed =~= base.removed.push(place));
        }
    }
    assert(asked.after(end).state =~= base.with(taken).next().state);
}

/// What is to be shown of the removal of the directories in a directory.
spec fn below_dealt_with(
    base: Course,
    nodes: Seq<DiskNode>,
    directory: Seq<PartView>,
    disk: Disk,
) -> bool {
    let start = base.to_do(base.state.stack + steps_into(nodes, directory, disk)).next();
    let replies = answers_below(nodes, directory, disk);
    &&& start.apt(replies)
    &&& start.answered(replies) == base.with(
        toll_below(nodes, directory, disk, base.state.platform),
    ).next()
}

proof fn lemma_below(base: Course, nodes: Seq<DiskNode>, directory: Seq<PartView>, disk: Disk)
    ensures
        below_dealt_with(base, nodes, directory, disk),
    decreases nodes, 0int,
{
    let platform = base.state.platform;
    if nodes.len() == 0 {
        lemma_no_toll(base);
        assert(base.state.stack + steps_into(nodes, directory, disk) =~= base.state.stack);
    } else {
        let earlier = nodes.drop_last();
        let rest = answers_below(earlier, directory, disk);
        match nodes.last() {
            DiskNode::Directory { name, children } if !disk.hides(
                nodes.last().place(directory),
            ) => {
                let place = nodes.last().place(directory);
                let stack = base.state.stack + steps_into(earlier, directory, disk);
                let inner = base.to_do(stack);
                let start = base.to_do(base.state.stack + steps_into(nodes, directory, disk)).next();
                lemma_directory(inner, children, place, disk);
                assert(base.state.stack + steps_into(nodes, directory, disk) =~= stack.push(
                    StepView::Enter(place),
                ));
                assert(stack.push(StepView::Enter(place)).drop_last() =~= stack);
                assert(start.state =~= inner.to_do(
                    stack.push(StepView::RemoveDirectory(place)),
                ).waiting(RemovalPhaseView::Opening { directory: place }).state);
                let taken = toll(children, place, disk, platform);
                lemma_below(base.with(taken), earlier, directory, disk);
                assert(inner.with(taken).next() == base.with(taken).to_do(
                    base.with(taken).state.stack + steps_into(earlier, directory, disk),
                ).next());
                lemma_tolls_in_turn(base, taken, toll_below(earlier, directory, disk, platform));
                lemma_answered_in_turn(
                    start,
                    answers_in(
                        children,
                        place,
                        disk,
                        answers_listing(children, place, disk),
                        answers_below(children, place, disk),
                    ),
                    rest,
                );
            },
            _ => {
                lemma_below(base, earlier, directory, disk);
            },
        }
    }
}

/// A removal that begins, with nothing removed.
pub open spec fn course_begun(root: Seq<PartView>, platform: Platform) -> Course {
    Course { state: remove::removal_begun(root, platform), removed: Seq::empty() }
}

/// What fails costs only itself and the directories it is in, be it an entry
/// that cannot be removed, an entry that cannot be read or inspected or a
/// directory that cannot be opened: everything else is removed, each entry of a
/// directory before the directory, and counted; each failure is reported once;
/// and the removal comes to its end.
pub proof fn law_failures_cost_only_themselves(
    children: Seq<DiskNode>,
    root: Seq<PartView>,
    disk: Disk,
    platform: Platform,
)
    ensures
        course_begun(root, platform).apt(answers(children, root, disk)),
        ({
            let end = course_begun(root, platform).answered(answers(children, root, disk));
            let taken = toll(children, root, disk, platform);
            &&& end.state.phase is Finished
            &&& !end.state.cancelled
            &&& end.removed == taken.removed
            &&& end.state.bytes_removed == taken.bytes
            &&& end.state.files_removed == taken.files
            &&& end.state.failures.of(taken.failures)
        }),
{
    let start = course_begun(root, platform);
    let found = RemovalReplyView::Found(true);
    let replies = answers_in(
        children,
        root,
        disk,
        answers_listing(children, root, disk),
        answers_below(children, root, disk),
    );
    lemma_answered_once(start, found);
    lemma_answered_in_turn(start, seq![found], replies);
    lemma_directory(start, children, root, disk);
    let begun = start.after(found);
    assert(start.state.stack.push(StepView::Enter(root)).drop_last() =~= start.state.stack);
    assert(begun.state =~= start.to_do(
        start.state.stack.push(StepView::RemoveDirectory(root)),
    ).waiting(RemovalPhaseView::Opening { directory: root }).state);
    let taken = toll(children, root, disk, platform);
    lemma_with_all_are_sampled(taken.failures);
    assert(Seq::<Seq<PartView>>::empty() + taken.removed =~= taken.removed);
}

/// Whether nothing fails with the entries of a directory, here and below.
pub open spec fn untroubled(nodes: Seq<DiskNode>, directory: Seq<PartView>, disk: Disk) -> bool
    decreases nodes,
{
    if nodes.len() == 0 {
        true
    } else {
        let place = nodes.last().place(directory);
        &&& untroubled(nodes.drop_last(), directory, disk)
        &&& !disk.stuck.contains(place)
        &&& !disk.hides(place)
        &&& match nodes.last() {
            DiskNode::Directory { name, children } => {
                !disk.closed.contains(place) && untroubled(children, place, disk)
            },
            _ => true,
        }
    }
}

/// Whether nothing fails with a directory tree.
pub open spec fn untroubled_tree(
    children: Seq<DiskNode>,
    root: Seq<PartView>,
    disk: Disk,
) -> bool {
    &&& !disk.stuck.contains(root)
    &&& !disk.closed.contains(root)
    &&& untroubled(children, root, disk)
}

/// The sizes of the files that can be found by opening directories and
/// inspecting entries, here and below.
pub open spec fn visible_size(nodes: Seq<DiskNode>, directory: Seq<PartView>, disk: Disk) -> nat
    decreases nodes,
{
    if nodes.len() == 0 {
        0
    } else {
        let place = nodes.last().place(directory);
        visible_size(nodes.drop_last(), directory, disk) + if disk.hides(place) {
            0
        } else {
            match nodes.last() {
                DiskNode::Directory { name, children } => if disk.closed.contains(place) {
                    0
                } else {
                    visible_size(children, place, disk)
                },
                DiskNode::File { name, size } => size as nat,
                DiskNode::Link { name, to_file } => 0,
            }
        }
    }
}

/// The sizes of the files of a directory tree that can be found.
pub open spec fn visible_tree_size(
    children: Seq<DiskNode>,
    root: Seq<PartView>,
    disk: Disk,
) -> nat {
    if disk.closed.contains(root) {
        0
    } else {
        visible_size(children, root, disk)
    }
}

/// The sizes of the files of a directory that can be found, without those
/// below.
spec fn visible_here(nodes: Seq<DiskNode>, directory: Seq<PartView>, disk: Disk) -> nat
    decreases nodes.len(),
{
    if nodes.len() == 0 {
        0
    } else {
        visible_here(nodes.drop_last(), directory, disk) + match nodes.last() {
            DiskNode::File { name, size } if !disk.hides(
                nodes.last().place(directory),
            ) => size as nat,
            _ => 0,
        }
    }
}

/// The sizes of the files of a directory, without those below.
spec fn size_here(nodes: Seq<DiskNode>) -> nat
    decreases nodes.len(),
{
    if nodes.len() == 0 {
        0
    } else {
        size_here(nodes.drop_last()) + match nodes.last() {
            DiskNode::File { name, size } => size as nat,
            _ => 0,
        }
    }
}

/// How many files and links there are in a directory, without those below.
spec fn files_here(nodes: Seq<DiskNode>) -> nat
    decreases nodes.len(),
{
    if nodes.len() == 0 {
        0
    } else {
        files_here(nodes.drop_last()) + if nodes.last() is Directory {
            0nat
        } else {
            1nat
        }
    }
}

proof fn lemma_listing_goes(
    nodes: Seq<DiskNode>,
    directory: Seq<PartView>,
    disk: Disk,
    platform: Platform,
)
    requires
        all_go(nodes, directory, disk),
    ensures
        ({
            let taken = toll_listing(nodes, directory, disk, platform);
            &&& taken.bytes == size_here(nodes)
            &&& taken.files == files_here(nodes)
            &&& taken.removed.len() == files_here(nodes)
        }),
    decreases nodes.len(),
{
    if nodes.len() > 0 {
        lemma_listing_goes(nodes.drop_last(), directory, disk, platform);
    }
}

proof fn lemma_below_goes(
    nodes: Seq<DiskNode>,
    directory: Seq<PartView>,
    disk: Disk,
    platform: Platform,
)
    requires
        all_go(nodes, directory, disk),
    ensures
        ({
            let taken = toll_below(nodes, directory, disk, platform);
            &&& taken.bytes + size_here(nodes) == disk::total_size(nodes)
            &&& taken.files + files_here(nodes) == disk::file_count(nodes)
            &&& taken.removed.len() + files_here(nodes) == disk::entry_count(nodes)
        }),
    decreases nodes,
{
    if nodes.len() > 0 {
        lemma_below_goes(nodes.drop_last(), directory, disk, platform);
        match nodes.last() {
            DiskNode::Directory { name, children } => {
                let place = nodes.last().place(directory);
                if disk.closed.contains(place) {
                    assert(disk::total_size(children) == 0);
                    assert(disk::file_count(children) == 0);
                    assert(disk::entry_count(children) == 0);
                } else {
                    lemma_below_goes(children, place, disk, platform);
                    lemma_listing_goes(children, place, disk, platform);
                }
            },
            _ => {},
        }
    }
}

/// Where everything can go, the whole tree is removed, its root last, and
/// exactly the bytes in it are reclaimed.
pub proof fn law_whole_trees_go(
    children: Seq<DiskNode>,
    root: Seq<PartView>,
    disk: Disk,
    platform: Platform,
)
    requires
        emptied(children, root, disk),
        !disk.stuck.contains(root),
    ensures
        ({
            let taken = toll(children, root, disk, platform);
            &&& taken.bytes == disk::total_size(children)
            &&& taken.files == disk::file_count(children)
            &&& taken.removed.len() == disk::entry_count(children) + 1
            &&& taken.removed.last() == root
        }),
{
    if !disk.closed.contains(root) {
        lemma_listing_goes(children, root, disk, platform);
        lemma_below_goes(children, root, disk, platform);
    }
}

/// Nothing is reported if and only if nothing fails, and then nothing is left:
/// what is left is never left in silence.
pub proof fn law_nothing_is_left_in_silence(
    children: Seq<DiskNode>,
    root: Seq<PartView>,
    disk: Disk,
    platform: Platform,
)
    ensures
        toll(children, root, disk, platform).failures.len() == 0 <==> untroubled_tree(
            children,
            root,
            disk,
        ),
        untroubled_tree(children, root, disk) ==> emptied(children, root, disk),
{
    lemma_reported(children, root, disk, platform);
    lemma_untroubled_go(children, root, disk);
}

proof fn lemma_untroubled_go(nodes: Seq<DiskNode>, directory: Seq<PartView>, disk: Disk)
    ensures
        untroubled(nodes, directory, disk) ==> all_go(nodes, directory, disk),
    decreases nodes,
{
    if nodes.len() > 0 {
        lemma_untroubled_go(nodes.drop_last(), directory, disk);
        match nodes.last() {
            DiskNode::Directory { name, children } => {
                lemma_untroubled_go(children, nodes.last().place(directory), disk);
            },
            _ => {},
        }
    }
}

/// Whether an entry of a directory fails by itself: none is dealt with that is
/// hidden, and neither a file nor a link can be removed that is stuck.
spec fn fails_here(nodes: Seq<DiskNode>, directory: Seq<PartView>, disk: Disk) -> bool
    decreases nodes.len(),
{
    if nodes.len() == 0 {
        false
    } else {
        let place = nodes.last().place(directory);
        ||| fails_here(nodes.drop_last(), directory, disk)
        ||| disk.hides(place)
        ||| !(nodes.last() is Directory) && disk.stuck.contains(place)
    }
}

proof fn lemma_reported_here(
    nodes: Seq<DiskNode>,
    directory: Seq<PartView>,
    disk: Disk,
    platform: Platform,
)
    ensures
        toll_listing(nodes, directory, disk, platform).failures.len() == 0 <==> !fails_here(
            nodes,
            directory,
            disk,
        ),
    decreases nodes.len(),
{
    if nodes.len() > 0 {
        lemma_reported_here(nodes.drop_last(), directory, disk, platform);
    }
}

proof fn lemma_reported(
    nodes: Seq<DiskNode>,
    directory: Seq<PartView>,
    disk: Disk,
    platform: Platform,
)
    ensures
        toll_listing(nodes, directory, disk, platform).failures.len() == 0 && toll_below(
            nodes,
            directory,
            disk,
            platform,
        ).failures.len() == 0 <==> untroubled(nodes, directory, disk),
    decreases nodes,
{
    lemma_reported_here(nodes, directory, disk, platform);
    lemma_untroubled_go(nodes, directory, disk);
    if nodes.len() > 0 {
        lemma_reported(nodes.drop_last(), directory, disk, platform);
        lemma_reported_here(nodes.drop_last(), directory, disk, platform);
        match nodes.last() {
            DiskNode::Directory { name, children } => {
                let place = nodes.last().place(directory);
                lemma_reported(children, place, disk, platform);
                lemma_untroubled_go(children, place, disk);
            },
            _ => {},
        }
    }
}

proof fn lemma_visible_listing(
    nodes: Seq<DiskNode>,
    directory: Seq<PartView>,
    disk: Disk,
    platform: Platform,
)
    ensures
        toll_listing(nodes, directory, disk, platform).bytes <= visible_here(
            nodes,
            directory,
            disk,
        ),
        untroubled(nodes, directory, disk) ==> toll_listing(nodes, directory, disk, platform).bytes
            == visible_here(nodes, directory, disk),
    decreases nodes.len(),
{
    if nodes.len() > 0 {
        lemma_visible_listing(nodes.drop_last(), directory, disk, platform);
    }
}

proof fn lemma_visible_below(
    nodes: Seq<DiskNode>,
    directory: Seq<PartView>,
    disk: Disk,
    platform: Platform,
)
    ensures
        toll_below(nodes, directory, disk, platform).bytes + visible_here(nodes, directory, disk)
            <= visible_size(nodes, directory, disk),
        untroubled(nodes, directory, disk) ==> toll_below(nodes, directory, disk, platform).bytes
            + visible_here(nodes, directory, disk) == visible_size(nodes, directory, disk),
    decreases nodes,
{
    if nodes.len() > 0 {
        lemma_visible_below(nodes.drop_last(), directory, disk, platform);
        match nodes.last() {
            DiskNode::Directory { name, children } => {
                let place = nodes.last().place(directory);
                lemma_visible_below(children, place, disk, platform);
                lemma_visible_listing(children, place, disk, platform);
            },
            _ => {},
        }
    }
}

/// What is found in a directory that is measured.
pub struct Listing {
    pub directory: Seq<PartView>,
    pub entries: Seq<MeasuredEntryView>,
}

/// An entry as it is measured.
pub open spec fn measured_entry(
    node: DiskNode,
    directory: Seq<PartView>,
    disk: Disk,
) -> MeasuredEntryView {
    if disk.hides(node.place(directory)) {
        MeasuredEntryView::Unreadable
    } else {
        match node {
            DiskNode::Directory { name, children } => MeasuredEntryView::Directory { name },
            DiskNode::File { name, size } => MeasuredEntryView::File { size: Some(size) },
            DiskNode::Link { name, to_file } => MeasuredEntryView::Symlink,
        }
    }
}

/// The entries of a directory as they are measured.
pub open spec fn measured_entries(
    nodes: Seq<DiskNode>,
    directory: Seq<PartView>,
    disk: Disk,
) -> Seq<MeasuredEntryView> {
    nodes.map_values(|node: DiskNode| measured_entry(node, directory, disk))
}

/// The listing of a directory; one that cannot be opened shows nothing.
pub open spec fn listing_of(children: Seq<DiskNode>, place: Seq<PartView>, disk: Disk) -> Listing {
    Listing {
        directory: place,
        entries: if disk.closed.contains(place) {
            Seq::empty()
        } else {
            measured_entries(children, place, disk)
        },
    }
}

/// The listings of the directories in a directory, the last one first.
pub open spec fn listings_below(
    nodes: Seq<DiskNode>,
    directory: Seq<PartView>,
    disk: Disk,
) -> Seq<Listing>
    decreases nodes,
{
    if nodes.len() == 0 {
        Seq::empty()
    } else {
        let rest = listings_below(nodes.drop_last(), directory, disk);
        match nodes.last() {
            DiskNode::Directory { name, children } => {
                let place = nodes.last().place(directory);
                let below = listings_below(children, place, disk);
                if disk.hides(place) {
                    rest
                } else {
                    listings_in(children, place, disk, below) + rest
                }
            },
            _ => rest,
        }
    }
}

/// The listings of a directory, given those of what is in it.
pub open spec fn listings_in(
    children: Seq<DiskNode>,
    place: Seq<PartView>,
    disk: Disk,
    below: Seq<Listing>,
) -> Seq<Listing> {
    let own = seq![listing_of(children, place, disk)];
    if disk.closed.contains(place) {
        own
    } else {
        own + below
    }
}

/// The listings of a directory tree.
pub open spec fn listings(
    children: Seq<DiskNode>,
    root: Seq<PartView>,
    disk: Disk,
) -> Seq<Listing> {
    listings_in(children, root, disk, listings_below(children, root, disk))
}

/// A measurement after a number of listings.
pub open spec fn measured_all(measure: TreeMeasureView, list: Seq<Listing>) -> TreeMeasureView
    decreases list.len(),
{
    if list.len() == 0 {
        measure
    } else {
        remove::measured(
            measured_all(measure, list.drop_last()).taken(),
            list.last().directory,
            list.last().entries,
        )
    }
}

/// Whether each listing is of the directory that is to be listed at its time.
pub open spec fn listed_in_order(measure: TreeMeasureView, list: Seq<Listing>) -> bool
    decreases list.len(),
{
    if list.len() == 0 {
        true
    } else {
        let before = measured_all(measure, list.drop_last());
        &&& listed_in_order(measure, list.drop_last())
        &&& before.pending.len() > 0
        &&& before.pending.last() == list.last().directory
    }
}

proof fn lemma_measured_in_turn(
    measure: TreeMeasureView,
    first: Seq<Listing>,
    second: Seq<Listing>,
)
    ensures
        measured_all(measure, first + second) == measured_all(
            measured_all(measure, first),
            second,
        ),
        listed_in_order(measure, first + second) == (listed_in_order(measure, first)
            && listed_in_order(measured_all(measure, first), second)),
    decreases second.len(),
{
    if second.len() == 0 {
        assert(first + second =~= first);
    } else {
        lemma_measured_in_turn(measure, first, second.drop_last());
        assert((first + second).drop_last() =~= first + second.drop_last());
        assert((first + second).last() == second.last());
    }
}

/// The directories in a directory that are listed.
spec fn directories_in(
    nodes: Seq<DiskNode>,
    directory: Seq<PartView>,
    disk: Disk,
) -> Seq<Seq<PartView>>
    decreases nodes.len(),
{
    if nodes.len() == 0 {
        Seq::empty()
    } else {
        let earlier = directories_in(nodes.drop_last(), directory, disk);
        if is_entered(nodes.last(), directory, disk) {
            earlier.push(nodes.last().place(directory))
        } else {
            earlier
        }
    }
}

proof fn lemma_measured_here(
    measure: TreeMeasureView,
    nodes: Seq<DiskNode>,
    directory: Seq<PartView>,
    disk: Disk,
)
    ensures
        remove::measured(measure, directory, measured_entries(nodes, directory, disk)) == (
        TreeMeasureView {
            pending: measure.pending + directories_in(nodes, directory, disk),
            total: measure.total + visible_here(nodes, directory, disk),
        }),
    decreases nodes.len(),
{
    let entries = measured_entries(nodes, directory, disk);
    let after = remove::measured(measure, directory, entries);
    let expected = TreeMeasureView {
        pending: measure.pending + directories_in(nodes, directory, disk),
        total: measure.total + visible_here(nodes, directory, disk),
    };
    if nodes.len() > 0 {
        let earlier = nodes.drop_last();
        lemma_measured_here(measure, earlier, directory, disk);
        assert(entries.drop_last() =~= measured_entries(earlier, directory, disk));
        assert(entries.last() == measured_entry(nodes.last(), directory, disk));
        assert(after.pending =~= expected.pending);
    }
    assert(after =~= expected);
}

/// One directory, with all that is below it.
proof fn lemma_measured_in(
    before: TreeMeasureView,
    children: Seq<DiskNode>,
    place: Seq<PartView>,
    disk: Disk,
)
    ensures
        ({
            let start = TreeMeasureView { pending: before.pending.push(place), ..before };
            let list = listings(children, place, disk);
            &&& listed_in_order(start, list)
            &&& measured_all(start, list) == (TreeMeasureView {
                total: before.total + visible_tree_size(children, place, disk),
                ..before
            })
        }),
    decreases children, 1int,
{
    let start = TreeMeasureView { pending: before.pending.push(place), ..before };
    let own = seq![listing_of(children, place, disk)];
    let below = listings_below(children, place, disk);
    assert(own.drop_last() =~= Seq::<Listing>::empty());
    assert(measured_all(start, own.drop_last()) == start);
    assert(listed_in_order(start, own.drop_last()));
    assert(own.last() == listing_of(children, place, disk));
    assert(start.taken() =~= before) by {
        assert(start.pending.drop_last() =~= before.pending);
    }
    if disk.closed.contains(place) {
        assert(measured_all(start, own) == before);
    } else {
        lemma_measured_here(before, children, place, disk);
        let listed = TreeMeasureView {
            total: before.total + visible_here(children, place, disk),
            ..before
        };
        lemma_measured_below(listed, children, place, disk);
        lemma_measured_in_turn(start, own, below);
        assert(measured_all(start, own + below) =~= TreeMeasureView {
            total: before.total + visible_tree_size(children, place, disk),
            ..before
        });
    }
}

proof fn lemma_measured_below(
    measure: TreeMeasureView,
    nodes: Seq<DiskNode>,
    directory: Seq<PartView>,
    disk: Disk,
)
    ensures
        ({
            let start = TreeMeasureView {
                pending: measure.pending + directories_in(nodes, directory, disk),
                ..measure
            };
            let list = listings_below(nodes, directory, disk);
            &&& listed_in_order(start, list)
            &&& measured_all(start, list).pending == measure.pending
            &&& measured_all(start, list).total + visible_here(nodes, directory, disk)
                == measure.total + visible_size(nodes, directory, disk)
        }),
    decreases nodes, 0int,
{
    let start = TreeMeasureView {
        pending: measure.pending + directories_in(nodes, directory, disk),
        ..measure
    };
    if nodes.len() == 0 {
        assert(start.pending =~= measure.pending);
    } else {
        let earlier = nodes.drop_last();
        let rest = listings_below(earlier, directory, disk);
        match nodes.last() {
            DiskNode::Directory { name, children } if !disk.hides(
                nodes.last().place(directory),
            ) => {
                let place = nodes.last().place(directory);
                let before = TreeMeasureView {
                    pending: measure.pending + directories_in(earlier, directory, disk),
                    ..measure
                };
                assert(start.pending =~= before.pending.push(place));
                lemma_measured_in(before, children, place, disk);
                let own = listings(children, place, disk);
                let inner = measured_all(start, own);
                let base = TreeMeasureView { pending: measure.pending, total: inner.total };
                lemma_measured_below(base, earlier, directory, disk);
                lemma_measured_in_turn(start, own, rest);
            },
            _ => {
                lemma_measured_below(measure, earlier, directory, disk);
            },
        }
    }
}

/// Measuring a directory tree comes to its end, and the total is the sum of
/// the sizes of its files, without those that cannot be found.
pub proof fn law_measuring_sums_all_files(
    children: Seq<DiskNode>,
    root: Seq<PartView>,
    disk: Disk,
)
    ensures
        ({
            let start = remove::measure_begun(root, EntryKind::Directory);
            let end = measured_all(start, listings(children, root, disk));
            &&& listed_in_order(start, listings(children, root, disk))
            &&& end.pending.len() == 0
            &&& end.total == visible_tree_size(children, root, disk)
        }),
        visible_tree_size(children, root, disk) <= disk::total_size(children),
        untroubled_tree(children, root, disk) ==> visible_tree_size(children, root, disk)
            == disk::total_size(children),
{
    let start = remove::measure_begun(root, EntryKind::Directory);
    let none = TreeMeasureView { pending: Seq::empty(), total: 0 };
    assert(start.pending =~= none.pending.push(root));
    lemma_measured_in(none, children, root, disk);
    lemma_all_visible(children, root, disk);
}

proof fn lemma_all_visible(nodes: Seq<DiskNode>, directory: Seq<PartView>, disk: Disk)
    ensures
        visible_size(nodes, directory, disk) <= disk::total_size(nodes),
        untroubled(nodes, directory, disk) ==> visible_size(nodes, directory, disk)
            == disk::total_size(nodes),
    decreases nodes,
{
    if nodes.len() > 0 {
        lemma_all_visible(nodes.drop_last(), directory, disk);
        match nodes.last() {
            DiskNode::Directory { name, children } => {
                lemma_all_visible(children, nodes.last().place(directory), disk);
            },
            _ => {},
        }
    }
}

/// A removal reclaims no more than was measured just before, which is no more
/// than the tree holds, and all of it where nothing fails; then the root is
/// gone too.
pub proof fn law_removals_reclaim_what_was_measured(
    children: Seq<DiskNode>,
    root: Seq<PartView>,
    disk: Disk,
    platform: Platform,
)
    ensures
        ({
            let measured = measured_all(
                remove::measure_begun(root, EntryKind::Directory),
                listings(children, root, disk),
            ).total;
            let end = course_begun(root, platform).answered(answers(children, root, disk));
            &&& end.state.bytes_removed <= measured <= disk::total_size(children)
            &&& end.state.failures.count == 0 ==> {
                &&& end.state.bytes_removed == measured
                &&& end.removed.contains(root)
            }
        }),
{
    law_failures_cost_only_themselves(children, root, disk, platform);
    law_measuring_sums_all_files(children, root, disk);
    law_nothing_is_left_in_silence(children, root, disk, platform);
    lemma_visible_listing(children, root, disk, platform);
    lemma_visible_below(children, root, disk, platform);
    let taken = toll(children, root, disk, platform);
    if untroubled_tree(children, root, disk) {
        law_whole_trees_go(children, root, disk, platform);
        assert(taken.removed[taken.removed.len() - 1] == root);
    }
}

} // verus!
