//! Carries out an action: finds its directories, refuses those that must not
//! be touched, and deletes the others.

use crate::action::{Action, ActionKind, ActionReport, ActionState, ActionView, Progress, ProgressView};
use crate::format::{display_path, Span};
use crate::path;
use crate::path::{Component, PartView, Platform, TreePath};
use crate::proc::{command_diagnostic, ProcessOutput, ProcessOutputView};
use crate::remove::{RemovalOutcome, RemovalOutcomeView};
use crate::text;
use vstd::prelude::*;

verus! {

/// What is known of the target directory of a Cargo project.
#[derive(Debug)]
pub enum CargoLayout {
    /// The action is about no Cargo project.
    NotCargo,
    /// Cargo named the directory, and the conventional one may exist too.
    Known { target: TreePath, conventional_exists: bool },
    /// Cargo could not be asked.
    Unknown(String),
}

/// What is known of the target directory, as a value.
pub enum CargoLayoutView {
    NotCargo,
    Known { target: Seq<PartView>, conventional_exists: bool },
    Unknown(Seq<char>),
}

impl View for CargoLayout {
    type V = CargoLayoutView;

    open spec fn view(&self) -> CargoLayoutView {
        match self {
            CargoLayout::NotCargo => CargoLayoutView::NotCargo,
            CargoLayout::Known { target, conventional_exists } => CargoLayoutView::Known {
                target: target@,
                conventional_exists: *conventional_exists,
            },
            CargoLayout::Unknown(error) => CargoLayoutView::Unknown(error@),
        }
    }
}

/// The target directory of a project by convention.
pub open spec fn conventional_target(project: Seq<PartView>) -> Seq<PartView> {
    path::entry(project, "target"@)
}

/// The values of a list of paths.
pub open spec fn paths(list: Seq<TreePath>) -> Seq<Seq<PartView>> {
    list.map_values(|path: TreePath| path@)
}

/// The directories an action is responsible for.
pub open spec fn targets_of(
    project: Seq<PartView>,
    layout: CargoLayoutView,
) -> Seq<Seq<PartView>> {
    match layout {
        CargoLayoutView::NotCargo => seq![project],
        CargoLayoutView::Known { target, conventional_exists } => if conventional_exists {
            seq![target, conventional_target(project)]
        } else {
            seq![target]
        },
        CargoLayoutView::Unknown(_) => seq![conventional_target(project)],
    }
}

/// The failures that finding them brings.
pub open spec fn layout_errors(layout: CargoLayoutView) -> Seq<Seq<char>> {
    match layout {
        CargoLayoutView::Unknown(error) => seq![error],
        _ => Seq::empty(),
    }
}

/// The directories an action is responsible for.
///
/// A Cargo project is normally a single directory, but the live target can be
/// moved elsewhere and leave a stale one sitting in the project; both belong
/// to the action. Where Cargo could not be asked, the conventional layout is
/// the best guess.
pub fn requested_targets(
    project: &TreePath,
    layout: CargoLayout,
    errors: &mut Vec<String>,
) -> (targets: Vec<TreePath>)
    ensures
        paths(targets@) == targets_of(project@, layout@),
        text::texts(final(errors)@) == text::texts(old(errors)@) + layout_errors(layout@),
{
    let mut targets: Vec<TreePath> = Vec::new();
    match layout {
        CargoLayout::NotCargo => targets.push(project.copy()),
        CargoLayout::Known { target, conventional_exists } => {
            targets.push(target);
            if conventional_exists {
                targets.push(project.join("target"));
            }
        },
        CargoLayout::Unknown(error) => {
            errors.push(error);
            targets.push(project.join("target"));
        },
    }
    assert(paths(targets@) =~= targets_of(project@, layout@));
    assert(text::texts(errors@) =~= text::texts(old(errors)@) + layout_errors(layout@));
    targets
}

/// The seconds that Cargo has to say something about a project.
pub const METADATA_TIMEOUT_SECS: u64 = 60;

/// The arguments with which Cargo is asked about a project.
pub fn metadata_arguments() -> (arguments: Vec<String>)
    ensures
        text::texts(arguments@) == seq!["metadata"@, "--format-version"@, "1"@, "--no-deps"@],
{
    let mut arguments: Vec<String> = Vec::new();
    arguments.push("metadata".to_owned());
    arguments.push("--format-version".to_owned());
    arguments.push("1".to_owned());
    arguments.push("--no-deps".to_owned());
    assert(text::texts(arguments@) =~= seq![
        "metadata"@,
        "--format-version"@,
        "1"@,
        "--no-deps"@,
    ]);
    arguments
}

/// What Cargo has to say about a project, as long as it could be asked.
pub open spec fn metadata_of(
    output: Result<ProcessOutputView, Seq<char>>,
) -> Result<Seq<u8>, Seq<char>> {
    match output {
        Ok(output) => if output.success {
            Ok(output.stdout)
        } else {
            Err("cargo metadata failed: "@ + crate::proc::diagnostic(output.stderr))
        },
        Err(error) => Err(error),
    }
}

/// Takes what Cargo has to say about a project from the end of its process.
pub fn cargo_metadata(output: Result<ProcessOutput, String>) -> (metadata: Result<Vec<u8>, String>)
    ensures
        metadata_of(
            match output {
                Ok(output) => Ok(output@),
                Err(error) => Err(error@),
            },
        ) == (match metadata {
            Ok(bytes) => Ok::<Seq<u8>, Seq<char>>(bytes@),
            Err(error) => Err::<Seq<u8>, Seq<char>>(error@),
        }),
{
    match output {
        Ok(output) => if output.success {
            Ok(output.stdout)
        } else {
            let mut error = "cargo metadata failed: ".to_owned();
            error.append(command_diagnostic(output.stderr.as_slice()).as_str());
            Err(error)
        },
        Err(error) => Err(error),
    }
}

/// The target directory that Cargo names, if what it says could be read.
pub fn cargo_target_directory(parsed: Result<TreePath, String>) -> (target: Result<
    TreePath,
    String,
>)
    ensures
        match (parsed, target) {
            (Ok(parsed), Ok(target)) => target@ == parsed@,
            (Err(cause), Err(error)) => error@ == "could not parse cargo metadata: "@ + cause@,
            _ => false,
        },
{
    match parsed {
        Ok(target) => Ok(target),
        Err(cause) => {
            let mut error = "could not parse cargo metadata: ".to_owned();
            error.append(cause.as_str());
            Err(error)
        },
    }
}

/// The search for the deepest part of a path that exists.
#[derive(Debug)]
pub struct Nearest {
    path: TreePath,
    kept: usize,
}

/// The search as a value.
pub struct NearestView {
    pub path: Seq<PartView>,
    /// How many components are still thought to exist.
    pub kept: nat,
}

impl View for Nearest {
    type V = NearestView;

    closed spec fn view(&self) -> NearestView {
        NearestView { path: self.path@, kept: self.kept as nat }
    }
}

impl NearestView {
    pub open spec fn within(self) -> bool {
        self.kept <= self.path.len()
    }

    /// The ancestor in question.
    pub open spec fn current(self) -> Seq<PartView> {
        if self.kept == self.path.len() {
            self.path
        } else {
            path::trimmed(self.path.take(self.kept as int))
        }
    }

    /// Whether the ancestor has a parent to fall back on and a name that can
    /// be put back.
    pub open spec fn can_shorten(self) -> bool {
        self.kept > 0 && self.path[self.kept - 1].component is Name
    }

    /// One component less.
    pub open spec fn shortened(self) -> NearestView {
        NearestView { path: self.path, kept: (self.kept - 1) as nat }
    }

    /// The path, with the ancestor in its canonical form.
    pub open spec fn restored(self, canonical: Seq<PartView>) -> Seq<PartView> {
        path::extended(canonical, self.path.skip(self.kept as int))
    }
}

/// How the search goes on.
#[derive(Debug)]
pub enum NearestStep {
    /// The ancestor exists: its canonical form is wanted.
    Canonicalize,
    /// The next ancestor is looked at.
    Look,
    /// No ancestor exists: the path stays as it is.
    Unresolved,
}

/// Decides how the search goes on, once it is known whether the ancestor in
/// question exists.
///
/// The deepest existing ancestor is made canonical, so that the result
/// compares cleanly with a canonical root even when the path itself is gone.
pub fn canonicalize_nearest(nearest: &mut Nearest, exists: bool) -> (step: NearestStep)
    requires
        old(nearest)@.within(),
    ensures
        final(nearest)@.within(),
        step is Canonicalize <==> exists,
        step is Look <==> !exists && old(nearest)@.can_shorten(),
        final(nearest)@ == (if step is Look {
            old(nearest)@.shortened()
        } else {
            old(nearest)@
        }),
{
    if exists {
        return NearestStep::Canonicalize;
    }
    if nearest.kept == 0 {
        return NearestStep::Unresolved;
    }
    let named: bool = match nearest.path.parts[nearest.kept - 1].component {
        Component::Name(_) => true,
        _ => false,
    };
    if named {
        nearest.kept = nearest.kept - 1;
        NearestStep::Look
    } else {
        NearestStep::Unresolved
    }
}

impl Nearest {
    /// Begins with the path itself.
    pub fn new(path: &TreePath) -> (nearest: Nearest)
        ensures
            nearest@ == (NearestView { path: path@, kept: path@.len() }),
    {
        Nearest { path: path.copy(), kept: path.parts.len() }
    }

    /// The path that is looked for.
    pub fn path(&self) -> (path: TreePath)
        ensures
            path@ == self@.path,
    {
        self.path.copy()
    }

    /// The ancestor in question.
    pub fn current(&self) -> (current: TreePath)
        requires
            self@.within(),
        ensures
            current@ == self@.current(),
    {
        if self.kept == self.path.parts.len() {
            self.path.copy()
        } else {
            self.path.prefix(self.kept).trimmed()
        }
    }

    /// The path, with the ancestor in its canonical form.
    pub fn restored(&self, canonical: &TreePath) -> (restored: TreePath)
        requires
            self@.within(),
        ensures
            restored@ == self@.restored(canonical@),
    {
        canonical.extended(&self.path.suffix(self.kept))
    }
}

/// Whether a directory may be deleted; the refusal where not. Only what lies
/// strictly below the root may be.
pub open spec fn validated(
    canonical: Seq<PartView>,
    root: Seq<PartView>,
    platform: Platform,
) -> Result<Seq<PartView>, Seq<char>> {
    if path::beneath(canonical, root) {
        Ok(canonical)
    } else {
        Err(
            "refusing target outside cleanup root: "@ + crate::format::display_text(
                canonical,
                platform,
            ),
        )
    }
}

/// Accepts a directory that lies strictly below the root, and refuses any
/// other.
pub fn validate_target(canonical: TreePath, root: &TreePath, platform: Platform) -> (target: Result<
    TreePath,
    String,
>)
    ensures
        match target {
            Ok(path) => validated(canonical@, root@, platform) == Ok::<Seq<PartView>, Seq<char>>(
                path@,
            ),
            Err(error) => validated(canonical@, root@, platform) == Err::<
                Seq<PartView>,
                Seq<char>,
            >(error@),
        },
{
    if !canonical.same(root) && canonical.starts_with(root) {
        Ok(canonical)
    } else {
        let mut error = "refusing target outside cleanup root: ".to_owned();
        error.append(display_path(&canonical, platform).as_str());
        Err(error)
    }
}

/// Without repetitions that follow one another.
pub open spec fn deduplicated(list: Seq<Seq<PartView>>) -> Seq<Seq<PartView>>
    decreases list.len(),
{
    if list.len() <= 1 {
        list
    } else {
        let less = deduplicated(list.drop_last());
        if path::alike(less.last(), list.last()) {
            less
        } else {
            less.push(list.last())
        }
    }
}

fn deduplicate(list: Vec<TreePath>) -> (distinct: Vec<TreePath>)
    ensures
        paths(distinct@) == deduplicated(paths(list@)),
        list@.len() > 0 ==> distinct@.len() > 0,
{
    let ghost all = paths(list@);
    if list.len() == 0 {
        return list;
    }
    let mut distinct: Vec<TreePath> = Vec::new();
    distinct.push(list[0].copy());
    let mut index: usize = 1;
    assert(paths(distinct@) =~= all.take(1));
    assert(deduplicated(all.take(1)) =~= all.take(1));
    while index < list.len()
        invariant
            1 <= index <= list.len(),
            all == paths(list@),
            distinct@.len() > 0,
            paths(distinct@) == deduplicated(all.take(index as int)),
        decreases list.len() - index,
    {
        let ghost before = distinct@;
        assert(all.take(index + 1).drop_last() =~= all.take(index as int));
        assert(paths(distinct@).last() == distinct@[distinct@.len() - 1]@);
        assert(all[index as int] == list@[index as int]@);
        if !distinct[distinct.len() - 1].same(&list[index]) {
            distinct.push(list[index].copy());
            assert(paths(distinct@) =~= paths(before).push(list@[index as int]@));
        }
        index = index + 1;
    }
    assert(all.take(all.len() as int) =~= all);
    distinct
}

/// An entry of a directory: its name, and whether it is a directory.
pub type ListedEntry = (Vec<u8>, bool);

/// The values of a listing.
pub open spec fn listing_of(entries: Seq<ListedEntry>) -> Seq<(Seq<u8>, bool)> {
    entries.map_values(|entry: ListedEntry| (entry.0@, entry.1))
}

/// The directories among the entries of a directory.
pub open spec fn subdirectories(
    directory: Seq<PartView>,
    listing: Seq<(Seq<u8>, bool)>,
) -> Seq<Seq<PartView>>
    decreases listing.len(),
{
    if listing.len() == 0 {
        Seq::empty()
    } else {
        let before = subdirectories(directory, listing.drop_last());
        if listing.last().1 {
            before.push(path::child(directory, listing.last().0))
        } else {
            before
        }
    }
}

/// The target directory that a directory sits in, if it does.
pub open spec fn enclosing_target(directory: Seq<PartView>) -> Seq<Seq<PartView>> {
    match path::parent_of(directory) {
        Some(parent) => if path::name_of(parent) == Some(
            vstd::utf8::encode_utf8("target"@),
        ) {
            seq![parent]
        } else {
            Seq::empty()
        },
        None => Seq::empty(),
    }
}

/// Where the locks of a build may be: in the target directory, in the one
/// around a bare debug directory, and in the directory of each profile.
pub open spec fn lock_scopes(
    target: Seq<PartView>,
    listing: Seq<(Seq<u8>, bool)>,
) -> Seq<Seq<PartView>> {
    seq![target] + enclosing_target(target) + subdirectories(target, listing)
}

/// The lock files of a directory, in the order in which they are tried. Cargo
/// keeps one per profile directory, and older versions kept one at the root
/// of the target; any of them being held means that a build is live.
pub open spec fn lock_files(directory: Seq<PartView>) -> Seq<Seq<PartView>> {
    seq![
        path::entry(directory, ".cargo-lock"@),
        path::entry(directory, ".cargo-build-lock"@),
        path::entry(directory, ".cargo-artifact-lock"@),
    ]
}

/// The lock files of several directories.
pub open spec fn all_lock_files(directories: Seq<Seq<PartView>>) -> Seq<Seq<PartView>>
    decreases directories.len(),
{
    if directories.len() == 0 {
        Seq::empty()
    } else {
        all_lock_files(directories.drop_last()) + lock_files(directories.last())
    }
}

/// The lock files that tell of a build under a target directory.
pub open spec fn build_locks(
    target: Seq<PartView>,
    listing: Seq<(Seq<u8>, bool)>,
) -> Seq<Seq<PartView>> {
    all_lock_files(lock_scopes(target, listing))
}

fn find_enclosing_target(directory: &TreePath) -> (found: Option<TreePath>)
    ensures
        enclosing_target(directory@) == (match found {
            Some(parent) => seq![parent@],
            None => Seq::empty(),
        }),
{
    match directory.parent() {
        None => None,
        Some(parent) => match parent.file_name() {
            None => None,
            Some(name) => {
                let wanted = "target".as_bytes_vec();
                proof {
                    path::lemma_bytes_place_same(name@, wanted@);
                }
                if path::compare_bytes(&name, &wanted) == path::Place::Same {
                    Some(parent)
                } else {
                    None
                }
            },
        },
    }
}

/// The lock files that tell of a build under a target directory, of which the
/// entries are given; none where it could not be listed.
pub fn held_build_lock(target: &TreePath, entries: &Vec<ListedEntry>) -> (candidates: Vec<TreePath>)
    ensures
        paths(candidates@) == build_locks(target@, listing_of(entries@)),
{
    let ghost listing = listing_of(entries@);
    let mut scopes: Vec<TreePath> = Vec::new();
    scopes.push(target.copy());
    assert(paths(scopes@) =~= seq![target@]);
    match find_enclosing_target(target) {
        Some(parent) => {
            let ghost before = scopes@;
            scopes.push(parent);
            assert(paths(scopes@) =~= paths(before).push(parent@));
        },
        None => {},
    }
    assert(paths(scopes@) =~= seq![target@] + enclosing_target(target@));
    let ghost fixed = paths(scopes@);
    let mut index: usize = 0;
    assert(subdirectories(target@, listing.take(0)) =~= Seq::empty());
    assert(paths(scopes@) =~= fixed + subdirectories(target@, listing.take(0)));
    while index < entries.len()
        invariant
            index <= entries.len(),
            listing == listing_of(entries@),
            paths(scopes@) == fixed + subdirectories(target@, listing.take(index as int)),
        decreases entries.len() - index,
    {
        let ghost before = scopes@;
        assert(listing.take(index + 1).drop_last() =~= listing.take(index as int));
        assert(listing.take(index + 1).last() == (
            entries@[index as int].0@,
            entries@[index as int].1,
        ));
        if entries[index].1 {
            let name = entries[index].0.clone();
            assert(name@ =~= entries@[index as int].0@);
            scopes.push(target.join_bytes(name));
            assert(paths(scopes@) =~= paths(before).push(
                path::child(target@, entries@[index as int].0@),
            ));
        }
        index = index + 1;
        assert(paths(scopes@) =~= fixed + subdirectories(target@, listing.take(index as int)));
    }
    assert(listing.take(listing.len() as int) =~= listing);
    let ghost all = paths(scopes@);
    assert(all == lock_scopes(target@, listing));
    let mut candidates: Vec<TreePath> = Vec::new();
    let mut at: usize = 0;
    assert(paths(candidates@) =~= all_lock_files(all.take(0)));
    while at < scopes.len()
        invariant
            at <= scopes.len(),
            all == paths(scopes@),
            paths(candidates@) == all_lock_files(all.take(at as int)),
        decreases scopes.len() - at,
    {
        let ghost before = candidates@;
        assert(all.take(at + 1).drop_last() =~= all.take(at as int));
        assert(all.take(at + 1).last() == scopes@[at as int]@);
        candidates.push(scopes[at].join(".cargo-lock"));
        candidates.push(scopes[at].join(".cargo-build-lock"));
        candidates.push(scopes[at].join(".cargo-artifact-lock"));
        assert(paths(candidates@) =~= paths(before) + lock_files(scopes@[at as int]@));
        at = at + 1;
    }
    assert(all.take(all.len() as int) =~= all);
    candidates
}

/// What came of trying to take a lock file.
#[derive(Clone, Copy, Debug, PartialEq, Eq, Structural)]
pub enum LockProbe {
    /// It could not be opened.
    Unopened,
    /// It was free, and has been let go again.
    Free,
    /// Someone else holds it.
    Held,
    /// It could not be tried.
    Untried,
}

/// Whether a lock is held. Only a lock that someone else holds counts: one
/// that cannot be tried tells nothing.
pub fn is_locked(probe: LockProbe) -> (locked: bool)
    ensures
        locked == (probe == LockProbe::Held),
{
    probe == LockProbe::Held
}

/// What an action comes to.
#[derive(Debug)]
pub struct Completion {
    pub path: TreePath,
    pub errors: Vec<String>,
    pub error_count: u64,
    pub reclaimed_bytes: u64,
    pub files_removed: u64,
    pub skipped: bool,
}

/// What an action comes to, as a value.
#[verifier::ext_equal]
pub struct CompletionView {
    pub path: Seq<PartView>,
    pub errors: Seq<Seq<char>>,
    pub error_count: nat,
    pub reclaimed_bytes: nat,
    pub files_removed: nat,
    pub skipped: bool,
}

impl View for Completion {
    type V = CompletionView;

    open spec fn view(&self) -> CompletionView {
        CompletionView {
            path: self.path@,
            errors: text::texts(self.errors@),
            error_count: self.error_count as nat,
            reclaimed_bytes: self.reclaimed_bytes as nat,
            files_removed: self.files_removed as nat,
            skipped: self.skipped,
        }
    }
}

impl Completion {
    /// The report of an action that took so long.
    pub fn into_report(self, kind: ActionKind, elapsed: Span) -> (report: ActionReport)
        ensures
            report.kind == kind,
            report.elapsed == elapsed,
            report.path@ == self@.path,
            text::texts(report.errors@) == self@.errors,
            report.error_count == self@.error_count,
            report.reclaimed_bytes == self@.reclaimed_bytes,
            report.files_removed == self@.files_removed,
            report.skipped == self@.skipped,
    {
        ActionReport {
            kind,
            path: self.path,
            reclaimed_bytes: self.reclaimed_bytes,
            files_removed: self.files_removed,
            elapsed,
            errors: self.errors,
            error_count: self.error_count,
            skipped: self.skipped,
        }
    }
}

/// What the execution of an action asks for.
#[derive(Debug, PartialEq, Eq)]
pub enum ExecutionRequest {
    /// The target directory that Cargo names for a project.
    CargoMetadata(TreePath),
    /// Whether a path is a directory.
    IsDirectory(TreePath),
    /// Whether there is anything at a path.
    Exists(TreePath),
    /// The canonical form of a path.
    Canonicalize(TreePath),
    /// The entries of a directory.
    List(TreePath),
    /// Whether a lock file is held by someone else.
    IsLocked(TreePath),
    /// The size of a tree.
    Measure(TreePath),
    /// Take the time anew, so that measuring is not reported as deleting.
    RestartClock,
    /// Whether a path overlaps one that is being worked on.
    IsContended(TreePath),
    /// Take a path to work on, however long that takes.
    Acquire(TreePath),
    /// Delete a tree.
    Remove(TreePath),
    /// Give the path back.
    Release(TreePath),
    /// Nothing: the action is complete.
    Finished,
}

/// What is answered.
#[derive(Debug)]
pub enum ExecutionReply {
    Metadata(Result<TreePath, String>),
    Found(bool),
    Canonical(Result<TreePath, String>),
    Listed(Vec<ListedEntry>),
    Measured(u64),
    Removed(RemovalOutcome),
    /// What was asked for has been done.
    Done,
}

/// A request as a value.
pub enum ExecutionRequestView {
    CargoMetadata(Seq<PartView>),
    IsDirectory(Seq<PartView>),
    Exists(Seq<PartView>),
    Canonicalize(Seq<PartView>),
    List(Seq<PartView>),
    IsLocked(Seq<PartView>),
    Measure(Seq<PartView>),
    RestartClock,
    IsContended(Seq<PartView>),
    Acquire(Seq<PartView>),
    Remove(Seq<PartView>),
    Release(Seq<PartView>),
    Finished,
}

/// An answer as a value.
pub enum ExecutionReplyView {
    Metadata(Result<Seq<PartView>, Seq<char>>),
    Found(bool),
    Canonical(Result<Seq<PartView>, Seq<char>>),
    Listed(Seq<(Seq<u8>, bool)>),
    Measured(u64),
    Removed(RemovalOutcomeView),
    Done,
}

/// A path or an error, as a value.
pub open spec fn result_view(result: Result<TreePath, String>) -> Result<Seq<PartView>, Seq<char>> {
    match result {
        Ok(path) => Ok(path@),
        Err(error) => Err(error@),
    }
}

impl View for ExecutionRequest {
    type V = ExecutionRequestView;

    open spec fn view(&self) -> ExecutionRequestView {
        match self {
            ExecutionRequest::CargoMetadata(path) => ExecutionRequestView::CargoMetadata(path@),
            ExecutionRequest::IsDirectory(path) => ExecutionRequestView::IsDirectory(path@),
            ExecutionRequest::Exists(path) => ExecutionRequestView::Exists(path@),
            ExecutionRequest::Canonicalize(path) => ExecutionRequestView::Canonicalize(path@),
            ExecutionRequest::List(path) => ExecutionRequestView::List(path@),
            ExecutionRequest::IsLocked(path) => ExecutionRequestView::IsLocked(path@),
            ExecutionRequest::Measure(path) => ExecutionRequestView::Measure(path@),
            ExecutionRequest::RestartClock => ExecutionRequestView::RestartClock,
            ExecutionRequest::IsContended(path) => ExecutionRequestView::IsContended(path@),
            ExecutionRequest::Acquire(path) => ExecutionRequestView::Acquire(path@),
            ExecutionRequest::Remove(path) => ExecutionRequestView::Remove(path@),
            ExecutionRequest::Release(path) => ExecutionRequestView::Release(path@),
            ExecutionRequest::Finished => ExecutionRequestView::Finished,
        }
    }
}

impl View for ExecutionReply {
    type V = ExecutionReplyView;

    open spec fn view(&self) -> ExecutionReplyView {
        match self {
            ExecutionReply::Metadata(result) => ExecutionReplyView::Metadata(result_view(*result)),
            ExecutionReply::Found(found) => ExecutionReplyView::Found(*found),
            ExecutionReply::Canonical(result) => ExecutionReplyView::Canonical(
                result_view(*result),
            ),
            ExecutionReply::Listed(entries) => ExecutionReplyView::Listed(listing_of(entries@)),
            ExecutionReply::Measured(bytes) => ExecutionReplyView::Measured(*bytes),
            ExecutionReply::Removed(outcome) => ExecutionReplyView::Removed(outcome@),
            ExecutionReply::Done => ExecutionReplyView::Done,
        }
    }
}

/// What the execution waits for.
#[derive(Debug)]
enum ExecutionPhase {
    AskingCargo,
    SeekingConventional { target: TreePath },
    Seeking { nearest: Nearest },
    Resolving { nearest: Nearest },
    ListingProfiles { index: usize },
    Probing { index: usize, candidates: Vec<TreePath>, at: usize },
    Measuring { index: usize, total: u64 },
    Restarting,
    Contending { index: usize },
    Acquiring { index: usize },
    Removing { index: usize },
    Releasing { index: usize, cancelled: bool },
    Finished,
}

/// What the execution waits for, as a value.
pub enum ExecutionPhaseView {
    /// The target directory that Cargo names.
    AskingCargo,
    /// Whether the conventional target exists beside the named one.
    SeekingConventional { target: Seq<PartView> },
    /// Whether an ancestor of a requested directory exists.
    Seeking { nearest: NearestView },
    /// The canonical form of that ancestor.
    Resolving { nearest: NearestView },
    /// The entries of a target.
    ListingProfiles { index: nat },
    /// Whether a lock file is held.
    Probing { index: nat, candidates: Seq<Seq<PartView>>, at: nat },
    /// The size of a target, with that of those before it.
    Measuring { index: nat, total: nat },
    /// The new start of the clock.
    Restarting,
    /// Whether a target overlaps one that is being worked on.
    Contending { index: nat },
    /// The right to work on a target.
    Acquiring { index: nat },
    /// The end of a target.
    Removing { index: nat },
    /// That the right has been given back.
    Releasing { index: nat, cancelled: bool },
    Finished,
}

impl ExecutionPhase {
    spec fn view(&self) -> ExecutionPhaseView {
        match self {
            ExecutionPhase::AskingCargo => ExecutionPhaseView::AskingCargo,
            ExecutionPhase::SeekingConventional { target } => {
                ExecutionPhaseView::SeekingConventional { target: target@ }
            },
            ExecutionPhase::Seeking { nearest } => ExecutionPhaseView::Seeking {
                nearest: nearest@,
            },
            ExecutionPhase::Resolving { nearest } => ExecutionPhaseView::Resolving {
                nearest: nearest@,
            },
            ExecutionPhase::ListingProfiles { index } => ExecutionPhaseView::ListingProfiles {
                index: *index as nat,
            },
            ExecutionPhase::Probing { index, candidates, at } => ExecutionPhaseView::Probing {
                index: *index as nat,
                candidates: paths(candidates@),
                at: *at as nat,
            },
            ExecutionPhase::Measuring { index, total } => ExecutionPhaseView::Measuring {
                index: *index as nat,
                total: *total as nat,
            },
            ExecutionPhase::Restarting => ExecutionPhaseView::Restarting,
            ExecutionPhase::Contending { index } => ExecutionPhaseView::Contending {
                index: *index as nat,
            },
            ExecutionPhase::Acquiring { index } => ExecutionPhaseView::Acquiring {
                index: *index as nat,
            },
            ExecutionPhase::Removing { index } => ExecutionPhaseView::Removing {
                index: *index as nat,
            },
            ExecutionPhase::Releasing { index, cancelled } => ExecutionPhaseView::Releasing {
                index: *index as nat,
                cancelled: *cancelled,
            },
            ExecutionPhase::Finished => ExecutionPhaseView::Finished,
        }
    }
}

/// An action being carried out.
#[derive(Debug)]
pub struct Execution {
    action: Action,
    root: TreePath,
    platform: Platform,
    requested: Vec<TreePath>,
    targets: Vec<TreePath>,
    completion: Completion,
    phase: ExecutionPhase,
}

/// An action being carried out, as a value.
#[verifier::ext_equal]
pub struct ExecutionView {
    pub action: ActionView,
    pub root: Seq<PartView>,
    pub platform: Platform,
    /// The directories still to be looked at.
    pub requested: Seq<Seq<PartView>>,
    /// The directories that may be deleted.
    pub targets: Seq<Seq<PartView>>,
    pub completion: CompletionView,
    pub phase: ExecutionPhaseView,
}

impl View for Execution {
    type V = ExecutionView;

    closed spec fn view(&self) -> ExecutionView {
        ExecutionView {
            action: self.action@,
            root: self.root@,
            platform: self.platform,
            requested: paths(self.requested@),
            targets: paths(self.targets@),
            completion: self.completion@,
            phase: self.phase.view(),
        }
    }
}

impl ExecutionView {
    pub open spec fn waiting(self, phase: ExecutionPhaseView) -> ExecutionView {
        ExecutionView { phase, ..self }
    }

    pub open spec fn with_error(self, error: Seq<char>) -> ExecutionView {
        ExecutionView {
            completion: CompletionView {
                errors: self.completion.errors.push(error),
                ..self.completion
            },
            ..self
        }
    }

    /// How a path is shown.
    pub open spec fn shown(self, path: Seq<PartView>) -> Seq<char> {
        crate::format::display_text(path, self.platform)
    }

    /// Whether a build can be using the directories of the action.
    pub open spec fn builds_here(self) -> bool {
        self.action.kind == ActionKind::Cargo || self.action.kind == ActionKind::Debug
    }

    /// All failures so far count.
    pub open spec fn with_errors_counted(self) -> ExecutionView {
        ExecutionView {
            completion: CompletionView {
                error_count: self.completion.errors.len(),
                ..self.completion
            },
            ..self
        }
    }

    /// On to measuring the targets.
    pub open spec fn sizing(self) -> ExecutionView {
        self.with_errors_counted().waiting(ExecutionPhaseView::Measuring { index: 0, total: 0 })
    }

    /// On to the next target that a build may be using, or to measuring.
    pub open spec fn seeking_builds(self, index: nat) -> ExecutionView {
        if index < self.targets.len() {
            self.waiting(ExecutionPhaseView::ListingProfiles { index })
        } else {
            self.sizing()
        }
    }

    /// On to the next lock file, or to the next target.
    pub open spec fn probing(
        self,
        index: nat,
        candidates: Seq<Seq<PartView>>,
        at: nat,
    ) -> ExecutionView {
        if at < candidates.len() {
            self.waiting(ExecutionPhaseView::Probing { index, candidates, at })
        } else {
            self.seeking_builds(index + 1)
        }
    }

    /// Every requested directory has been looked at. Their canonical forms
    /// collapse two spellings of one directory.
    pub open spec fn settled(self) -> ExecutionView {
        let targets = deduplicated(self.targets);
        let distinct = ExecutionView { targets, ..self };
        if targets.len() == 0 {
            distinct.with_errors_counted().waiting(ExecutionPhaseView::Finished)
        } else {
            let named = ExecutionView {
                completion: CompletionView { path: targets[0], ..distinct.completion },
                ..distinct
            };
            if named.builds_here() {
                named.seeking_builds(0)
            } else {
                named.sizing()
            }
        }
    }

    /// On to the next requested directory.
    pub open spec fn seeking(self) -> ExecutionView {
        if self.requested.len() == 0 {
            self.settled()
        } else {
            let path = self.requested[0];
            self.waiting(
                ExecutionPhaseView::Seeking { nearest: NearestView { path, kept: path.len() } },
            )
        }
    }

    /// With a requested directory looked at.
    pub open spec fn looked_at(self) -> ExecutionView {
        ExecutionView { requested: self.requested.remove(0), ..self }
    }

    /// With a requested directory accepted or refused.
    pub open spec fn judged(self, canonical: Seq<PartView>) -> ExecutionView {
        match validated(canonical, self.root, self.platform) {
            Ok(target) => ExecutionView {
                targets: self.targets.push(target),
                ..self.looked_at()
            }.seeking(),
            Err(error) => self.looked_at().with_error(error).seeking(),
        }
    }

    /// With what is known of the directories the action is responsible for.
    pub open spec fn informed(self, layout: CargoLayoutView) -> ExecutionView {
        ExecutionView {
            requested: targets_of(self.action.path, layout),
            completion: CompletionView {
                errors: self.completion.errors + layout_errors(layout),
                ..self.completion
            },
            ..self
        }.seeking()
    }

    /// A build is using a target: everything is left alone. That is reported
    /// but is no failure; the failures before it still count.
    pub open spec fn skipping(self, lock: Seq<PartView>) -> ExecutionView {
        let noted = self.with_errors_counted().with_error(
            "build in progress ("@ + self.shown(lock) + " is locked); left alone"@,
        );
        ExecutionView {
            completion: CompletionView { skipped: true, ..noted.completion },
            ..noted
        }.waiting(ExecutionPhaseView::Finished)
    }

    /// With the end of a target.
    pub open spec fn removed(self, outcome: RemovalOutcomeView) -> ExecutionView {
        ExecutionView {
            completion: CompletionView {
                reclaimed_bytes: self.completion.reclaimed_bytes + outcome.bytes_removed as nat,
                files_removed: self.completion.files_removed + outcome.files_removed as nat,
                error_count: self.completion.error_count + outcome.error_count as nat,
                errors: self.completion.errors + outcome.errors,
                ..self.completion
            },
            ..self
        }
    }

    /// On to the next target, or to the end.
    pub open spec fn deleting(self, index: nat) -> ExecutionView {
        if index < self.targets.len() {
            self.waiting(ExecutionPhaseView::Contending { index })
        } else {
            self.waiting(ExecutionPhaseView::Finished)
        }
    }

    /// Given up before its end.
    pub open spec fn cancelled(self) -> ExecutionView {
        let noted = self.with_error("cancelled before completion"@);
        ExecutionView {
            completion: CompletionView {
                error_count: noted.completion.error_count + 1,
                ..noted.completion
            },
            ..noted
        }.waiting(ExecutionPhaseView::Finished)
    }

    /// What the execution asks for.
    pub open spec fn request(self) -> ExecutionRequestView {
        match self.phase {
            ExecutionPhaseView::AskingCargo => ExecutionRequestView::CargoMetadata(
                self.action.path,
            ),
            ExecutionPhaseView::SeekingConventional { target } => {
                ExecutionRequestView::IsDirectory(conventional_target(self.action.path))
            },
            ExecutionPhaseView::Seeking { nearest } => ExecutionRequestView::Exists(
                nearest.current(),
            ),
            ExecutionPhaseView::Resolving { nearest } => ExecutionRequestView::Canonicalize(
                nearest.current(),
            ),
            ExecutionPhaseView::ListingProfiles { index } => ExecutionRequestView::List(
                self.targets[index as int],
            ),
            ExecutionPhaseView::Probing { index, candidates, at } => ExecutionRequestView::IsLocked(
                candidates[at as int],
            ),
            ExecutionPhaseView::Measuring { index, total } => ExecutionRequestView::Measure(
                self.targets[index as int],
            ),
            ExecutionPhaseView::Restarting => ExecutionRequestView::RestartClock,
            ExecutionPhaseView::Contending { index } => ExecutionRequestView::IsContended(
                self.targets[index as int],
            ),
            ExecutionPhaseView::Acquiring { index } => ExecutionRequestView::Acquire(
                self.targets[index as int],
            ),
            ExecutionPhaseView::Removing { index } => ExecutionRequestView::Remove(
                self.targets[index as int],
            ),
            ExecutionPhaseView::Releasing { index, cancelled } => ExecutionRequestView::Release(
                self.targets[index as int],
            ),
            ExecutionPhaseView::Finished => ExecutionRequestView::Finished,
        }
    }

    /// Whether an answer is one to what the execution asks for.
    pub open spec fn awaits(self, reply: ExecutionReplyView) -> bool {
        match reply {
            ExecutionReplyView::Metadata(_) => self.phase is AskingCargo,
            ExecutionReplyView::Found(_) => {
                self.phase is SeekingConventional || self.phase is Seeking || self.phase is Probing
                    || self.phase is Contending
            },
            ExecutionReplyView::Canonical(_) => self.phase is Resolving,
            ExecutionReplyView::Listed(_) => self.phase is ListingProfiles,
            ExecutionReplyView::Measured(_) => self.phase is Measuring,
            ExecutionReplyView::Removed(_) => self.phase is Removing,
            ExecutionReplyView::Done => {
                self.phase is Restarting || self.phase is Acquiring || self.phase is Releasing
            },
        }
    }

    /// Whether the counters can take an answer.
    pub open spec fn has_room(self, reply: ExecutionReplyView) -> bool {
        match (self.phase, reply) {
            (
                ExecutionPhaseView::Measuring { index, total },
                ExecutionReplyView::Measured(bytes),
            ) => total + bytes <= u64::MAX,
            (ExecutionPhaseView::Removing { index }, ExecutionReplyView::Removed(outcome)) => {
                &&& self.completion.reclaimed_bytes + outcome.bytes_removed <= u64::MAX
                &&& self.completion.files_removed + outcome.files_removed <= u64::MAX
                &&& self.completion.error_count + outcome.error_count + (if outcome.cancelled {
                    1int
                } else {
                    0int
                }) <= u64::MAX
            },
            _ => true,
        }
    }

    /// The execution waits for something that is there.
    pub open spec fn coherent(self) -> bool {
        match self.phase {
            ExecutionPhaseView::Seeking { nearest } => {
                self.requested.len() > 0 && nearest.within() && nearest.path == self.requested[0]
            },
            ExecutionPhaseView::Resolving { nearest } => {
                self.requested.len() > 0 && nearest.within() && nearest.path == self.requested[0]
            },
            ExecutionPhaseView::ListingProfiles { index } => index < self.targets.len(),
            ExecutionPhaseView::Probing { index, candidates, at } => {
                index < self.targets.len() && at < candidates.len()
            },
            ExecutionPhaseView::Measuring { index, total } => {
                index < self.targets.len() && total <= u64::MAX
            },
            ExecutionPhaseView::Restarting => self.targets.len() > 0,
            ExecutionPhaseView::Contending { index } => index < self.targets.len(),
            ExecutionPhaseView::Acquiring { index } => index < self.targets.len(),
            ExecutionPhaseView::Removing { index } => index < self.targets.len(),
            ExecutionPhaseView::Releasing { index, cancelled } => {
                index < self.targets.len() && (cancelled ==> self.completion.error_count < u64::MAX)
            },
            _ => true,
        }
    }

    /// The execution after an answer.
    pub open spec fn after(self, reply: ExecutionReplyView) -> ExecutionView {
        match (self.phase, reply) {
            (ExecutionPhaseView::AskingCargo, ExecutionReplyView::Metadata(result)) => match result {
                Ok(target) => self.waiting(ExecutionPhaseView::SeekingConventional { target }),
                Err(error) => self.informed(CargoLayoutView::Unknown(error)),
            },
            (
                ExecutionPhaseView::SeekingConventional { target },
                ExecutionReplyView::Found(found),
            ) => self.informed(CargoLayoutView::Known { target, conventional_exists: found }),
            (ExecutionPhaseView::Seeking { nearest }, ExecutionReplyView::Found(found)) => if found {
                self.waiting(ExecutionPhaseView::Resolving { nearest })
            } else if nearest.can_shorten() {
                self.waiting(ExecutionPhaseView::Seeking { nearest: nearest.shortened() })
            } else {
                self.judged(nearest.path)
            },
            (
                ExecutionPhaseView::Resolving { nearest },
                ExecutionReplyView::Canonical(result),
            ) => match result {
                Ok(canonical) => self.judged(nearest.restored(canonical)),
                Err(error) => self.looked_at().with_error(
                    "cannot canonicalize "@ + self.shown(nearest.current()) + ": "@ + error,
                ).seeking(),
            },
            (
                ExecutionPhaseView::ListingProfiles { index },
                ExecutionReplyView::Listed(listing),
            ) => self.probing(index, build_locks(self.targets[index as int], listing), 0),
            (
                ExecutionPhaseView::Probing { index, candidates, at },
                ExecutionReplyView::Found(locked),
            ) => if locked {
                self.skipping(candidates[at as int])
            } else {
                self.probing(index, candidates, at + 1)
            },
            (
                ExecutionPhaseView::Measuring { index, total },
                ExecutionReplyView::Measured(bytes),
            ) => if index + 1 < self.targets.len() {
                self.waiting(
                    ExecutionPhaseView::Measuring { index: index + 1, total: total + bytes as nat },
                )
            } else {
                self.waiting(ExecutionPhaseView::Restarting)
            },
            (ExecutionPhaseView::Restarting, ExecutionReplyView::Done) => self.deleting(0),
            (ExecutionPhaseView::Contending { index }, ExecutionReplyView::Found(_)) => {
                self.waiting(ExecutionPhaseView::Acquiring { index })
            },
            (ExecutionPhaseView::Acquiring { index }, ExecutionReplyView::Done) => self.waiting(
                ExecutionPhaseView::Removing { index },
            ),
            (
                ExecutionPhaseView::Removing { index },
                ExecutionReplyView::Removed(outcome),
            ) => self.removed(outcome).waiting(
                ExecutionPhaseView::Releasing { index, cancelled: outcome.cancelled },
            ),
            (
                ExecutionPhaseView::Releasing { index, cancelled },
                ExecutionReplyView::Done,
            ) => if cancelled {
                self.cancelled()
            } else {
                self.deleting(index + 1)
            },
            _ => self,
        }
    }

    /// What an answer does to the counters of the action.
    pub open spec fn progressed(
        self,
        reply: ExecutionReplyView,
        progress: ProgressView,
    ) -> ProgressView {
        match (self.phase, reply) {
            (
                ExecutionPhaseView::Measuring { index, total },
                ExecutionReplyView::Measured(bytes),
            ) => if index + 1 < self.targets.len() {
                progress
            } else {
                ProgressView { total: Some((total + bytes) as u64), ..progress }
            },
            (ExecutionPhaseView::Contending { index }, ExecutionReplyView::Found(true)) => {
                ProgressView { state: ActionState::Waiting, ..progress }
            },
            (ExecutionPhaseView::Acquiring { index }, ExecutionReplyView::Done) => ProgressView {
                state: ActionState::Deleting,
                ..progress
            },
            _ => if self.after(reply).phase is Measuring {
                ProgressView { state: ActionState::Sizing, ..progress }
            } else {
                progress
            },
        }
    }
}

/// An execution that begins.
pub open spec fn execution_begun(
    action: ActionView,
    root: Seq<PartView>,
    platform: Platform,
) -> ExecutionView {
    let fresh = ExecutionView {
        action,
        root,
        platform,
        requested: Seq::empty(),
        targets: Seq::empty(),
        completion: CompletionView {
            path: action.path,
            errors: Seq::empty(),
            error_count: 0,
            reclaimed_bytes: 0,
            files_removed: 0,
            skipped: false,
        },
        phase: ExecutionPhaseView::AskingCargo,
    };
    if action.kind == ActionKind::Cargo {
        fresh
    } else {
        fresh.informed(CargoLayoutView::NotCargo)
    }
}

/// The counters, with the action measuring if it is.
pub open spec fn shown_sizing(progress: ProgressView, execution: ExecutionView) -> ProgressView {
    if execution.phase is Measuring {
        ProgressView { state: ActionState::Sizing, ..progress }
    } else {
        progress
    }
}

impl Execution {
    /// Begins to carry out an action.
    pub fn new(action: &Action, root: &TreePath, platform: Platform) -> (execution: Execution)
        ensures
            execution@ == execution_begun(action@, root@, platform),
            execution@.coherent(),
    {
        let mut execution = Execution {
            action: action.copy(),
            root: root.copy(),
            platform,
            requested: Vec::new(),
            targets: Vec::new(),
            completion: Completion {
                path: action.path.copy(),
                errors: Vec::new(),
                error_count: 0,
                reclaimed_bytes: 0,
                files_removed: 0,
                skipped: false,
            },
            phase: ExecutionPhase::AskingCargo,
        };
        let ghost fresh = execution@;
        assert(fresh.requested =~= Seq::empty());
        assert(fresh.targets =~= Seq::empty());
        assert(fresh.completion.errors =~= Seq::empty());
        if action.kind != ActionKind::Cargo {
            let nearest = Nearest::new(&action.path);
            execution.requested = requested_targets(
                &action.path,
                CargoLayout::NotCargo,
                &mut execution.completion.errors,
            );
            execution.phase = ExecutionPhase::Seeking { nearest };
            assert(execution@ =~= fresh.informed(CargoLayoutView::NotCargo));
        }
        execution
    }

    /// Whether the counters can take an answer.
    pub fn has_room(&self, reply: &ExecutionReply) -> (room: bool)
        requires
            self@.coherent(),
        ensures
            room == self@.has_room(reply@),
    {
        match (&self.phase, reply) {
            (ExecutionPhase::Measuring { index, total }, ExecutionReply::Measured(bytes)) => {
                *bytes <= u64::MAX - *total
            },
            (ExecutionPhase::Removing { index }, ExecutionReply::Removed(outcome)) => {
                let failures_left: u64 = u64::MAX - self.completion.error_count;
                outcome.bytes_removed <= u64::MAX - self.completion.reclaimed_bytes
                    && outcome.files_removed <= u64::MAX - self.completion.files_removed
                    && outcome.error_count <= failures_left && (!outcome.cancelled
                    || outcome.error_count < failures_left)
            },
            _ => true,
        }
    }

    /// What the execution asks for.
    pub fn request(&self) -> (request: ExecutionRequest)
        requires
            self@.coherent(),
        ensures
            request@ == self@.request(),
    {
        match &self.phase {
            ExecutionPhase::AskingCargo => {
                ExecutionRequest::CargoMetadata(self.action.path.copy())
            },
            ExecutionPhase::SeekingConventional { target } => {
                ExecutionRequest::IsDirectory(self.action.path.join("target"))
            },
            ExecutionPhase::Seeking { nearest } => ExecutionRequest::Exists(nearest.current()),
            ExecutionPhase::Resolving { nearest } => {
                ExecutionRequest::Canonicalize(nearest.current())
            },
            ExecutionPhase::ListingProfiles { index } => {
                ExecutionRequest::List(self.targets[*index].copy())
            },
            ExecutionPhase::Probing { index, candidates, at } => {
                ExecutionRequest::IsLocked(candidates[*at].copy())
            },
            ExecutionPhase::Measuring { index, total } => {
                ExecutionRequest::Measure(self.targets[*index].copy())
            },
            ExecutionPhase::Restarting => ExecutionRequest::RestartClock,
            ExecutionPhase::Contending { index } => {
                ExecutionRequest::IsContended(self.targets[*index].copy())
            },
            ExecutionPhase::Acquiring { index } => {
                ExecutionRequest::Acquire(self.targets[*index].copy())
            },
            ExecutionPhase::Removing { index } => {
                ExecutionRequest::Remove(self.targets[*index].copy())
            },
            ExecutionPhase::Releasing { index, cancelled } => {
                ExecutionRequest::Release(self.targets[*index].copy())
            },
            ExecutionPhase::Finished => ExecutionRequest::Finished,
        }
    }

    fn wait(&mut self, phase: ExecutionPhase)
        ensures
            final(self)@ == old(self)@.waiting(phase.view()),
    {
        self.phase = phase;
    }

    fn note(&mut self, error: String)
        ensures
            final(self)@ == old(self)@.with_error(error@),
    {
        self.completion.errors.push(error);
        proof {
            text::lemma_texts_push(old(self).completion.errors@, error);
        }
        assert(self@ =~= old(self)@.with_error(error@));
    }

    fn count_errors(&mut self)
        ensures
            final(self)@ == old(self)@.with_errors_counted(),
    {
        self.completion.error_count = self.completion.errors.len() as u64;
        assert(self@ =~= old(self)@.with_errors_counted());
    }

    fn size(&mut self, progress: &mut Progress)
        requires
            old(self)@.targets.len() > 0,
        ensures
            final(self)@ == old(self)@.sizing(),
            final(self)@.coherent(),
            final(progress)@ == shown_sizing(old(progress)@, final(self)@),
    {
        self.count_errors();
        self.wait(ExecutionPhase::Measuring { index: 0, total: 0 });
        progress.set_state(ActionState::Sizing);
    }

    fn seek_builds(&mut self, index: usize, progress: &mut Progress)
        requires
            old(self)@.targets.len() > 0,
        ensures
            final(self)@ == old(self)@.seeking_builds(index as nat),
            final(self)@.coherent(),
            final(progress)@ == shown_sizing(old(progress)@, final(self)@),
    {
        if index < self.targets.len() {
            self.wait(ExecutionPhase::ListingProfiles { index });
        } else {
            self.size(progress);
        }
    }

    fn probe(
        &mut self,
        index: usize,
        candidates: Vec<TreePath>,
        at: usize,
        progress: &mut Progress,
    )
        requires
            index < old(self)@.targets.len(),
        ensures
            final(self)@ == old(self)@.probing(index as nat, paths(candidates@), at as nat),
            final(self)@.coherent(),
            final(progress)@ == shown_sizing(old(progress)@, final(self)@),
    {
        if at < candidates.len() {
            self.wait(ExecutionPhase::Probing { index, candidates, at });
        } else {
            assert(index < self.targets.len());
            self.seek_builds(index + 1, progress);
        }
    }

    fn settle(&mut self, progress: &mut Progress)
        ensures
            final(self)@ == old(self)@.settled(),
            final(self)@.coherent(),
            final(progress)@ == shown_sizing(old(progress)@, final(self)@),
    {
        let mut targets: Vec<TreePath> = Vec::new();
        std::mem::swap(&mut targets, &mut self.targets);
        self.targets = deduplicate(targets);
        assert(self@ =~= ExecutionView {
            targets: deduplicated(old(self)@.targets),
            ..old(self)@
        });
        if self.targets.len() == 0 {
            self.count_errors();
            self.wait(ExecutionPhase::Finished);
        } else {
            let ghost distinct = self@;
            self.completion.path = self.targets[0].copy();
            assert(self@ =~= ExecutionView {
                completion: CompletionView { path: distinct.targets[0], ..distinct.completion },
                ..distinct
            });
            if self.action.kind == ActionKind::Cargo || self.action.kind == ActionKind::Debug {
                self.seek_builds(0, progress);
            } else {
                self.size(progress);
            }
        }
    }

    fn seek(&mut self, progress: &mut Progress)
        ensures
            final(self)@ == old(self)@.seeking(),
            final(self)@.coherent(),
            final(progress)@ == shown_sizing(old(progress)@, final(self)@),
    {
        if self.requested.len() == 0 {
            self.settle(progress);
        } else {
            let nearest = Nearest::new(&self.requested[0]);
            self.wait(ExecutionPhase::Seeking { nearest });
        }
    }

    fn judge(&mut self, canonical: TreePath, progress: &mut Progress)
        requires
            old(self)@.requested.len() > 0,
        ensures
            final(self)@ == old(self)@.judged(canonical@),
            final(self)@.coherent(),
            final(progress)@ == shown_sizing(old(progress)@, final(self)@),
    {
        let _ = self.requested.remove(0);
        assert(self@ =~= old(self)@.looked_at());
        match validate_target(canonical, &self.root, self.platform) {
            Ok(target) => {
                let ghost before = self@;
                self.targets.push(target);
                assert(self@ =~= ExecutionView { targets: before.targets.push(target@), ..before });
            },
            Err(error) => self.note(error),
        }
        self.seek(progress);
    }

    fn inform(&mut self, layout: CargoLayout, progress: &mut Progress)
        ensures
            final(self)@ == old(self)@.informed(layout@),
            final(self)@.coherent(),
            final(progress)@ == shown_sizing(old(progress)@, final(self)@),
    {
        self.requested = requested_targets(
            &self.action.path,
            layout,
            &mut self.completion.errors,
        );
        assert(self@ =~= ExecutionView {
            requested: targets_of(old(self)@.action.path, layout@),
            completion: CompletionView {
                errors: old(self)@.completion.errors + layout_errors(layout@),
                ..old(self)@.completion
            },
            ..old(self)@
        });
        self.seek(progress);
    }

    fn skip(&mut self, lock: &TreePath)
        ensures
            final(self)@ == old(self)@.skipping(lock@),
    {
        let mut error = "build in progress (".to_owned();
        error.append(display_path(lock, self.platform).as_str());
        error.append(" is locked); left alone");
        self.count_errors();
        self.note(error);
        self.completion.skipped = true;
        self.wait(ExecutionPhase::Finished);
        assert(self@ =~= old(self)@.skipping(lock@));
    }

    fn absorb(&mut self, outcome: RemovalOutcome)
        requires
            old(self)@.completion.reclaimed_bytes + outcome@.bytes_removed <= u64::MAX,
            old(self)@.completion.files_removed + outcome@.files_removed <= u64::MAX,
            old(self)@.completion.error_count + outcome@.error_count <= u64::MAX,
        ensures
            final(self)@ == old(self)@.removed(outcome@),
    {
        let mut errors = outcome.errors;
        let ghost more = errors@;
        self.completion.reclaimed_bytes = self.completion.reclaimed_bytes + outcome.bytes_removed;
        self.completion.files_removed = self.completion.files_removed + outcome.files_removed;
        self.completion.error_count = self.completion.error_count + outcome.error_count;
        self.completion.errors.append(&mut errors);
        proof {
            text::lemma_texts_add(old(self).completion.errors@, more);
        }
        assert(self@ =~= old(self)@.removed(outcome@));
    }

    fn delete(&mut self, index: usize)
        ensures
            final(self)@ == old(self)@.deleting(index as nat),
            final(self)@.coherent(),
    {
        if index < self.targets.len() {
            self.wait(ExecutionPhase::Contending { index });
        } else {
            self.wait(ExecutionPhase::Finished);
        }
    }

    fn cancel(&mut self)
        requires
            old(self)@.completion.error_count < u64::MAX,
        ensures
            final(self)@ == old(self)@.cancelled(),
    {
        self.note("cancelled before completion".to_owned());
        self.completion.error_count = self.completion.error_count + 1;
        self.wait(ExecutionPhase::Finished);
        assert(self@ =~= old(self)@.cancelled());
    }

    fn look(&mut self, nearest: Nearest, exists: bool, progress: &mut Progress)
        requires
            old(self)@.requested.len() > 0,
            nearest@.within(),
            nearest@.path == old(self)@.requested[0],
        ensures
            final(self)@ == (if exists {
                old(self)@.waiting(ExecutionPhaseView::Resolving { nearest: nearest@ })
            } else if nearest@.can_shorten() {
                old(self)@.waiting(ExecutionPhaseView::Seeking { nearest: nearest@.shortened() })
            } else {
                old(self)@.judged(nearest@.path)
            }),
            final(self)@.coherent(),
            final(progress)@ == shown_sizing(old(progress)@, final(self)@),
    {
        let mut nearest = nearest;
        match canonicalize_nearest(&mut nearest, exists) {
            NearestStep::Canonicalize => self.wait(ExecutionPhase::Resolving { nearest }),
            NearestStep::Look => self.wait(ExecutionPhase::Seeking { nearest }),
            NearestStep::Unresolved => self.judge(nearest.path(), progress),
        }
    }

    fn resolve(
        &mut self,
        nearest: Nearest,
        canonical: Result<TreePath, String>,
        progress: &mut Progress,
    )
        requires
            old(self)@.requested.len() > 0,
            nearest@.within(),
        ensures
            final(self)@ == (match result_view(canonical) {
                Ok(canonical) => old(self)@.judged(nearest@.restored(canonical)),
                Err(error) => old(self)@.looked_at().with_error(
                    "cannot canonicalize "@ + old(self)@.shown(nearest@.current()) + ": "@ + error,
                ).seeking(),
            }),
            final(self)@.coherent(),
            final(progress)@ == shown_sizing(old(progress)@, final(self)@),
    {
        match canonical {
            Ok(canonical) => {
                let restored = nearest.restored(&canonical);
                self.judge(restored, progress);
            },
            Err(error) => {
                let mut line = "cannot canonicalize ".to_owned();
                line.append(display_path(&nearest.current(), self.platform).as_str());
                line.append(": ");
                line.append(error.as_str());
                let _ = self.requested.remove(0);
                assert(self@ =~= old(self)@.looked_at());
                self.note(line);
                self.seek(progress);
            },
        }
    }

    /// Takes the answer to a question with yes or no.
    fn take_found(&mut self, phase: ExecutionPhase, found: bool, progress: &mut Progress)
        requires
            old(self)@.waiting(phase.view()).coherent(),
            old(self)@.waiting(phase.view()).awaits(ExecutionReplyView::Found(found)),
        ensures
            final(self)@ == old(self)@.waiting(phase.view()).after(
                ExecutionReplyView::Found(found),
            ),
            final(self)@.coherent(),
            final(progress)@ == old(self)@.waiting(phase.view()).progressed(
                ExecutionReplyView::Found(found),
                old(progress)@,
            ),
    {
        match phase {
            ExecutionPhase::SeekingConventional { target } => {
                self.inform(CargoLayout::Known { target, conventional_exists: found }, progress);
            },
            ExecutionPhase::Seeking { nearest } => self.look(nearest, found, progress),
            ExecutionPhase::Probing { index, candidates, at } => {
                if found {
                    self.skip(&candidates[at]);
                } else {
                    assert(at < candidates.len());
                    self.probe(index, candidates, at + 1, progress);
                }
            },
            ExecutionPhase::Contending { index } => {
                if found {
                    progress.set_state(ActionState::Waiting);
                }
                self.wait(ExecutionPhase::Acquiring { index });
            },
            _ => {},
        }
    }

    /// Takes word that something has been done.
    fn take_done(&mut self, phase: ExecutionPhase, progress: &mut Progress)
        requires
            old(self)@.waiting(phase.view()).coherent(),
            old(self)@.waiting(phase.view()).awaits(ExecutionReplyView::Done),
        ensures
            final(self)@ == old(self)@.waiting(phase.view()).after(ExecutionReplyView::Done),
            final(self)@.coherent(),
            final(progress)@ == old(self)@.waiting(phase.view()).progressed(
                ExecutionReplyView::Done,
                old(progress)@,
            ),
    {
        match phase {
            ExecutionPhase::Restarting => self.delete(0),
            ExecutionPhase::Acquiring { index } => {
                progress.set_state(ActionState::Deleting);
                self.wait(ExecutionPhase::Removing { index });
            },
            ExecutionPhase::Releasing { index, cancelled } => {
                if cancelled {
                    self.cancel();
                } else {
                    assert(index < self.targets.len());
                    self.delete(index + 1);
                }
            },
            _ => {},
        }
    }

    /// Takes the size of a target.
    fn take_size(&mut self, phase: ExecutionPhase, bytes: u64, progress: &mut Progress)
        requires
            old(self)@.waiting(phase.view()).coherent(),
            old(self)@.waiting(phase.view()).awaits(ExecutionReplyView::Measured(bytes)),
            old(self)@.waiting(phase.view()).has_room(ExecutionReplyView::Measured(bytes)),
        ensures
            final(self)@ == old(self)@.waiting(phase.view()).after(
                ExecutionReplyView::Measured(bytes),
            ),
            final(self)@.coherent(),
            final(progress)@ == old(self)@.waiting(phase.view()).progressed(
                ExecutionReplyView::Measured(bytes),
                old(progress)@,
            ),
    {
        match phase {
            ExecutionPhase::Measuring { index, total } => {
                let total: u64 = total + bytes;
                assert(index < self.targets.len());
                if index + 1 < self.targets.len() {
                    self.wait(ExecutionPhase::Measuring { index: index + 1, total });
                } else {
                    progress.set_total(total);
                    self.wait(ExecutionPhase::Restarting);
                }
            },
            _ => {},
        }
    }

    /// Takes the answer to what the execution asks for.
    pub fn execute_action(&mut self, reply: ExecutionReply, progress: &mut Progress)
        requires
            old(self)@.coherent(),
            old(self)@.awaits(reply@),
            old(self)@.has_room(reply@),
        ensures
            final(self)@ == old(self)@.after(reply@),
            final(self)@.coherent(),
            final(progress)@ == old(self)@.progressed(reply@, old(progress)@),
    {
        let mut phase = ExecutionPhase::Finished;
        std::mem::swap(&mut phase, &mut self.phase);
        assert(self@.waiting(phase.view()) =~= old(self)@);
        match reply {
            ExecutionReply::Metadata(Ok(target)) => {
                self.wait(ExecutionPhase::SeekingConventional { target });
            },
            ExecutionReply::Metadata(Err(error)) => {
                self.inform(CargoLayout::Unknown(error), progress);
            },
            ExecutionReply::Found(found) => self.take_found(phase, found, progress),
            ExecutionReply::Canonical(canonical) => match phase {
                ExecutionPhase::Resolving { nearest } => {
                    self.resolve(nearest, canonical, progress);
                },
                _ => {},
            },
            ExecutionReply::Listed(entries) => match phase {
                ExecutionPhase::ListingProfiles { index } => {
                    let candidates = held_build_lock(&self.targets[index], &entries);
                    self.probe(index, candidates, 0, progress);
                },
                _ => {},
            },
            ExecutionReply::Measured(bytes) => self.take_size(phase, bytes, progress),
            ExecutionReply::Removed(outcome) => match phase {
                ExecutionPhase::Removing { index } => {
                    let cancelled = outcome.cancelled;
                    self.absorb(outcome);
                    self.wait(ExecutionPhase::Releasing { index, cancelled });
                },
                _ => {},
            },
            ExecutionReply::Done => self.take_done(phase, progress),
        }
        assert(self@ =~= old(self)@.after(reply@));
    }

    /// The report of a finished execution that took so long.
    pub fn report(self, elapsed: Span) -> (report: ActionReport)
        requires
            self@.phase is Finished,
        ensures
            report.kind == self@.action.kind,
            report.elapsed == elapsed,
            report.path@ == self@.completion.path,
            text::texts(report.errors@) == self@.completion.errors,
            report.error_count == self@.completion.error_count,
            report.reclaimed_bytes == self@.completion.reclaimed_bytes,
            report.files_removed == self@.completion.files_removed,
            report.skipped == self@.completion.skipped,
    {
        let kind = self.action.kind;
        self.completion.into_report(kind, elapsed)
    }
}

} // verus!
