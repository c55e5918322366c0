//! Finds what can be reclaimed below a root. The walk decides what to ask the
//! file system next and what to make of the answer.

use crate::action;
use crate::action::{Action, ActionKind, ActionView};
use crate::format::display_path;
use crate::path;
use crate::path::{PartView, Place, Platform, TreePath};
use crate::path_set::PathSet;
use crate::text;
use vstd::prelude::*;

verus! {

/// The kind of action that a directory's name alone calls for.
pub open spec fn named_kind(name: Seq<char>) -> Option<ActionKind> {
    if name == "debug"@ {
        Some(ActionKind::Debug)
    } else if name == "node_modules"@ {
        Some(ActionKind::NodeModules)
    } else if name == ".venv"@ {
        Some(ActionKind::PythonVenv)
    } else if name == "scratch"@ || name == ".scratch"@ {
        Some(ActionKind::Scratch)
    } else {
        None
    }
}

/// The kind of action that a directory's name alone calls for.
pub fn direct_action_kind(name: &str) -> (kind: Option<ActionKind>)
    ensures
        kind == named_kind(name@),
{
    if text::same_text(name, "debug") {
        Some(ActionKind::Debug)
    } else if text::same_text(name, "node_modules") {
        Some(ActionKind::NodeModules)
    } else if text::same_text(name, ".venv") {
        Some(ActionKind::PythonVenv)
    } else if text::same_text(name, "scratch") || text::same_text(name, ".scratch") {
        Some(ActionKind::Scratch)
    } else {
        None
    }
}

/// What is to be done with a directory.
#[derive(Clone, Copy, Debug, PartialEq, Eq, Structural)]
pub enum Verdict {
    /// It is an action of its own.
    Reclaim(ActionKind),
    /// It is left alone.
    Ignore,
    /// It is a target with no manifest above it: only its debug directory is
    /// looked at, not the build artifacts in it.
    Orphan,
    /// It is walked.
    Enter,
}

/// What is to be done with a directory of this name. A target below a
/// manifest is covered by that project's action.
pub open spec fn verdict(name: Seq<char>, inside_cargo: bool) -> Verdict {
    match named_kind(name) {
        Some(kind) => Verdict::Reclaim(kind),
        None => if name == ".git"@ {
            Verdict::Ignore
        } else if name == "target"@ {
            if inside_cargo {
                Verdict::Ignore
            } else {
                Verdict::Orphan
            }
        } else {
            Verdict::Enter
        },
    }
}

/// Decides what is to be done with a directory of this name.
pub fn judge(name: &str, inside_cargo: bool) -> (judged: Verdict)
    ensures
        judged == verdict(name@, inside_cargo),
{
    match direct_action_kind(name) {
        Some(kind) => Verdict::Reclaim(kind),
        None => if text::same_text(name, ".git") {
            Verdict::Ignore
        } else if text::same_text(name, "target") {
            if inside_cargo {
                Verdict::Ignore
            } else {
                Verdict::Orphan
            }
        } else {
            Verdict::Enter
        },
    }
}

/// What kind of thing a directory entry is, links not followed.
#[derive(Clone, Copy, Debug, PartialEq, Eq, Structural)]
pub enum EntryKind {
    Symlink,
    Directory,
    Other,
}

/// What the walk asks of the file system.
#[derive(Debug, PartialEq, Eq)]
pub enum WalkRequest {
    /// Open a directory for listing.
    Open(TreePath),
    /// The next entry of the directory opened last that has not ended.
    NextEntry,
    /// The canonical form of a path.
    Canonicalize(TreePath),
    /// Whether a path is a directory and no link.
    IsRealDirectory(TreePath),
    /// Whether a path is a file.
    IsFile(TreePath),
    /// Nothing: the walk is over.
    Finished,
}

/// What the file system answers.
#[derive(Debug, PartialEq, Eq)]
pub enum WalkReply {
    Opened,
    OpenFailed(String),
    Entry { name: Vec<u8>, kind: EntryKind },
    /// An entry whose kind could not be read.
    EntryUnknown { name: Vec<u8>, error: String },
    EntryFailed(String),
    NoMoreEntries,
    Canonical(TreePath),
    CanonicalFailed(String),
    Found(bool),
}

/// A request as a value.
pub enum WalkRequestView {
    Open(Seq<PartView>),
    NextEntry,
    Canonicalize(Seq<PartView>),
    IsRealDirectory(Seq<PartView>),
    IsFile(Seq<PartView>),
    Finished,
}

/// An answer as a value.
pub enum WalkReplyView {
    Opened,
    OpenFailed(Seq<char>),
    Entry { name: Seq<u8>, kind: EntryKind },
    EntryUnknown { name: Seq<u8>, error: Seq<char> },
    EntryFailed(Seq<char>),
    NoMoreEntries,
    Canonical(Seq<PartView>),
    CanonicalFailed(Seq<char>),
    Found(bool),
}

impl View for WalkRequest {
    type V = WalkRequestView;

    open spec fn view(&self) -> WalkRequestView {
        match self {
            WalkRequest::Open(path) => WalkRequestView::Open(path@),
            WalkRequest::NextEntry => WalkRequestView::NextEntry,
            WalkRequest::Canonicalize(path) => WalkRequestView::Canonicalize(path@),
            WalkRequest::IsRealDirectory(path) => WalkRequestView::IsRealDirectory(path@),
            WalkRequest::IsFile(path) => WalkRequestView::IsFile(path@),
            WalkRequest::Finished => WalkRequestView::Finished,
        }
    }
}

impl View for WalkReply {
    type V = WalkReplyView;

    open spec fn view(&self) -> WalkReplyView {
        match self {
            WalkReply::Opened => WalkReplyView::Opened,
            WalkReply::OpenFailed(error) => WalkReplyView::OpenFailed(error@),
            WalkReply::Entry { name, kind } => WalkReplyView::Entry { name: name@, kind: *kind },
            WalkReply::EntryUnknown { name, error } => WalkReplyView::EntryUnknown {
                name: name@,
                error: error@,
            },
            WalkReply::EntryFailed(error) => WalkReplyView::EntryFailed(error@),
            WalkReply::NoMoreEntries => WalkReplyView::NoMoreEntries,
            WalkReply::Canonical(path) => WalkReplyView::Canonical(path@),
            WalkReply::CanonicalFailed(error) => WalkReplyView::CanonicalFailed(error@),
            WalkReply::Found(found) => WalkReplyView::Found(*found),
        }
    }
}

/// A directory that is being walked.
#[derive(Debug)]
struct Frame {
    directory: TreePath,
    inside_cargo: bool,
}

/// What the walk waits for.
#[derive(Debug)]
enum Phase {
    Opening,
    Listing,
    Resolving { path: TreePath, name: Vec<u8> },
    Probing { debug: TreePath },
    ResolvingDebug { debug: TreePath },
    Checking { directory: TreePath },
    Finished,
}

/// A directory that is being walked, as a value.
pub struct FrameView {
    pub directory: Seq<PartView>,
    /// Whether it is, or lies below, a directory with a manifest.
    pub inside_cargo: bool,
}

/// What the walk waits for, as a value.
pub enum PhaseView {
    /// Whether the innermost directory can be opened.
    Opening,
    /// The next entry of the innermost directory.
    Listing,
    /// The canonical form of an entry.
    Resolving { path: Seq<PartView>, name: Seq<u8> },
    /// Whether the debug directory of an orphaned target is a real one.
    Probing { debug: Seq<PartView> },
    /// The canonical form of that debug directory.
    ResolvingDebug { debug: Seq<PartView> },
    /// Whether a directory has a manifest.
    Checking { directory: Seq<PartView> },
    Finished,
}

impl Frame {
    spec fn view(&self) -> FrameView {
        FrameView { directory: self.directory@, inside_cargo: self.inside_cargo }
    }
}

impl Phase {
    spec fn view(&self) -> PhaseView {
        match self {
            Phase::Opening => PhaseView::Opening,
            Phase::Listing => PhaseView::Listing,
            Phase::Resolving { path, name } => PhaseView::Resolving { path: path@, name: name@ },
            Phase::Probing { debug } => PhaseView::Probing { debug: debug@ },
            Phase::ResolvingDebug { debug } => PhaseView::ResolvingDebug { debug: debug@ },
            Phase::Checking { directory } => PhaseView::Checking { directory: directory@ },
            Phase::Finished => PhaseView::Finished,
        }
    }
}

/// A walk under way.
#[derive(Debug)]
pub struct Walk {
    root: TreePath,
    platform: Platform,
    frames: Vec<Frame>,
    visited: PathSet,
    actions: Vec<Action>,
    errors: Vec<String>,
    phase: Phase,
}

/// A walk under way, as a value.
#[verifier::ext_equal]
pub struct WalkView {
    pub root: Seq<PartView>,
    pub platform: Platform,
    /// The directories that are being walked, the innermost last.
    pub frames: Seq<FrameView>,
    /// The directories seen so far.
    pub visited: Set<Seq<PartView>>,
    /// The actions found so far, each once.
    pub actions: Seq<ActionView>,
    pub errors: Seq<Seq<char>>,
    pub phase: PhaseView,
}

impl View for Walk {
    type V = WalkView;

    closed spec fn view(&self) -> WalkView {
        WalkView {
            root: self.root@,
            platform: self.platform,
            frames: self.frames@.map_values(|frame: Frame| frame.view()),
            visited: self.visited@,
            actions: self.actions@.map_values(|action: Action| action@),
            errors: text::texts(self.errors@),
            phase: self.phase.view(),
        }
    }
}

/// The name of a package manifest.
pub open spec fn manifest_name() -> Seq<char> {
    "Cargo.toml"@
}

impl WalkView {
    /// A walk waits for something exactly while a directory is being walked.
    pub open spec fn coherent(self) -> bool {
        self.phase is Finished <==> self.frames.len() == 0
    }

    /// The directory that is being listed.
    pub open spec fn innermost(self) -> FrameView {
        self.frames.last()
    }

    pub open spec fn with_error(self, error: Seq<char>) -> WalkView {
        WalkView { errors: self.errors.push(error), ..self }
    }

    /// With an action, unless it has been found before.
    pub open spec fn with_action(self, kind: ActionKind, path: Seq<PartView>) -> WalkView {
        let action = ActionView { kind, path };
        if exists|i: int|
            0 <= i < self.actions.len() && action::same_action(#[trigger] self.actions[i], action) {
            self
        } else {
            WalkView { actions: self.actions.push(action), ..self }
        }
    }

    pub open spec fn waiting(self, phase: PhaseView) -> WalkView {
        WalkView { phase, ..self }
    }

    /// On with the innermost directory.
    pub open spec fn resumed(self) -> WalkView {
        self.waiting(PhaseView::Listing)
    }

    /// Done with the innermost directory.
    pub open spec fn left(self) -> WalkView {
        let frames = self.frames.drop_last();
        WalkView {
            frames,
            phase: if frames.len() == 0 {
                PhaseView::Finished
            } else {
                PhaseView::Listing
            },
            ..self
        }
    }

    /// Into a directory.
    pub open spec fn entered(self, directory: Seq<PartView>, inside_cargo: bool) -> WalkView {
        WalkView {
            frames: self.frames.push(FrameView { directory, inside_cargo }),
            phase: PhaseView::Opening,
            ..self
        }
    }

    /// How a path is shown.
    pub open spec fn shown(self, path: Seq<PartView>) -> Seq<char> {
        crate::format::display_text(path, self.platform)
    }

    /// What the walk asks for.
    pub open spec fn request(self) -> WalkRequestView {
        match self.phase {
            PhaseView::Opening => WalkRequestView::Open(self.innermost().directory),
            PhaseView::Listing => WalkRequestView::NextEntry,
            PhaseView::Resolving { path, name } => WalkRequestView::Canonicalize(path),
            PhaseView::Probing { debug } => WalkRequestView::IsRealDirectory(debug),
            PhaseView::ResolvingDebug { debug } => WalkRequestView::Canonicalize(debug),
            PhaseView::Checking { directory } => WalkRequestView::IsFile(
                path::entry(directory, manifest_name()),
            ),
            PhaseView::Finished => WalkRequestView::Finished,
        }
    }

    /// Whether an answer is one to what the walk asks for.
    pub open spec fn awaits(self, reply: WalkReplyView) -> bool {
        match reply {
            WalkReplyView::Opened | WalkReplyView::OpenFailed(_) => self.phase is Opening,
            WalkReplyView::Entry { .. }
            | WalkReplyView::EntryUnknown { .. }
            | WalkReplyView::EntryFailed(_)
            | WalkReplyView::NoMoreEntries => self.phase is Listing,
            WalkReplyView::Canonical(_) | WalkReplyView::CanonicalFailed(_) => {
                self.phase is Resolving || self.phase is ResolvingDebug
            },
            WalkReplyView::Found(_) => self.phase is Probing || self.phase is Checking,
        }
    }

    /// The walk once the canonical form of an entry is known.
    pub open spec fn resolved(self, canonical: Seq<PartView>, name: Seq<u8>) -> WalkView {
        if !path::beneath(canonical, self.root) {
            self.with_error(
                "refusing directory outside cleanup root: "@ + self.shown(canonical),
            ).resumed()
        } else if self.visited.contains(path::key(canonical)) {
            self.resumed()
        } else {
            let seen = WalkView { visited: self.visited.insert(path::key(canonical)), ..self };
            match verdict(text::lossy_text(name), self.innermost().inside_cargo) {
                Verdict::Reclaim(kind) => seen.with_action(kind, canonical).resumed(),
                Verdict::Ignore => seen.resumed(),
                Verdict::Orphan => seen.waiting(
                    PhaseView::Probing { debug: path::entry(canonical, "debug"@) },
                ),
                Verdict::Enter => seen.waiting(PhaseView::Checking { directory: canonical }),
            }
        }
    }

    /// The walk once the canonical form of an orphaned debug directory is
    /// known.
    pub open spec fn resolved_debug(self, canonical: Seq<PartView>) -> WalkView {
        if path::beneath(canonical, self.root) {
            self.with_action(ActionKind::Debug, canonical).resumed()
        } else {
            self.with_error(
                "refusing debug directory outside cleanup root: "@ + self.shown(canonical),
            ).resumed()
        }
    }

    /// The walk once it is known whether a directory has a manifest. Members
    /// of a workspace share its target, so one action at the outermost
    /// manifest covers everything below.
    pub open spec fn checked(self, directory: Seq<PartView>, has_manifest: bool) -> WalkView {
        let inside_cargo = self.innermost().inside_cargo;
        let found = if has_manifest && !inside_cargo {
            self.with_action(ActionKind::Cargo, directory)
        } else {
            self
        };
        found.entered(directory, inside_cargo || has_manifest)
    }

    /// The walk after an answer.
    pub open spec fn after(self, reply: WalkReplyView) -> WalkView {
        let directory = self.innermost().directory;
        match reply {
            WalkReplyView::Opened => self.resumed(),
            WalkReplyView::OpenFailed(error) => self.with_error(
                "cannot read "@ + self.shown(directory) + ": "@ + error,
            ).left(),
            WalkReplyView::NoMoreEntries => self.left(),
            WalkReplyView::EntryFailed(error) => self.with_error(
                "cannot read an entry in "@ + self.shown(directory) + ": "@ + error,
            ),
            WalkReplyView::EntryUnknown { name, error } => self.with_error(
                "cannot inspect "@ + self.shown(path::child(directory, name)) + ": "@ + error,
            ),
            WalkReplyView::Entry { name, kind } => if kind == EntryKind::Directory {
                self.waiting(PhaseView::Resolving { path: path::child(directory, name), name })
            } else {
                self
            },
            WalkReplyView::CanonicalFailed(error) => match self.phase {
                PhaseView::Resolving { path, name } => self.with_error(
                    "cannot canonicalize "@ + self.shown(path) + ": "@ + error,
                ).resumed(),
                PhaseView::ResolvingDebug { debug } => self.with_error(
                    "cannot canonicalize "@ + self.shown(debug) + ": "@ + error,
                ).resumed(),
                _ => self,
            },
            WalkReplyView::Canonical(canonical) => match self.phase {
                PhaseView::Resolving { path, name } => self.resolved(canonical, name),
                PhaseView::ResolvingDebug { debug } => self.resolved_debug(canonical),
                _ => self,
            },
            WalkReplyView::Found(found) => match self.phase {
                PhaseView::Probing { debug } => if found {
                    self.waiting(PhaseView::ResolvingDebug { debug })
                } else {
                    self.resumed()
                },
                PhaseView::Checking { directory } => self.checked(directory, found),
                _ => self,
            },
        }
    }
}

/// A walk that begins at a root.
pub open spec fn begun(root: Seq<PartView>, root_is_cargo: bool, platform: Platform) -> WalkView {
    WalkView {
        root,
        platform,
        frames: seq![FrameView { directory: root, inside_cargo: root_is_cargo }],
        visited: Set::empty().insert(path::key(root)),
        actions: if root_is_cargo {
            seq![ActionView { kind: ActionKind::Cargo, path: root }]
        } else {
            Seq::empty()
        },
        errors: Seq::empty(),
        phase: PhaseView::Opening,
    }
}

impl Walk {
    /// Begins a walk at a root, of which it is known whether it has a
    /// manifest.
    pub fn new(root: &TreePath, root_is_cargo: bool, platform: Platform) -> (walk: Walk)
        ensures
            walk@ == begun(root@, root_is_cargo, platform),
            walk@.coherent(),
    {
        let mut actions: Vec<Action> = Vec::new();
        if root_is_cargo {
            actions.push(Action { kind: ActionKind::Cargo, path: root.copy() });
        }
        let mut visited = PathSet::new();
        let _ = visited.insert(root.copy());
        let mut frames: Vec<Frame> = Vec::new();
        frames.push(Frame { directory: root.copy(), inside_cargo: root_is_cargo });
        let walk = Walk {
            root: root.copy(),
            platform,
            frames,
            visited,
            actions,
            errors: Vec::new(),
            phase: Phase::Opening,
        };
        assert(walk@ =~= begun(root@, root_is_cargo, platform));
        walk
    }

    /// What the walk asks for.
    pub fn request(&self) -> (request: WalkRequest)
        requires
            self@.coherent(),
        ensures
            request@ == self@.request(),
    {
        match &self.phase {
            Phase::Opening => {
                WalkRequest::Open(self.frames[self.frames.len() - 1].directory.copy())
            },
            Phase::Listing => WalkRequest::NextEntry,
            Phase::Resolving { path, name } => WalkRequest::Canonicalize(path.copy()),
            Phase::Probing { debug } => WalkRequest::IsRealDirectory(debug.copy()),
            Phase::ResolvingDebug { debug } => WalkRequest::Canonicalize(debug.copy()),
            Phase::Checking { directory } => WalkRequest::IsFile(directory.join("Cargo.toml")),
            Phase::Finished => WalkRequest::Finished,
        }
    }

    /// Notes a failure: what, of which path, and why.
    fn note(&mut self, what: &str, path: &TreePath, error: &str)
        ensures
            final(self)@ == old(self)@.with_error(
                what@ + old(self)@.shown(path@) + ": "@ + error@,
            ),
    {
        let mut line = what.to_owned();
        line.append(display_path(path, self.platform).as_str());
        line.append(": ");
        line.append(error);
        let ghost expected = what@ + self@.shown(path@) + ": "@ + error@;
        assert(line@ =~= expected);
        self.errors.push(line);
        proof {
            text::lemma_texts_push(old(self).errors@, line);
        }
        assert(self@ =~= old(self)@.with_error(expected));
    }

    /// Notes a path that is refused.
    fn refuse(&mut self, what: &str, path: &TreePath)
        ensures
            final(self)@ == old(self)@.with_error(what@ + old(self)@.shown(path@)),
    {
        let mut line = what.to_owned();
        line.append(display_path(path, self.platform).as_str());
        self.errors.push(line);
        proof {
            text::lemma_texts_push(old(self).errors@, line);
        }
        assert(self@ =~= old(self)@.with_error(what@ + old(self)@.shown(path@)));
    }

    /// Adds an action, unless it has been found before.
    fn add_action(&mut self, kind: ActionKind, path: TreePath)
        ensures
            final(self)@ == old(self)@.with_action(kind, path@),
    {
        let ghost wanted = ActionView { kind, path: path@ };
        let action = Action { kind, path };
        let ghost found = self@.actions;
        let mut index: usize = 0;
        while index < self.actions.len()
            invariant
                index <= self.actions.len(),
                self@ == old(self)@,
                found == self@.actions,
                found.len() == self.actions.len(),
                action@ == wanted,
                wanted == (ActionView { kind, path: path@ }),
                forall|i: int| 0 <= i < index ==> !action::same_action(#[trigger] found[i], wanted),
            decreases self.actions.len() - index,
        {
            if self.actions[index].same(&action) {
                assert(action::same_action(found[index as int], wanted));
                return;
            }
            index = index + 1;
        }
        self.actions.push(action);
        assert(self@ =~= old(self)@.with_action(kind, path@));
    }

    /// Waits for something else.
    fn wait(&mut self, phase: Phase)
        ensures
            final(self)@ == old(self)@.waiting(phase.view()),
    {
        self.phase = phase;
    }

    /// Is done with the innermost directory.
    fn leave(&mut self)
        requires
            old(self)@.frames.len() > 0,
        ensures
            final(self)@ == old(self)@.left(),
    {
        let _ = self.frames.pop();
        if self.frames.len() == 0 {
            self.phase = Phase::Finished;
        } else {
            self.phase = Phase::Listing;
        }
        assert(self@ =~= old(self)@.left());
    }

    /// Goes into a directory.
    fn enter(&mut self, directory: TreePath, inside_cargo: bool)
        ensures
            final(self)@ == old(self)@.entered(directory@, inside_cargo),
    {
        self.frames.push(Frame { directory, inside_cargo });
        self.phase = Phase::Opening;
        assert(self@ =~= old(self)@.entered(directory@, inside_cargo));
    }

    /// The directory that is being listed.
    fn directory(&self) -> (directory: TreePath)
        requires
            self@.frames.len() > 0,
        ensures
            directory@ == self@.innermost().directory,
    {
        self.frames[self.frames.len() - 1].directory.copy()
    }

    /// Whether the directory that is being listed lies below a manifest.
    fn inside_cargo(&self) -> (inside: bool)
        requires
            self@.frames.len() > 0,
        ensures
            inside == self@.innermost().inside_cargo,
    {
        self.frames[self.frames.len() - 1].inside_cargo
    }

    /// Whether a path lies strictly below the root.
    fn is_beneath_root(&self, path: &TreePath) -> (inside: bool)
        ensures
            inside == path::beneath(path@, self@.root),
    {
        !path.same(&self.root) && path.starts_with(&self.root)
    }

    /// Goes on once the canonical form of an entry is known.
    fn resolve(&mut self, canonical: TreePath, name: Vec<u8>)
        requires
            old(self)@.frames.len() > 0,
        ensures
            final(self)@ == old(self)@.resolved(canonical@, name@),
    {
        if !self.is_beneath_root(&canonical) {
            self.refuse("refusing directory outside cleanup root: ", &canonical);
            self.wait(Phase::Listing);
            return;
        }
        let fresh = self.visited.insert(canonical.copy());
        if !fresh {
            assert(self@.visited =~= old(self)@.visited);
            self.wait(Phase::Listing);
            assert(self@ =~= old(self)@.resumed());
            return;
        }
        assert(self@ =~= WalkView {
            visited: old(self)@.visited.insert(path::key(canonical@)),
            ..old(self)@
        });
        let shown = text::decode_lossy(name.as_slice());
        match judge(shown.as_str(), self.inside_cargo()) {
            Verdict::Reclaim(kind) => {
                self.add_action(kind, canonical);
                self.wait(Phase::Listing);
            },
            Verdict::Ignore => self.wait(Phase::Listing),
            Verdict::Orphan => {
                let debug = canonical.join("debug");
                self.wait(Phase::Probing { debug });
            },
            Verdict::Enter => self.wait(Phase::Checking { directory: canonical }),
        }
    }

    /// Goes on once the canonical form of an orphaned debug directory is
    /// known.
    fn resolve_debug(&mut self, canonical: TreePath)
        ensures
            final(self)@ == old(self)@.resolved_debug(canonical@),
    {
        if self.is_beneath_root(&canonical) {
            self.add_action(ActionKind::Debug, canonical);
        } else {
            self.refuse("refusing debug directory outside cleanup root: ", &canonical);
        }
        self.wait(Phase::Listing);
    }

    /// Goes on once it is known whether a directory has a manifest.
    fn check(&mut self, directory: TreePath, has_manifest: bool)
        requires
            old(self)@.frames.len() > 0,
        ensures
            final(self)@ == old(self)@.checked(directory@, has_manifest),
    {
        let inside = self.inside_cargo();
        if has_manifest && !inside {
            self.add_action(ActionKind::Cargo, directory.copy());
        }
        self.enter(directory, inside || has_manifest);
    }

    /// Takes the answer to what the walk asks for.
    pub fn walk(&mut self, reply: WalkReply)
        requires
            old(self)@.coherent(),
            old(self)@.awaits(reply@),
        ensures
            final(self)@ == old(self)@.after(reply@),
            final(self)@.coherent(),
    {
        let directory = self.directory();
        let mut phase = Phase::Finished;
        std::mem::swap(&mut phase, &mut self.phase);
        self.phase = Phase::Listing;
        match reply {
            WalkReply::Opened => {},
            WalkReply::OpenFailed(error) => {
                self.note("cannot read ", &directory, error.as_str());
                self.leave();
            },
            WalkReply::NoMoreEntries => self.leave(),
            WalkReply::EntryFailed(error) => {
                self.note("cannot read an entry in ", &directory, error.as_str());
            },
            WalkReply::EntryUnknown { name, error } => {
                let path = directory.join_bytes(name);
                self.note("cannot inspect ", &path, error.as_str());
            },
            WalkReply::Entry { name, kind } => {
                if kind == EntryKind::Directory {
                    let path = directory.join_bytes(name.clone());
                    self.wait(Phase::Resolving { path, name });
                }
            },
            WalkReply::CanonicalFailed(error) => match phase {
                Phase::Resolving { path, name } => {
                    self.note("cannot canonicalize ", &path, error.as_str());
                },
                Phase::ResolvingDebug { debug } => {
                    self.note("cannot canonicalize ", &debug, error.as_str());
                },
                _ => {},
            },
            WalkReply::Canonical(canonical) => match phase {
                Phase::Resolving { path, name } => self.resolve(canonical, name),
                Phase::ResolvingDebug { debug } => self.resolve_debug(canonical),
                _ => {},
            },
            WalkReply::Found(found) => match phase {
                Phase::Probing { debug } => {
                    if found {
                        self.wait(Phase::ResolvingDebug { debug });
                    }
                },
                Phase::Checking { directory } => self.check(directory, found),
                _ => {},
            },
        }
        assert(self@ =~= old(self)@.after(reply@));
    }
}

/// Each path stands before those that follow, or takes the same place.
pub open spec fn ordered_by_path(actions: Seq<ActionView>) -> bool {
    forall|i: int, j: int|
        0 <= i < j < actions.len() ==> path::path_place(
            (#[trigger] actions[i]).path,
            (#[trigger] actions[j]).path,
        ) != Place::After
}

spec fn views(actions: Seq<Action>) -> Seq<ActionView> {
    actions.map_values(|action: Action| action@)
}

proof fn lemma_insert_multiset(items: Seq<ActionView>, at: int, item: ActionView)
    requires
        0 <= at <= items.len(),
    ensures
        items.insert(at, item).to_multiset() == items.to_multiset().insert(item),
{
    let longer = items.insert(at, item);
    assert(longer.remove(at) =~= items);
    assert(longer[at] == item);
    broadcast use vstd::seq_lib::group_to_multiset_ensures;

    assert(longer.contains(item));
    assert(longer.to_multiset() =~= items.to_multiset().insert(item));
}

fn sort_by_path(actions: &Vec<Action>) -> (sorted: Vec<Action>)
    ensures
        ordered_by_path(views(sorted@)),
        views(sorted@).to_multiset() == views(actions@).to_multiset(),
{
    let mut sorted: Vec<Action> = Vec::new();
    let mut index: usize = 0;
    let ghost all = views(actions@);
    assert(views(sorted@) =~= all.take(0));
    while index < actions.len()
        invariant
            index <= actions.len(),
            all == views(actions@),
            ordered_by_path(views(sorted@)),
            views(sorted@).to_multiset() == all.take(index as int).to_multiset(),
        decreases actions.len() - index,
    {
        let action = actions[index].copy();
        let ghost before = views(sorted@);
        let mut at: usize = sorted.len();
        while at > 0 && action.path.compare(&sorted[at - 1].path) == Place::Before
            invariant
                at <= sorted.len(),
                before == views(sorted@),
                ordered_by_path(before),
                forall|i: int|
                    at <= i < before.len() ==> path::path_place(
                        action@.path,
                        (#[trigger] before[i]).path,
                    ) == Place::Before,
            decreases at,
        {
            assert(before[at - 1] == sorted@[at - 1]@);
            at = at - 1;
        }
        assert forall|i: int| 0 <= i < at implies path::path_place(
            (#[trigger] before[i]).path,
            action@.path,
        ) != Place::After by {
            path::lemma_path_place_same(action@.path, before[at - 1].path);
            if i < at - 1 {
                path::lemma_path_place_not_after(before[i].path, before[at - 1].path, action@.path);
            }
        }
        let ghost value = action@;
        sorted.insert(at, action);
        proof {
            let after = views(sorted@);
            assert(after =~= before.insert(at as int, value));
            lemma_insert_multiset(before, at as int, value);
            assert(all.take(index + 1) =~= all.take(index as int).push(value));
            vstd::seq_lib::to_multiset_build(all.take(index as int), value);
            assert forall|i: int, j: int| 0 <= i < j < after.len() implies path::path_place(
                (#[trigger] after[i]).path,
                (#[trigger] after[j]).path,
            ) != Place::After by {
                let from = if i < at { i } else { i - 1 };
                let to = if j < at { j } else { j - 1 };
                if i != at && j != at {
                    assert(after[i] == before[from]);
                    assert(after[j] == before[to]);
                } else if i == at {
                    assert(after[j] == before[to]);
                } else {
                    assert(after[i] == before[from]);
                }
            }
        }
        index = index + 1;
    }
    assert(all.take(all.len() as int) =~= all);
    sorted
}

/// What a finished walk has found: the actions ordered by path, and the
/// failures in the order in which they came.
pub fn discover_actions(walk: Walk) -> (found: (Vec<Action>, Vec<String>))
    requires
        walk@.phase is Finished,
    ensures
        ordered_by_path(found.0@.map_values(|action: Action| action@)),
        found.0@.map_values(|action: Action| action@).to_multiset()
            == walk@.actions.to_multiset(),
        text::texts(found.1@) == walk@.errors,
{
    (sort_by_path(&walk.actions), walk.errors)
}

/// Only directories whose names say nothing else are walked: no action of its
/// own, no target and no repository is.
pub proof fn law_only_ordinary_directories_are_walked(
    walk: WalkView,
    canonical: Seq<PartView>,
    name: Seq<u8>,
)
    ensures
        ({
            let after = walk.resolved(canonical, name);
            let judged = verdict(text::lossy_text(name), walk.innermost().inside_cargo);
            &&& after.phase is Checking ==> judged is Enter && !walk.visited.contains(
                path::key(canonical),
            ) && path::beneath(canonical, walk.root)
            &&& after.frames == walk.frames
        }),
{
}

} // verus!
