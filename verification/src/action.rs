//! Cleanup actions, their progress and what is reported of them.

use crate::binary;
use crate::binary::Binary;
use crate::format::Span;
use crate::path;
use crate::path::{PartView, TreePath};
use vstd::prelude::*;

verus! {

/// What an action reclaims.
#[derive(Clone, Copy, Debug, PartialEq, Eq, Hash, Structural)]
pub enum ActionKind {
    Cargo,
    Debug,
    NodeModules,
    PythonVenv,
    Scratch,
}

/// The word for a kind of action.
pub open spec fn label_text(kind: ActionKind) -> Seq<char> {
    match kind {
        ActionKind::Cargo => "cargo"@,
        ActionKind::Debug => "debug"@,
        ActionKind::NodeModules => "node_modules"@,
        ActionKind::PythonVenv => ".venv"@,
        ActionKind::Scratch => "scratch"@,
    }
}

impl ActionKind {
    /// The word for this kind.
    pub fn label(self) -> (label: &'static str)
        ensures
            label@ == label_text(self),
    {
        match self {
            ActionKind::Cargo => "cargo",
            ActionKind::Debug => "debug",
            ActionKind::NodeModules => "node_modules",
            ActionKind::PythonVenv => ".venv",
            ActionKind::Scratch => "scratch",
        }
    }
}

/// A directory to reclaim.
#[derive(Debug, PartialEq, Eq, Hash)]
pub struct Action {
    pub kind: ActionKind,
    pub path: TreePath,
}

/// An action as a value.
pub struct ActionView {
    pub kind: ActionKind,
    pub path: Seq<PartView>,
}

/// Whether two actions are equal: of one kind, and on paths that are alike.
pub open spec fn same_action(left: ActionView, right: ActionView) -> bool {
    left.kind == right.kind && path::alike(left.path, right.path)
}

impl View for Action {
    type V = ActionView;

    open spec fn view(&self) -> ActionView {
        ActionView { kind: self.kind, path: self.path@ }
    }
}

impl Action {
    /// Another action with the same value.
    pub fn copy(&self) -> (copy: Action)
        ensures
            copy@ == self@,
    {
        Action { kind: self.kind, path: self.path.copy() }
    }

    /// Whether two actions are equal.
    pub fn same(&self, other: &Action) -> (same: bool)
        ensures
            same == same_action(self@, other@),
    {
        self.kind == other.kind && self.path.same(&other.path)
    }
}

impl Clone for Action {
    fn clone(&self) -> (copy: Action)
        ensures
            copy@ == self@,
    {
        self.copy()
    }
}

/// What came of an action.
#[derive(Debug)]
pub struct ActionReport {
    pub kind: ActionKind,
    pub path: TreePath,
    pub reclaimed_bytes: u64,
    pub files_removed: u64,
    pub elapsed: Span,
    pub errors: Vec<String>,
    /// Total failures, with those left out of the reported sample.
    pub error_count: u64,
    /// Left alone on purpose (an active build holds the target), not a
    /// failure of the deletion itself.
    pub skipped: bool,
}

/// Where an action stands.
#[derive(Clone, Copy, Debug, PartialEq, Eq, Structural)]
pub enum ActionState {
    Pending,
    Waiting,
    Sizing,
    Deleting,
    Done,
}

/// The code of a state.
pub open spec fn state_code(state: ActionState) -> u8 {
    match state {
        ActionState::Pending => 0,
        ActionState::Waiting => 1,
        ActionState::Sizing => 2,
        ActionState::Deleting => 3,
        ActionState::Done => 4,
    }
}

/// The state with a code; codes that no state has stand for the first.
pub open spec fn coded_state(code: u8) -> ActionState {
    if code == 1 {
        ActionState::Waiting
    } else if code == 2 {
        ActionState::Sizing
    } else if code == 3 {
        ActionState::Deleting
    } else if code == 4 {
        ActionState::Done
    } else {
        ActionState::Pending
    }
}

/// A state is the one that its code stands for.
pub proof fn law_state_codes_round_trip(state: ActionState)
    ensures
        coded_state(state_code(state)) == state,
{
}

impl ActionState {
    /// The code of this state.
    pub fn encode(self) -> (code: u8)
        ensures
            code == state_code(self),
    {
        match self {
            ActionState::Pending => 0,
            ActionState::Waiting => 1,
            ActionState::Sizing => 2,
            ActionState::Deleting => 3,
            ActionState::Done => 4,
        }
    }

    /// The state with a code.
    pub fn decode(value: u8) -> (state: ActionState)
        ensures
            state == coded_state(value),
    {
        match value {
            1 => ActionState::Waiting,
            2 => ActionState::Sizing,
            3 => ActionState::Deleting,
            4 => ActionState::Done,
            _ => ActionState::Pending,
        }
    }
}

/// The counters of one action. A worker writes them, the display reads them
/// at its own pace.
#[derive(Clone, Copy, Debug)]
pub struct Progress {
    state: u8,
    total_bytes: u64,
    total_known: bool,
    done_bytes: u64,
    done_files: u64,
}

/// The counters as a value.
pub struct ProgressView {
    pub state: ActionState,
    pub total: Option<u64>,
    pub done_bytes: u64,
    pub done_files: u64,
}

impl View for Progress {
    type V = ProgressView;

    closed spec fn view(&self) -> ProgressView {
        ProgressView {
            state: coded_state(self.state),
            total: if self.total_known {
                Some(self.total_bytes)
            } else {
                None
            },
            done_bytes: self.done_bytes,
            done_files: self.done_files,
        }
    }
}

/// The counters of an action that has not begun.
pub open spec fn no_progress() -> ProgressView {
    ProgressView { state: ActionState::Pending, total: None, done_bytes: 0, done_files: 0 }
}

/// The counters after one more entry of so many bytes is gone. They count
/// modulo two to the power of 64.
pub open spec fn with_removed(progress: ProgressView, bytes: u64) -> ProgressView {
    ProgressView {
        done_bytes: ((progress.done_bytes + bytes) % 0x1_0000_0000_0000_0000) as u64,
        done_files: ((progress.done_files + 1) % 0x1_0000_0000_0000_0000) as u64,
        ..progress
    }
}

/// The share of the total that is done; all of it where there is nothing to
/// do, and unknown until the total is known.
pub open spec fn ratio_of(progress: ProgressView) -> Option<binary::Fraction> {
    match progress.total {
        None => None,
        Some(total) => if total == 0 {
            Some(binary::Fraction { num: 1, den: 1 })
        } else {
            Some(binary::at_most_one(binary::quotient(progress.done_bytes as nat, total as nat)))
        },
    }
}

/// A share is never more than everything, and nothing to do is done.
pub proof fn law_ratios_are_shares(progress: ProgressView)
    ensures
        match ratio_of(progress) {
            Some(ratio) => 0 < ratio.den && ratio.num <= ratio.den && (progress.total == Some(0u64)
                ==> ratio.num == ratio.den),
            None => progress.total is None,
        },
{
    match progress.total {
        Some(total) => {
            if total > 0 {
                binary::lemma_quotient_of_counts(progress.done_bytes as nat, total as nat);
            }
        },
        None => {},
    }
}

impl Default for Progress {
    fn default() -> (progress: Progress)
        ensures
            progress@ == no_progress(),
    {
        Progress {
            state: 0,
            total_bytes: 0,
            total_known: false,
            done_bytes: 0,
            done_files: 0,
        }
    }
}

impl Progress {
    /// Where the action stands.
    pub fn state(&self) -> (state: ActionState)
        ensures
            state == self@.state,
    {
        ActionState::decode(self.state)
    }

    /// Says where the action stands.
    pub fn set_state(&mut self, state: ActionState)
        ensures
            final(self)@ == (ProgressView { state, ..old(self)@ }),
    {
        self.state = state.encode();
    }

    /// Makes the total known.
    pub fn set_total(&mut self, bytes: u64)
        ensures
            final(self)@ == (ProgressView { total: Some(bytes), ..old(self)@ }),
    {
        self.total_bytes = bytes;
        self.total_known = true;
    }

    /// The total, once it is known.
    pub fn total(&self) -> (total: Option<u64>)
        ensures
            total == self@.total,
    {
        if self.total_known {
            Some(self.total_bytes)
        } else {
            None
        }
    }

    /// The bytes reclaimed so far.
    pub fn done_bytes(&self) -> (bytes: u64)
        ensures
            bytes == self@.done_bytes,
    {
        self.done_bytes
    }

    /// Counts one entry of so many bytes as gone.
    pub fn record_removed(&mut self, bytes: u64)
        ensures
            final(self)@ == with_removed(old(self)@, bytes),
    {
        self.done_bytes = self.done_bytes.wrapping_add(bytes);
        self.done_files = self.done_files.wrapping_add(1);
    }

    /// The share of the total that is done.
    pub fn ratio(&self) -> (ratio: Option<Binary>)
        ensures
            match ratio {
                Some(ratio) => ratio_of(self@) == Some(ratio@),
                None => ratio_of(self@) is None,
            },
    {
        match self.total() {
            None => None,
            Some(total) => if total == 0 {
                Some(Binary::one())
            } else {
                Some(Binary::quotient(self.done_bytes(), total).at_most_one())
            },
        }
    }
}

} // verus!
