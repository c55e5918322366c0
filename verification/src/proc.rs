//! Child processes that must not run forever: what is made of their end.

use crate::format::{human_duration, Span};
use crate::text;
use vstd::prelude::*;

verus! {

/// How running a child process ended.
#[derive(Debug)]
pub enum ChildEnd {
    /// It could not be started.
    NotStarted(String),
    /// It ended by itself, successfully or not.
    Exited { success: bool },
    /// It was still running when its time was up.
    TimedOut,
    /// It could not be waited for.
    WaitFailed(String),
}

/// How running a child process ended, as a value.
pub enum ChildEndView {
    NotStarted(Seq<char>),
    Exited { success: bool },
    TimedOut,
    WaitFailed(Seq<char>),
}

impl View for ChildEnd {
    type V = ChildEndView;

    open spec fn view(&self) -> ChildEndView {
        match self {
            ChildEnd::NotStarted(error) => ChildEndView::NotStarted(error@),
            ChildEnd::Exited { success } => ChildEndView::Exited { success: *success },
            ChildEnd::TimedOut => ChildEndView::TimedOut,
            ChildEnd::WaitFailed(error) => ChildEndView::WaitFailed(error@),
        }
    }
}

/// What a child process left behind.
#[derive(Debug)]
pub struct ProcessOutput {
    pub success: bool,
    pub stdout: Vec<u8>,
    pub stderr: Vec<u8>,
}

/// What a child process left behind, as a value.
pub struct ProcessOutputView {
    pub success: bool,
    pub stdout: Seq<u8>,
    pub stderr: Seq<u8>,
}

impl View for ProcessOutput {
    type V = ProcessOutputView;

    open spec fn view(&self) -> ProcessOutputView {
        ProcessOutputView { success: self.success, stdout: self.stdout@, stderr: self.stderr@ }
    }
}

/// Whether a child has to be killed before its pipes are drained: it runs, or
/// may run, and nobody waits for it any more.
pub fn must_kill(end: &ChildEnd) -> (kill: bool)
    ensures
        kill == (end@ is TimedOut || end@ is WaitFailed),
{
    match end {
        ChildEnd::TimedOut => true,
        ChildEnd::WaitFailed(_) => true,
        _ => false,
    }
}

/// What running a child comes to: its output if it ended in time, and an
/// error that can be recovered from otherwise.
pub open spec fn child_result(
    end: ChildEndView,
    timeout: Span,
    label: Seq<char>,
    stdout: Seq<u8>,
    stderr: Seq<u8>,
) -> Result<ProcessOutputView, Seq<char>> {
    match end {
        ChildEndView::NotStarted(error) => Err("could not run "@ + label + ": "@ + error),
        ChildEndView::Exited { success } => Ok(ProcessOutputView { success, stdout, stderr }),
        ChildEndView::TimedOut => Err(
            label + " timed out after "@ + crate::format::duration_text(
                timeout.secs(),
                timeout.nanos(),
            ) + "; killed. Last diagnostic: "@ + diagnostic(stderr),
        ),
        ChildEndView::WaitFailed(error) => Err("could not wait for "@ + label + ": "@ + error),
    }
}

/// Decides what running a child comes to.
pub fn run_with_timeout(
    end: ChildEnd,
    timeout: Span,
    label: &str,
    stdout: Vec<u8>,
    stderr: Vec<u8>,
) -> (result: Result<ProcessOutput, String>)
    ensures
        match result {
            Ok(output) => child_result(end@, timeout, label@, stdout@, stderr@) == Ok::<
                ProcessOutputView,
                Seq<char>,
            >(output@),
            Err(error) => child_result(end@, timeout, label@, stdout@, stderr@) == Err::<
                ProcessOutputView,
                Seq<char>,
            >(error@),
        },
{
    match end {
        ChildEnd::NotStarted(error) => {
            let mut line = "could not run ".to_owned();
            line.append(label);
            line.append(": ");
            line.append(error.as_str());
            Err(line)
        },
        ChildEnd::Exited { success } => Ok(ProcessOutput { success, stdout, stderr }),
        ChildEnd::TimedOut => {
            let mut line = label.to_owned();
            line.append(" timed out after ");
            line.append(human_duration(timeout).as_str());
            line.append("; killed. Last diagnostic: ");
            line.append(command_diagnostic(stderr.as_slice()).as_str());
            Err(line)
        },
        ChildEnd::WaitFailed(error) => {
            let mut line = "could not wait for ".to_owned();
            line.append(label);
            line.append(": ");
            line.append(error.as_str());
            Err(line)
        },
    }
}

/// What is shown of what a command said on its way down.
pub open spec fn diagnostic(stderr: Seq<u8>) -> Seq<char> {
    spoken(text::lossy_text(stderr))
}

/// A message without the white space around it, or words for its absence.
pub open spec fn spoken(message: Seq<char>) -> Seq<char> {
    if text::trimmed(message).len() == 0 {
        "no diagnostic output"@
    } else {
        text::trimmed(message)
    }
}

/// Shows what a command said on its way down.
pub fn command_diagnostic(stderr: &[u8]) -> (shown: String)
    ensures
        shown@ == diagnostic(stderr@),
{
    let message = text::decode_lossy(stderr);
    speak(message.as_str())
}

/// Shows a message without the white space around it, or says that there is
/// none.
pub fn speak(message: &str) -> (shown: String)
    ensures
        shown@ == spoken(message@),
{
    let shown = text::trim_text(message);
    if shown.as_str().is_empty() {
        "no diagnostic output".to_owned()
    } else {
        shown
    }
}

/// There is always something to show.
pub proof fn law_diagnostics_are_never_empty(stderr: Seq<u8>)
    ensures
        diagnostic(stderr).len() > 0,
{
    reveal_strlit("no diagnostic output");
}

} // verus!
