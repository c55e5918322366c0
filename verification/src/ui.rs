//! What a person sees of a run: line by line, where there is no terminal to
//! draw on.

use crate::action;
use crate::action::{Action, ActionReport, ActionState, ActionView, Progress};
use crate::format::{display_path, human_duration, human_size};
use crate::path::{Platform, TreePath};
use crate::summary::NumberedReport;
use crate::text;
use vstd::prelude::*;

verus! {

/// The milliseconds between two looks at a run.
pub const FRAME_INTERVAL_MILLIS: u64 = 100;

/// A run at one moment.
pub struct RunContext<'a> {
    pub root: &'a TreePath,
    pub platform: Platform,
    pub actions: &'a Vec<Action>,
    /// The counters of the actions, in the order of the actions.
    pub progress: &'a Vec<Progress>,
    pub discovery_errors: &'a Vec<String>,
}

/// What a display leaves behind.
#[derive(Debug)]
pub struct UiOutcome {
    pub reports: Vec<NumberedReport>,
    pub cancelled: bool,
    /// Plain output shows each action as it ends; the dashboard paints over
    /// the screen and leaves it to the caller to print the reports.
    pub already_logged: bool,
}

/// A way to show a run.
#[derive(Clone, Copy, Debug, PartialEq, Eq, Structural)]
pub enum Display {
    Dashboard,
    Plain,
}

/// The way to show a run, and a notice where that is not the way it was meant
/// to be shown. There is a dashboard wherever there is a terminal that can be
/// driven; one that cannot is not worth failing the cleanup over.
pub fn run(terminal: Option<Result<(), String>>) -> (choice: (Display, Option<String>))
    ensures
        match terminal {
            Some(Ok(_)) => choice.0 is Dashboard && choice.1 is None,
            Some(Err(error)) => {
                &&& choice.0 is Plain
                &&& choice.1 matches Some(notice)
                &&& notice@ == "Falling back to plain output: "@ + error@
            },
            None => choice.0 is Plain && choice.1 is None,
        },
{
    match terminal {
        Some(Ok(_)) => (Display::Dashboard, None),
        Some(Err(error)) => {
            let mut notice = "Falling back to plain output: ".to_owned();
            notice.append(error.as_str());
            (Display::Plain, Some(notice))
        },
        None => (Display::Plain, None),
    }
}

/// The line for a failure to find actions.
pub open spec fn discovery_line(error: Seq<char>) -> Seq<char> {
    "[discovery error] "@ + error
}

/// The lines for failures to find actions.
pub fn discovery_lines(errors: &Vec<String>) -> (lines: Vec<String>)
    ensures
        text::texts(lines@) == text::texts(errors@).map_values(
            |error: Seq<char>| discovery_line(error),
        ),
{
    let mut lines: Vec<String> = Vec::new();
    let mut index: usize = 0;
    while index < errors.len()
        invariant
            index <= errors.len(),
            lines.len() == index,
            forall|i: int| 0 <= i < index ==> (#[trigger] lines[i])@ == discovery_line(errors[i]@),
        decreases errors.len() - index,
    {
        let mut line = "[discovery error] ".to_owned();
        line.append(errors[index].as_str());
        lines.push(line);
        index = index + 1;
    }
    assert(text::texts(lines@) =~= text::texts(errors@).map_values(
        |error: Seq<char>| discovery_line(error),
    ));
    lines
}

/// The first line of a run.
pub fn opening_line(action_count: usize) -> (line: String)
    ensures
        line@ == "Running "@ + text::decimal(action_count as nat) + " cleanup actions"@,
{
    let mut line = "Running ".to_owned();
    line.append(text::decimal_text(action_count as u128).as_str());
    line.append(" cleanup actions");
    line
}

/// The line for the start of an action.
pub open spec fn start_line(action: ActionView, platform: Platform) -> Seq<char> {
    "[start] "@ + text::aligned_left(action::label_text(action.kind), 12) + " "@
        + crate::format::display_text(action.path, platform)
}

/// Whether an action has begun and nobody has said so.
pub open spec fn newly_started(progress: Seq<Progress>, announced: Seq<bool>, index: int) -> bool {
    !announced[index] && progress[index]@.state != ActionState::Pending
}

/// The lines for the first `count` actions that have begun without anybody
/// having said so.
pub open spec fn start_lines(
    actions: Seq<Action>,
    progress: Seq<Progress>,
    announced: Seq<bool>,
    platform: Platform,
    count: nat,
) -> Seq<Seq<char>>
    decreases count,
{
    if count == 0 {
        Seq::empty()
    } else {
        let earlier = start_lines(actions, progress, announced, platform, (count - 1) as nat);
        if newly_started(progress, announced, count - 1) {
            earlier.push(start_line(actions[count - 1]@, platform))
        } else {
            earlier
        }
    }
}

/// Which actions have been announced once these lines are out.
pub open spec fn announced_after(progress: Seq<Progress>, announced: Seq<bool>) -> Seq<bool> {
    Seq::new(
        announced.len(),
        |i: int| announced[i] || (i < progress.len() && newly_started(progress, announced, i)),
    )
}

/// Says which actions have begun since the last time.
pub fn announce_started(context: &RunContext, announced: &mut Vec<bool>) -> (lines: Vec<String>)
    requires
        context.progress.len() <= old(announced).len(),
        context.progress.len() <= context.actions.len(),
    ensures
        text::texts(lines@) == start_lines(
            context.actions@,
            context.progress@,
            old(announced)@,
            context.platform,
            context.progress@.len(),
        ),
        final(announced)@ == announced_after(context.progress@, old(announced)@),
{
    broadcast use text::group_texts;

    let ghost before = announced@;
    let mut lines: Vec<String> = Vec::new();
    let mut index: usize = 0;
    while index < context.progress.len()
        invariant
            index <= context.progress.len() <= announced.len(),
            context.progress.len() <= context.actions.len(),
            announced.len() == before.len(),
            text::texts(lines@) == start_lines(
                context.actions@,
                context.progress@,
                before,
                context.platform,
                index as nat,
            ),
            forall|i: int|
                0 <= i < announced.len() ==> #[trigger] announced[i] == (before[i] || (i < index
                    && newly_started(context.progress@, before, i))),
        decreases context.progress.len() - index,
    {
        broadcast use text::group_texts;

        if !announced[index] {
            match context.progress[index].state() {
                ActionState::Pending => {},
                _ => {
                    announced.set(index, true);
                    let action = &context.actions[index];
                    let mut line = "[start] ".to_owned();
                    line.append(text::align_left(action.kind.label(), 12).as_str());
                    line.append(" ");
                    line.append(display_path(&action.path, context.platform).as_str());
                    lines.push(line);
                },
            }
        }
        index = index + 1;
    }
    assert(announced@ =~= announced_after(context.progress@, before));
    lines
}

/// The word for how an action ended.
pub open spec fn status_word(report: ActionReport) -> Seq<char> {
    if report.skipped {
        "skip"@
    } else if report.error_count > 0 {
        "error"@
    } else {
        "ok"@
    }
}

/// The line for the end of an action.
pub open spec fn report_line(report: ActionReport, platform: Platform) -> Seq<char> {
    "["@ + status_word(report) + "] "@ + text::aligned_left(action::label_text(report.kind), 12)
        + " "@ + crate::format::display_text(report.path@, platform) + " — "@
        + crate::format::size_text(report.reclaimed_bytes as nat) + " reclaimed in "@
        + crate::format::duration_text(report.elapsed.secs(), report.elapsed.nanos())
}

/// The lines for the failures of an action.
pub open spec fn report_problems(report: ActionReport) -> Seq<Seq<char>> {
    text::texts(report.errors@).map_values(|error: Seq<char>| "  "@ + error)
}

/// Shows how an action ended: a line for its result, and one for each failure.
pub fn print_report(report: &ActionReport, platform: Platform) -> (shown: (String, Vec<String>))
    ensures
        shown.0@ == report_line(*report, platform),
        text::texts(shown.1@) == report_problems(*report),
{
    let mut line = "[".to_owned();
    if report.skipped {
        line.append("skip");
    } else if report.error_count > 0 {
        line.append("error");
    } else {
        line.append("ok");
    }
    line.append("] ");
    line.append(text::align_left(report.kind.label(), 12).as_str());
    line.append(" ");
    line.append(display_path(&report.path, platform).as_str());
    line.append(" — ");
    line.append(human_size(report.reclaimed_bytes).as_str());
    line.append(" reclaimed in ");
    line.append(human_duration(report.elapsed).as_str());
    let mut problems: Vec<String> = Vec::new();
    let mut index: usize = 0;
    while index < report.errors.len()
        invariant
            index <= report.errors.len(),
            problems.len() == index,
            forall|i: int|
                0 <= i < index ==> (#[trigger] problems[i])@ == "  "@ + report.errors[i]@,
        decreases report.errors.len() - index,
    {
        let mut problem = "  ".to_owned();
        problem.append(report.errors[index].as_str());
        problems.push(problem);
        index = index + 1;
    }
    assert(text::texts(problems@) =~= report_problems(*report));
    (line, problems)
}

/// What happens to a run that is shown line by line.
#[derive(Debug)]
pub enum PlainEvent {
    /// It is about to wait for a report.
    Polling,
    /// A report came in time.
    Received(usize, ActionReport),
    /// None came in time.
    Timeout,
    /// None will come any more.
    Disconnected,
}

/// What to print: lines for the standard output, then lines for the standard
/// error.
#[derive(Debug)]
pub struct PlainOutput {
    pub lines: Vec<String>,
    pub problems: Vec<String>,
}

/// A run that is shown line by line.
#[derive(Debug)]
pub struct PlainRun {
    reports: Vec<NumberedReport>,
    announced: Vec<bool>,
    disconnected: bool,
}

/// A run that is shown line by line, as a value.
#[verifier::ext_equal]
pub struct PlainRunView {
    pub reports: Seq<NumberedReport>,
    pub announced: Seq<bool>,
    pub disconnected: bool,
}

impl View for PlainRun {
    type V = PlainRunView;

    closed spec fn view(&self) -> PlainRunView {
        PlainRunView {
            reports: self.reports@,
            announced: self.announced@,
            disconnected: self.disconnected,
        }
    }
}

impl PlainRunView {
    /// Whether there is nothing left to wait for: every action has reported,
    /// or nobody is left who could.
    pub open spec fn is_over(self) -> bool {
        self.reports.len() >= self.announced.len() || self.disconnected
    }

    /// With the actions announced that have begun.
    pub open spec fn announcing(self, progress: Seq<Progress>) -> PlainRunView {
        PlainRunView { announced: announced_after(progress, self.announced), ..self }
    }

    /// What it becomes.
    pub open spec fn after(self, event: PlainEvent, progress: Seq<Progress>) -> PlainRunView {
        match event {
            PlainEvent::Polling => self.announcing(progress),
            PlainEvent::Received(index, report) => {
                let announced = self.announcing(progress);
                PlainRunView { reports: announced.reports.push((index, report)), ..announced }
            },
            PlainEvent::Timeout => self,
            PlainEvent::Disconnected => PlainRunView { disconnected: true, ..self },
        }
    }

    /// What it becomes in the course of events, each at a moment of its own.
    pub open spec fn after_all(self, events: Seq<(PlainEvent, Seq<Progress>)>) -> PlainRunView
        decreases events.len(),
    {
        if events.len() == 0 {
            self
        } else {
            self.after_all(events.drop_last()).after(events.last().0, events.last().1)
        }
    }
}

/// What a run shows of an event on the standard output. An action that ends
/// as soon as it has begun is announced first.
pub open spec fn event_lines(
    announced: Seq<bool>,
    event: PlainEvent,
    actions: Seq<Action>,
    progress: Seq<Progress>,
    platform: Platform,
) -> Seq<Seq<char>> {
    let started = start_lines(actions, progress, announced, platform, progress.len());
    match event {
        PlainEvent::Polling => started,
        PlainEvent::Received(_, report) => started.push(report_line(report, platform)),
        _ => Seq::empty(),
    }
}

/// What a run shows of an event on the standard error.
pub open spec fn event_problems(event: PlainEvent) -> Seq<Seq<char>> {
    match event {
        PlainEvent::Received(_, report) => report_problems(report),
        _ => Seq::empty(),
    }
}

impl PlainRun {
    /// A run of so many actions, before anything has happened.
    pub fn new(action_count: usize) -> (run: PlainRun)
        ensures
            run@ == (PlainRunView {
                reports: Seq::empty(),
                announced: Seq::new(action_count as nat, |i: int| false),
                disconnected: false,
            }),
    {
        let mut announced: Vec<bool> = Vec::new();
        let mut index: usize = 0;
        while index < action_count
            invariant
                index <= action_count,
                announced@ == Seq::new(index as nat, |i: int| false),
            decreases action_count - index,
        {
            announced.push(false);
            index = index + 1;
            assert(announced@ =~= Seq::new(index as nat, |i: int| false));
        }
        PlainRun { reports: Vec::new(), announced, disconnected: false }
    }

    /// Whether there is nothing left to wait for.
    pub fn is_over(&self) -> (over: bool)
        ensures
            over == self@.is_over(),
    {
        self.reports.len() >= self.announced.len() || self.disconnected
    }

    /// Takes in what happened and says what to print.
    pub fn run_plain(&mut self, context: &RunContext, event: PlainEvent) -> (output: PlainOutput)
        requires
            context.progress.len() <= context.actions.len(),
            context.progress.len() <= old(self)@.announced.len(),
        ensures
            final(self)@ == old(self)@.after(event, context.progress@),
            text::texts(output.lines@) == event_lines(
                old(self)@.announced,
                event,
                context.actions@,
                context.progress@,
                context.platform,
            ),
            text::texts(output.problems@) == event_problems(event),
    {
        broadcast use text::group_texts;

        match event {
            PlainEvent::Polling => {
                let lines = announce_started(context, &mut self.announced);
                assert(self@ =~= old(self)@.after(event, context.progress@));
                PlainOutput { lines, problems: Vec::new() }
            },
            PlainEvent::Received(index, report) => {
                let mut lines = announce_started(context, &mut self.announced);
                let (line, problems) = print_report(&report, context.platform);
                lines.push(line);
                self.reports.push((index, report));
                assert(self@ =~= old(self)@.after(event, context.progress@));
                PlainOutput { lines, problems }
            },
            PlainEvent::Timeout => PlainOutput { lines: Vec::new(), problems: Vec::new() },
            PlainEvent::Disconnected => {
                self.disconnected = true;
                PlainOutput { lines: Vec::new(), problems: Vec::new() }
            },
        }
    }

    /// What the run leaves behind.
    pub fn outcome(self) -> (outcome: UiOutcome)
        ensures
            outcome.reports@ == self@.reports,
            !outcome.cancelled,
            outcome.already_logged,
    {
        UiOutcome { reports: self.reports, cancelled: false, already_logged: true }
    }
}

/// How many reports came in the course of events.
pub open spec fn received_among(events: Seq<(PlainEvent, Seq<Progress>)>) -> nat
    decreases events.len(),
{
    if events.len() == 0 {
        0
    } else {
        received_among(events.drop_last()) + if events.last().0 is Received {
            1nat
        } else {
            0nat
        }
    }
}

/// A run is over once every action has reported or nobody is left to report,
/// and not before, whatever else happens.
pub proof fn law_plain_runs_end(
    run: PlainRunView,
    events: Seq<(PlainEvent, Seq<Progress>)>,
)
    ensures
        run.after_all(events).is_over() <==> {
            ||| run.reports.len() + received_among(events) >= run.announced.len()
            ||| run.disconnected
            ||| exists|i: int| 0 <= i < events.len() && (#[trigger] events[i]).0 is Disconnected
        },
{
    lemma_course_of_events(run, events);
}

proof fn lemma_course_of_events(run: PlainRunView, events: Seq<(PlainEvent, Seq<Progress>)>)
    ensures
        run.after_all(events).reports.len() == run.reports.len() + received_among(events),
        run.after_all(events).announced.len() == run.announced.len(),
        run.after_all(events).disconnected <==> {
            ||| run.disconnected
            ||| exists|i: int| 0 <= i < events.len() && (#[trigger] events[i]).0 is Disconnected
        },
    decreases events.len(),
{
    if events.len() > 0 {
        let earlier = events.drop_last();
        lemma_course_of_events(run, earlier);
        if exists|i: int| 0 <= i < earlier.len() && (#[trigger] earlier[i]).0 is Disconnected {
            let i = choose|i: int| 0 <= i < earlier.len() && (#[trigger] earlier[i]).0 is Disconnected;
            assert(events[i].0 is Disconnected);
        }
        if exists|i: int| 0 <= i < events.len() && (#[trigger] events[i]).0 is Disconnected {
            let i = choose|i: int| 0 <= i < events.len() && (#[trigger] events[i]).0 is Disconnected;
            if i < earlier.len() {
                assert(earlier[i].0 is Disconnected);
            } else {
                assert(events.last() == events[i]);
            }
        }
        assert(events.last() == events[events.len() - 1]);
    }
}

/// Once the actions that have begun are announced, there is nothing left to
/// announce until another one begins.
pub proof fn law_nothing_is_announced_twice(
    actions: Seq<Action>,
    progress: Seq<Progress>,
    announced: Seq<bool>,
    platform: Platform,
    count: nat,
)
    requires
        count <= progress.len() <= announced.len(),
    ensures
        start_lines(
            actions,
            progress,
            announced_after(progress, announced),
            platform,
            count,
        ).len() == 0,
    decreases count,
{
    if count > 0 {
        law_nothing_is_announced_twice(
            actions,
            progress,
            announced,
            platform,
            (count - 1) as nat,
        );
    }
}

proof fn lemma_started_is_announced(
    actions: Seq<Action>,
    progress: Seq<Progress>,
    announced: Seq<bool>,
    platform: Platform,
    count: nat,
    index: int,
)
    requires
        0 <= index < count,
        newly_started(progress, announced, index),
    ensures
        start_lines(actions, progress, announced, platform, count).contains(
            start_line(actions[index]@, platform),
        ),
    decreases count,
{
    let lines = start_lines(actions, progress, announced, platform, count);
    let line = start_line(actions[index]@, platform);
    if index == count - 1 {
        assert(lines[lines.len() - 1] == line);
    } else {
        let earlier = start_lines(actions, progress, announced, platform, (count - 1) as nat);
        lemma_started_is_announced(
            actions,
            progress,
            announced,
            platform,
            (count - 1) as nat,
            index,
        );
        let k = choose|k: int| 0 <= k < earlier.len() && earlier[k] == line;
        assert(lines[k] == line);
    }
}

/// The start of an action is shown before its result, even if it ends between
/// two looks at the run.
pub proof fn law_starts_precede_results(
    run: PlainRunView,
    actions: Seq<Action>,
    progress: Seq<Progress>,
    platform: Platform,
    index: usize,
    report: ActionReport,
)
    requires
        index < progress.len() <= run.announced.len(),
        progress[index as int]@.state != ActionState::Pending,
    ensures
        ({
            let event = PlainEvent::Received(index, report);
            let lines = event_lines(run.announced, event, actions, progress, platform);
            &&& run.after(event, progress).announced[index as int]
            &&& lines.last() == report_line(report, platform)
            &&& !run.announced[index as int] ==> lines.drop_last().contains(
                start_line(actions[index as int]@, platform),
            )
        }),
{
    let event = PlainEvent::Received(index, report);
    let lines = event_lines(run.announced, event, actions, progress, platform);
    let started = start_lines(actions, progress, run.announced, platform, progress.len());
    assert(lines.drop_last() =~= started);
    if !run.announced[index as int] {
        lemma_started_is_announced(
            actions,
            progress,
            run.announced,
            platform,
            progress.len(),
            index as int,
        );
    }
}

} // verus!
