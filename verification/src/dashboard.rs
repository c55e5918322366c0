//! What a person sees of a run on a terminal: a header, the actions, the
//! problems and the overall progress.

use crate::action::ActionReport;
use crate::format::{relative_display, Span};
use crate::path::{PartView, Platform, TreePath};
use crate::screen;
use crate::screen::{draw_footer, draw_header, draw_row, ActionRow, ActionRowView, Finished, Footer};
use crate::screen::{Header, Totals};
use crate::summary::NumberedReport;
use crate::text;
use crate::ui::{RunContext, UiOutcome};
use ratatui::layout::{Constraint, Layout, Rect};
use vstd::prelude::*;

verus! {

/// The most problems that are shown at once.
pub const PROBLEM_LINES: usize = 6;

/// What is kept of a report.
pub open spec fn finish_of(report: ActionReport) -> Finished {
    Finished {
        reclaimed_bytes: report.reclaimed_bytes,
        elapsed: report.elapsed,
        error_count: report.error_count,
        skipped: report.skipped,
    }
}

/// The state of the display.
#[derive(Debug)]
pub struct Dashboard {
    finished: Vec<Option<Finished>>,
    errors: Vec<String>,
    action_offset: usize,
    follow_active: bool,
    error_offset: usize,
    cancelling: bool,
}

/// The state of the display as a value.
#[verifier::ext_equal]
pub struct DashboardView {
    /// What is kept of each action, once it has reported.
    pub finished: Seq<Option<Finished>>,
    /// The problems so far.
    pub errors: Seq<Seq<char>>,
    /// The first action on display.
    pub action_offset: nat,
    /// Whether the display follows the actions at work.
    pub follow_active: bool,
    /// The first problem on display.
    pub error_offset: nat,
    /// Whether the run is being cancelled.
    pub cancelling: bool,
}

impl View for Dashboard {
    type V = DashboardView;

    closed spec fn view(&self) -> DashboardView {
        DashboardView {
            finished: self.finished@,
            errors: text::texts(self.errors@),
            action_offset: self.action_offset as nat,
            follow_active: self.follow_active,
            error_offset: self.error_offset as nat,
            cancelling: self.cancelling,
        }
    }
}

/// The display of a run that has just begun.
pub open spec fn dashboard_begun(
    action_count: nat,
    discovery_errors: Seq<Seq<char>>,
) -> DashboardView {
    DashboardView {
        finished: Seq::new(action_count, |i: int| None),
        errors: discovery_errors,
        action_offset: 0,
        follow_active: true,
        error_offset: 0,
        cancelling: false,
    }
}

/// What a person asks of the display.
#[derive(Clone, Copy, Debug, PartialEq, Eq, Structural)]
pub enum Key {
    Quit,
    ActionsUp,
    ActionsDown,
    ActionsFollow,
    ErrorsUp,
    ErrorsDown,
}

/// One step towards the beginning.
pub open spec fn one_up(offset: nat) -> nat {
    if offset > 0 {
        (offset - 1) as nat
    } else {
        0
    }
}

/// One step towards the end, but not past the last of `count` lines.
pub open spec fn one_down(offset: nat, count: nat) -> nat {
    if offset + 1 < count {
        offset + 1
    } else {
        one_up(count)
    }
}

impl DashboardView {
    /// With the report of an action taken in.
    pub open spec fn recorded(
        self,
        index: int,
        report: ActionReport,
        root: Seq<PartView>,
        platform: Platform,
    ) -> DashboardView {
        let label = crate::format::relative_text(report.path@, root, platform);
        DashboardView {
            finished: self.finished.update(index, Some(finish_of(report))),
            errors: self.errors + text::texts(report.errors@).map_values(
                |error: Seq<char>| label + ": "@ + error,
            ),
            ..self
        }
    }

    /// What it becomes when a person asks for something.
    pub open spec fn asked(self, key: Key, action_count: nat) -> DashboardView {
        match key {
            Key::Quit => DashboardView { cancelling: true, ..self },
            Key::ActionsUp => DashboardView {
                follow_active: false,
                action_offset: one_up(self.action_offset),
                ..self
            },
            Key::ActionsDown => DashboardView {
                follow_active: false,
                action_offset: one_down(self.action_offset, action_count),
                ..self
            },
            Key::ActionsFollow => DashboardView { follow_active: true, ..self },
            Key::ErrorsUp => DashboardView { error_offset: one_up(self.error_offset), ..self },
            Key::ErrorsDown => DashboardView {
                error_offset: one_down(self.error_offset, self.errors.len()),
                ..self
            },
        }
    }
}

fn step_down(offset: usize, count: usize) -> (next: usize)
    ensures
        next == one_down(offset as nat, count as nat),
{
    if offset < count && offset + 1 < count {
        offset + 1
    } else if count > 0 {
        count - 1
    } else {
        0
    }
}

impl Dashboard {
    /// The display of a run that has just begun.
    pub fn new(context: &RunContext) -> (dashboard: Dashboard)
        ensures
            dashboard@ == dashboard_begun(
                context.actions@.len(),
                text::texts(context.discovery_errors@),
            ),
    {
        let mut finished: Vec<Option<Finished>> = Vec::new();
        let mut index: usize = 0;
        while index < context.actions.len()
            invariant
                index <= context.actions.len(),
                finished@ == Seq::new(index as nat, |i: int| None::<Finished>),
            decreases context.actions.len() - index,
        {
            finished.push(None);
            index = index + 1;
            assert(finished@ =~= Seq::new(index as nat, |i: int| None::<Finished>));
        }
        Dashboard {
            finished,
            errors: text::copy_lines(context.discovery_errors),
            action_offset: 0,
            follow_active: true,
            error_offset: 0,
            cancelling: false,
        }
    }

    /// How many actions there are.
    pub fn action_count(&self) -> (count: usize)
        ensures
            count == self@.finished.len(),
    {
        self.finished.len()
    }

    /// Takes in the report of an action.
    pub fn record(
        &mut self,
        index: usize,
        report: &ActionReport,
        root: &TreePath,
        platform: Platform,
    )
        requires
            index < old(self)@.finished.len(),
        ensures
            final(self)@ == old(self)@.recorded(index as int, *report, root@, platform),
    {
        self.finished.set(
            index,
            Some(
                Finished {
                    reclaimed_bytes: report.reclaimed_bytes,
                    elapsed: report.elapsed,
                    error_count: report.error_count,
                    skipped: report.skipped,
                },
            ),
        );
        let label = relative_display(&report.path, root, platform);
        let ghost lines = text::texts(report.errors@).map_values(
            |error: Seq<char>| label@ + ": "@ + error,
        );
        let ghost finished = self.finished@;
        let mut at: usize = 0;
        assert(text::texts(self.errors@) =~= old(self)@.errors + lines.take(0));
        while at < report.errors.len()
            invariant
                at <= report.errors.len(),
                lines == text::texts(report.errors@).map_values(
                    |error: Seq<char>| label@ + ": "@ + error,
                ),
                text::texts(self.errors@) == old(self)@.errors + lines.take(at as int),
                self.finished@ == finished,
                self.action_offset == old(self).action_offset,
                self.follow_active == old(self).follow_active,
                self.error_offset == old(self).error_offset,
                self.cancelling == old(self).cancelling,
            decreases report.errors.len() - at,
        {
            broadcast use text::group_texts;

            let mut line = label.as_str().to_owned();
            line.append(": ");
            line.append(report.errors[at].as_str());
            self.errors.push(line);
            assert(lines[at as int] == line@);
            assert(lines.take(at + 1) =~= lines.take(at as int).push(line@));
            at = at + 1;
            assert(text::texts(self.errors@) =~= old(self)@.errors + lines.take(at as int));
        }
        assert(lines.take(at as int) =~= lines);
        assert(self@ =~= old(self)@.recorded(index as int, *report, root@, platform));
    }

    /// Does what a person asks for.
    pub fn ask(&mut self, key: Key, action_count: usize)
        ensures
            final(self)@ == old(self)@.asked(key, action_count as nat),
    {
        match key {
            Key::Quit => {
                self.cancelling = true;
            },
            Key::ActionsUp => {
                self.follow_active = false;
                self.action_offset = self.action_offset.saturating_sub(1);
            },
            Key::ActionsDown => {
                self.follow_active = false;
                self.action_offset = step_down(self.action_offset, action_count);
            },
            Key::ActionsFollow => {
                self.follow_active = true;
            },
            Key::ErrorsUp => {
                self.error_offset = self.error_offset.saturating_sub(1);
            },
            Key::ErrorsDown => {
                self.error_offset = step_down(self.error_offset, self.errors.len());
            },
        }
        assert(self@ =~= old(self)@.asked(key, action_count as nat));
    }
}

/// The keys that mean something, and all others.
#[derive(Clone, Copy, Debug, PartialEq, Eq, Structural)]
pub enum KeyCode {
    Char(char),
    Esc,
    Up,
    Down,
    Home,
    PageUp,
    PageDown,
    Other,
}

/// What became of a key.
#[derive(Clone, Copy, Debug, PartialEq, Eq, Structural)]
pub struct KeyPress {
    pub code: KeyCode,
    /// Whether the control key was held.
    pub control: bool,
    /// Whether the key went down, not up.
    pub pressed: bool,
}

/// What a key asks for.
pub open spec fn key_of(press: KeyPress) -> Option<Key> {
    if !press.pressed {
        None
    } else {
        match press.code {
            KeyCode::Char(c) => if (c == 'c' && press.control) || c == 'q' {
                Some(Key::Quit)
            } else {
                None
            },
            KeyCode::Esc => Some(Key::Quit),
            KeyCode::Up => Some(Key::ActionsUp),
            KeyCode::Down => Some(Key::ActionsDown),
            KeyCode::Home => Some(Key::ActionsFollow),
            KeyCode::PageUp => Some(Key::ErrorsUp),
            KeyCode::PageDown => Some(Key::ErrorsDown),
            KeyCode::Other => None,
        }
    }
}

/// Finds out what a key asks for, if there was one.
pub fn poll_key(press: Option<KeyPress>) -> (key: Option<Key>)
    ensures
        key == (match press {
            Some(press) => key_of(press),
            None => None,
        }),
{
    match press {
        None => None,
        Some(press) => {
            if !press.pressed {
                return None;
            }
            match press.code {
                KeyCode::Char(c) => if (c == 'c' && press.control) || c == 'q' {
                    Some(Key::Quit)
                } else {
                    None
                },
                KeyCode::Esc => Some(Key::Quit),
                KeyCode::Up => Some(Key::ActionsUp),
                KeyCode::Down => Some(Key::ActionsDown),
                KeyCode::Home => Some(Key::ActionsFollow),
                KeyCode::PageUp => Some(Key::ErrorsUp),
                KeyCode::PageDown => Some(Key::ErrorsDown),
                KeyCode::Other => None,
            }
        },
    }
}

/// A rectangle on the screen.
#[derive(Clone, Copy, Debug, PartialEq, Eq, Structural)]
pub struct Area {
    pub x: u16,
    pub y: u16,
    pub width: u16,
    pub height: u16,
}

/// The rectangles of the parts of the screen.
#[derive(Clone, Copy, Debug, PartialEq, Eq, Structural)]
pub struct Panes {
    pub header: Area,
    pub actions: Area,
    pub problems: Area,
    pub footer: Area,
}

/// Whether a rectangle is as wide as another one and lies inside it.
pub open spec fn stacked_in(part: Area, area: Area) -> bool {
    &&& part.x == area.x
    &&& part.width == area.width
    &&& area.y <= part.y
    &&& part.y + part.height <= area.y + area.height
}

/// Whether all parts of the screen lie inside it.
pub open spec fn panes_inside(panes: Panes, area: Area) -> bool {
    &&& stacked_in(panes.header, area)
    &&& stacked_in(panes.actions, area)
    &&& stacked_in(panes.problems, area)
    &&& stacked_in(panes.footer, area)
}

/// Whether the parts of the screen follow one another from its top down, with
/// no gap between them.
pub open spec fn panes_in_turn(panes: Panes, area: Area) -> bool {
    &&& panes.header.y == area.y
    &&& panes.actions.y == panes.header.y + panes.header.height
    &&& panes.problems.y == panes.actions.y + panes.actions.height
    &&& panes.footer.y == panes.problems.y + panes.problems.height
}

/// The parts of the screen one below the other, where there is room for all:
/// three have heights of their own and the actions have the rest.
pub open spec fn panes_with_room(
    area: Area,
    header: u16,
    problems: u16,
    footer: u16,
) -> Panes {
    let actions = (area.height - header - problems - footer) as u16;
    Panes {
        header: Area { height: header, ..area },
        actions: Area { y: (area.y + header) as u16, height: actions, ..area },
        problems: Area { y: (area.y + header + actions) as u16, height: problems, ..area },
        footer: Area {
            y: (area.y + header + actions + problems) as u16,
            height: footer,
            ..area
        },
    }
}

/// Calls `ratatui::layout::Layout::areas` on a vertical layout of four parts:
/// a header, a problems and a footer part of preferred heights, and an actions
/// part of a least height before the problems. Claimed of it: each part is as
/// wide as the whole and lies inside it; they follow one another from the top
/// without gaps, as gaps are what the solver avoids most; the actions have
/// their least height or else the whole height, as the solver gives up the
/// other heights first; and where there is room for all, each has the height
/// it should have and the actions have the rest. What is left unsaid: how the
/// three other heights are cut where there is no room. The solver inside walks
/// maps whose order differs from process to process.
#[verifier::external_body]
fn split_area(area: Area, header: u16, actions: u16, problems: u16, footer: u16) -> (panes: Panes)
    requires
        area.x + area.width <= u16::MAX,
        area.y + area.height <= u16::MAX,
        actions <= i16::MAX,
    ensures
        panes_inside(panes, area),
        panes_in_turn(panes, area),
        panes.actions.height >= smaller(actions as nat, area.height as nat),
        header + actions + problems + footer <= area.height ==> panes == panes_with_room(
            area,
            header,
            problems,
            footer,
        ),
{
    let whole = Rect::new(area.x, area.y, area.width, area.height);
    let [a, b, c, d] = Layout::vertical(
        [
            Constraint::Length(header),
            Constraint::Min(actions),
            Constraint::Length(problems),
            Constraint::Length(footer),
        ],
    ).areas(whole);
    Panes {
        header: Area { x: a.x, y: a.y, width: a.width, height: a.height },
        actions: Area { x: b.x, y: b.y, width: b.width, height: b.height },
        problems: Area { x: c.x, y: c.y, width: c.width, height: c.height },
        footer: Area { x: d.x, y: d.y, width: d.width, height: d.height },
    }
}

/// The height of the list of problems with its border; none where there are
/// no problems.
pub open spec fn problems_height(count: nat) -> nat {
    if count == 0 {
        0
    } else if count < PROBLEM_LINES {
        count + 2
    } else {
        (PROBLEM_LINES + 2) as nat
    }
}

/// The first action that has not reported; the first of all where none is
/// left.
pub open spec fn first_unfinished(finished: Seq<Option<Finished>>) -> nat {
    if exists|i: int| 0 <= i < finished.len() && finished[i] is None {
        unfinished_from(finished, 0)
    } else {
        0
    }
}

/// The first action from one on that has not reported.
pub open spec fn unfinished_from(finished: Seq<Option<Finished>>, from: nat) -> nat
    decreases finished.len() - from,
{
    if from < finished.len() && finished[from as int] is Some {
        unfinished_from(finished, from + 1)
    } else {
        from
    }
}

/// How many lines fit into a rectangle, apart from those that are taken.
pub open spec fn visible_lines(area: Area, taken: nat) -> nat {
    if area.height > taken {
        (area.height - taken) as nat
    } else {
        0
    }
}

/// The last offset at which a list still fills what is visible of it.
pub open spec fn last_offset(count: nat, visible: nat) -> nat {
    let lines = if visible > 0 {
        visible
    } else {
        1
    };
    if count > lines {
        (count - lines) as nat
    } else {
        0
    }
}

/// The smaller of two numbers.
pub open spec fn smaller(left: nat, right: nat) -> nat {
    if left < right {
        left
    } else {
        right
    }
}

impl DashboardView {
    /// The first action to show: the one that was asked for, or the first at
    /// work in the middle of the list; in either case the list stays full.
    pub open spec fn shown_from(self, action_count: nat, visible: nat) -> nat {
        let wanted = if self.follow_active {
            let first = first_unfinished(self.finished);
            let above = one_up(visible) / 2;
            if first > above {
                (first - above) as nat
            } else {
                0
            }
        } else {
            self.action_offset
        };
        smaller(wanted, last_offset(action_count, visible))
    }

    /// The problems to show.
    pub open spec fn shown_problems(self, visible: nat) -> Seq<Seq<char>> {
        let from = smaller(self.error_offset, last_offset(self.errors.len(), visible));
        let to = smaller(from + visible, self.errors.len());
        self.errors.subrange(from as int, to as int)
    }
}

/// The list of actions.
#[derive(Debug)]
pub struct ActionTable {
    pub title: String,
    pub columns: Vec<String>,
    pub rows: Vec<ActionRow>,
    /// The first row to show.
    pub offset: usize,
}

/// The values of the rows of a list.
pub open spec fn rows(list: Seq<ActionRow>) -> Seq<ActionRowView> {
    list.map_values(|row: ActionRow| row@)
}

/// The rows of all actions.
pub open spec fn action_rows(
    context: &RunContext,
    finished: Seq<Option<Finished>>,
) -> Seq<ActionRowView> {
    Seq::new(
        context.actions@.len(),
        |i: int|
            screen::row_of(
                context.actions@[i]@,
                finished[i],
                context.progress@[i]@,
                context.root@,
                context.platform,
            ),
    )
}

/// The list of problems.
#[derive(Debug)]
pub struct ProblemList {
    pub title: String,
    pub lines: Vec<String>,
}

impl Dashboard {
    /// Draws the list of actions and keeps where it begins.
    pub fn draw_actions(&mut self, context: &RunContext, area: Area) -> (table: ActionTable)
        requires
            old(self)@.finished.len() == context.actions.len(),
            context.progress.len() == context.actions.len(),
        ensures
            table.title@ == " actions "@,
            text::texts(table.columns@) == seq!["KIND"@, "PATH"@, "PROGRESS"@],
            rows(table.rows@) == action_rows(context, old(self)@.finished),
            table.offset == old(self)@.shown_from(
                context.actions@.len(),
                visible_lines(area, 3),
            ),
            final(self)@ == (DashboardView { action_offset: table.offset as nat, ..old(self)@ }),
    {
        let visible: usize = area.height.saturating_sub(3) as usize;
        if self.follow_active {
            let first: usize = self.first_unfinished();
            let above: usize = visible.saturating_sub(1) / 2;
            self.action_offset = first.saturating_sub(above);
        }
        let lines: usize = if visible > 0 {
            visible
        } else {
            1
        };
        let last: usize = context.actions.len().saturating_sub(lines);
        if last < self.action_offset {
            self.action_offset = last;
        }
        let mut drawn: Vec<ActionRow> = Vec::new();
        let mut index: usize = 0;
        while index < context.actions.len()
            invariant
                index <= context.actions.len(),
                self.finished@ == old(self)@.finished,
                self.finished.len() == context.actions.len(),
                context.progress.len() == context.actions.len(),
                rows(drawn@) == action_rows(context, old(self)@.finished).take(index as int),
            decreases context.actions.len() - index,
        {
            let row = draw_row(
                &context.actions[index],
                &self.finished[index],
                &context.progress[index],
                context.root,
                context.platform,
            );
            let ghost before = drawn@;
            drawn.push(row);
            proof {
                let all = action_rows(context, old(self)@.finished);
                assert(rows(drawn@) =~= rows(before).push(row@));
                assert(all.take(index + 1) =~= all.take(index as int).push(all[index as int]));
            }
            index = index + 1;
        }
        assert(rows(drawn@) =~= action_rows(context, old(self)@.finished));
        let mut columns: Vec<String> = Vec::new();
        columns.push("KIND".to_owned());
        columns.push("PATH".to_owned());
        columns.push("PROGRESS".to_owned());
        assert(text::texts(columns@) =~= seq!["KIND"@, "PATH"@, "PROGRESS"@]);
        assert(self@ =~= (DashboardView { action_offset: self.action_offset as nat, ..old(self)@ }));
        ActionTable { title: " actions ".to_owned(), columns, rows: drawn, offset: self.action_offset }
    }

    fn first_unfinished(&self) -> (first: usize)
        ensures
            first == first_unfinished(self@.finished),
    {
        let mut index: usize = 0;
        while index < self.finished.len()
            invariant
                index <= self.finished.len(),
                unfinished_from(self.finished@, 0) == unfinished_from(self.finished@, index as nat),
                forall|i: int| 0 <= i < index ==> self.finished[i] is Some,
            decreases self.finished.len() - index,
        {
            match &self.finished[index] {
                None => {
                    assert(self.finished@[index as int] is None);
                    return index;
                },
                Some(_) => {
                    index = index + 1;
                },
            }
        }
        0
    }

    /// Draws the list of problems.
    pub fn draw_errors(&self, area: Area) -> (problems: ProblemList)
        ensures
            problems.title@ == " problems ("@ + text::decimal(self@.errors.len())
                + ") — PgUp/PgDn "@,
            text::texts(problems.lines@) == self@.shown_problems(visible_lines(area, 2)),
    {
        let visible: usize = area.height.saturating_sub(2) as usize;
        let least: usize = if visible > 0 {
            visible
        } else {
            1
        };
        let last: usize = self.errors.len().saturating_sub(least);
        let from: usize = if self.error_offset < last {
            self.error_offset
        } else {
            last
        };
        let room: usize = self.errors.len() - from;
        let to: usize = if visible < room {
            from + visible
        } else {
            self.errors.len()
        };
        let mut lines: Vec<String> = Vec::new();
        let mut index: usize = from;
        assert(text::texts(lines@) =~= self@.errors.subrange(from as int, index as int));
        while index < to
            invariant
                from <= index <= to <= self.errors.len(),
                text::texts(lines@) == self@.errors.subrange(from as int, index as int),
            decreases to - index,
        {
            broadcast use text::group_texts;

            lines.push(self.errors[index].clone());
            index = index + 1;
            assert(self@.errors[index - 1] == self.errors[index - 1]@);
            assert(text::texts(lines@) =~= self@.errors.subrange(from as int, index as int));
        }
        let mut title = " problems (".to_owned();
        title.append(text::decimal_text(self.errors.len() as u128).as_str());
        title.append(") — PgUp/PgDn ");
        ProblemList { title, lines }
    }
}

/// The whole screen.
#[derive(Debug)]
pub struct Screen {
    pub panes: Panes,
    pub header: Header,
    pub table: ActionTable,
    /// Shown only where there are problems.
    pub problems: Option<ProblemList>,
    pub footer: Footer,
}

/// The numbers of a moment: what is done, how fast, how long it takes yet and
/// how long it has taken.
#[derive(Clone, Copy, Debug)]
pub struct Moment {
    pub summary: Totals,
    pub rate: Option<u64>,
    pub eta: Option<Span>,
    pub elapsed: Span,
}

impl Screen {
    /// Whether this is the screen of a display in its panes.
    pub open spec fn shows(
        &self,
        dashboard: DashboardView,
        context: &RunContext,
        moment: Moment,
    ) -> bool {
        &&& self.header.title@ == screen::title_text(
            dashboard.cancelling,
            context.root@,
            context.platform,
        )
        &&& screen::pieces(self.header.line@) == screen::header_line(
            context.actions@.len(),
            moment.summary,
            moment.elapsed,
        )
        &&& self.table.title@ == " actions "@
        &&& text::texts(self.table.columns@) == seq!["KIND"@, "PATH"@, "PROGRESS"@]
        &&& rows(self.table.rows@) == action_rows(context, dashboard.finished)
        &&& self.table.offset == dashboard.shown_from(
            context.actions@.len(),
            visible_lines(self.panes.actions, 3),
        )
        &&& match self.problems {
            Some(problems) => {
                &&& dashboard.errors.len() > 0
                &&& problems.title@ == " problems ("@ + text::decimal(dashboard.errors.len())
                    + ") — PgUp/PgDn "@
                &&& text::texts(problems.lines@) == dashboard.shown_problems(
                    visible_lines(self.panes.problems, 2),
                )
            },
            None => dashboard.errors.len() == 0,
        }
        &&& self.footer.title@ == " overall "@
        &&& self.footer.ratio@ == screen::overall(moment.summary)
        &&& self.footer.label@ == screen::footer_label(moment.summary, moment.rate, moment.eta)
    }
}

impl Dashboard {
    /// Draws the whole screen.
    pub fn draw(&mut self, context: &RunContext, moment: &Moment, area: Area) -> (screen: Screen)
        requires
            old(self)@.finished.len() == context.actions.len(),
            context.progress.len() == context.actions.len(),
            area.x + area.width <= u16::MAX,
            area.y + area.height <= u16::MAX,
        ensures
            screen.shows(old(self)@, context, *moment),
            final(self)@ == (DashboardView {
                action_offset: screen.table.offset as nat,
                ..old(self)@
            }),
            panes_inside(screen.panes, area),
            panes_in_turn(screen.panes, area),
            screen.panes.actions.height >= smaller(4, area.height as nat),
            10 + problems_height(old(self)@.errors.len()) <= area.height ==> screen.panes
                == panes_with_room(
                area,
                3,
                problems_height(old(self)@.errors.len()) as u16,
                3,
            ),
    {
        let count: usize = self.errors.len();
        let height: u16 = if count == 0 {
            0
        } else if count < PROBLEM_LINES {
            count as u16 + 2
        } else {
            PROBLEM_LINES as u16 + 2
        };
        let panes = split_area(area, 3, 4, height, 3);
        self.draw_in(context, moment, panes)
    }

    /// Draws the whole screen in its panes.
    pub fn draw_in(
        &mut self,
        context: &RunContext,
        moment: &Moment,
        panes: Panes,
    ) -> (screen: Screen)
        requires
            old(self)@.finished.len() == context.actions.len(),
            context.progress.len() == context.actions.len(),
        ensures
            screen.panes == panes,
            screen.shows(old(self)@, context, *moment),
            final(self)@ == (DashboardView {
                action_offset: screen.table.offset as nat,
                ..old(self)@
            }),
    {
        let header = draw_header(
            context.root,
            context.platform,
            context.actions.len(),
            &moment.summary,
            self.cancelling,
            moment.elapsed,
        );
        let table = self.draw_actions(context, panes.actions);
        let problems = if self.errors.len() == 0 {
            None
        } else {
            Some(self.draw_errors(panes.problems))
        };
        let footer = draw_footer(&moment.summary, moment.rate, moment.eta);
        Screen { panes, header, table, problems, footer }
    }
}

/// What happens to a run on a terminal.
#[derive(Debug)]
pub enum DashboardEvent {
    /// A report was there.
    Received(usize, ActionReport),
    /// None was there.
    Empty,
    /// None will come any more.
    Disconnected,
    /// The screen was drawn.
    Drawn,
    /// A person asked for something, or for nothing.
    Polled(Option<Key>),
}

/// What to do next.
#[derive(Clone, Copy, Debug, PartialEq, Eq, Structural)]
pub enum DashboardStep {
    /// See whether there is a report.
    Receive,
    /// Draw the screen.
    Draw,
    /// See whether a person asks for something.
    Poll,
    /// Nothing.
    Stop,
}

/// A run on a terminal.
#[derive(Debug)]
pub struct DashboardRun {
    dashboard: Dashboard,
    reports: Vec<NumberedReport>,
    cancelled: bool,
    disconnected: bool,
    step: DashboardStep,
}

/// A run on a terminal, as a value.
#[verifier::ext_equal]
pub struct DashboardRunView {
    pub dashboard: DashboardView,
    pub reports: Seq<NumberedReport>,
    pub cancelled: bool,
    pub disconnected: bool,
    pub step: DashboardStep,
}

impl View for DashboardRun {
    type V = DashboardRunView;

    closed spec fn view(&self) -> DashboardRunView {
        DashboardRunView {
            dashboard: self.dashboard@,
            reports: self.reports@,
            cancelled: self.cancelled,
            disconnected: self.disconnected,
            step: self.step,
        }
    }
}

impl DashboardRunView {
    /// Whether an event answers the step.
    pub open spec fn awaits(self, event: DashboardEvent) -> bool {
        match event {
            DashboardEvent::Received(index, _) => {
                &&& self.step == DashboardStep::Receive
                &&& index < self.dashboard.finished.len()
            },
            DashboardEvent::Empty => self.step == DashboardStep::Receive,
            DashboardEvent::Disconnected => self.step == DashboardStep::Receive,
            DashboardEvent::Drawn => self.step == DashboardStep::Draw,
            DashboardEvent::Polled(_) => self.step == DashboardStep::Poll,
        }
    }

    /// Whether there is nothing left to wait for.
    pub open spec fn is_over(self) -> bool {
        self.reports.len() >= self.dashboard.finished.len() || self.disconnected
    }

    /// What it becomes.
    pub open spec fn after(
        self,
        event: DashboardEvent,
        root: Seq<PartView>,
        platform: Platform,
    ) -> DashboardRunView {
        match event {
            DashboardEvent::Received(index, report) => DashboardRunView {
                dashboard: self.dashboard.recorded(index as int, report, root, platform),
                reports: self.reports.push((index, report)),
                ..self
            },
            DashboardEvent::Empty => DashboardRunView { step: DashboardStep::Draw, ..self },
            DashboardEvent::Disconnected => DashboardRunView {
                disconnected: true,
                step: DashboardStep::Draw,
                ..self
            },
            DashboardEvent::Drawn => DashboardRunView {
                step: if self.is_over() {
                    DashboardStep::Stop
                } else {
                    DashboardStep::Poll
                },
                ..self
            },
            DashboardEvent::Polled(key) => DashboardRunView {
                dashboard: match key {
                    Some(key) => self.dashboard.asked(key, self.dashboard.finished.len()),
                    None => self.dashboard,
                },
                cancelled: self.cancelled || key == Some(Key::Quit),
                step: DashboardStep::Receive,
                ..self
            },
        }
    }
}

impl DashboardRun {
    /// A run that has just begun.
    pub fn new(context: &RunContext) -> (run: DashboardRun)
        ensures
            run@ == (DashboardRunView {
                dashboard: dashboard_begun(
                    context.actions@.len(),
                    text::texts(context.discovery_errors@),
                ),
                reports: Seq::empty(),
                cancelled: false,
                disconnected: false,
                step: DashboardStep::Receive,
            }),
    {
        DashboardRun {
            dashboard: Dashboard::new(context),
            reports: Vec::new(),
            cancelled: false,
            disconnected: false,
            step: DashboardStep::Receive,
        }
    }

    /// What to do next.
    pub fn next_step(&self) -> (step: DashboardStep)
        ensures
            step == self@.step,
    {
        self.step
    }

    /// Draws the whole screen.
    pub fn draw(&mut self, context: &RunContext, moment: &Moment, area: Area) -> (screen: Screen)
        requires
            old(self)@.dashboard.finished.len() == context.actions.len(),
            context.progress.len() == context.actions.len(),
            area.x + area.width <= u16::MAX,
            area.y + area.height <= u16::MAX,
        ensures
            screen.shows(old(self)@.dashboard, context, *moment),
            panes_inside(screen.panes, area),
            panes_in_turn(screen.panes, area),
            screen.panes.actions.height >= smaller(4, area.height as nat),
            10 + problems_height(old(self)@.dashboard.errors.len()) <= area.height ==> screen.panes
                == panes_with_room(
                area,
                3,
                problems_height(old(self)@.dashboard.errors.len()) as u16,
                3,
            ),
            final(self)@ == (DashboardRunView {
                dashboard: (DashboardView {
                    action_offset: screen.table.offset as nat,
                    ..old(self)@.dashboard
                }),
                ..old(self)@
            }),
    {
        self.dashboard.draw(context, moment, area)
    }

    /// Takes in what happened, and says whether to cancel the actions now.
    pub fn run_dashboard(
        &mut self,
        event: DashboardEvent,
        root: &TreePath,
        platform: Platform,
    ) -> (cancel: bool)
        requires
            old(self)@.awaits(event),
        ensures
            final(self)@ == old(self)@.after(event, root@, platform),
            cancel == (event matches DashboardEvent::Polled(Some(Key::Quit))),
    {
        match event {
            DashboardEvent::Received(index, report) => {
                self.dashboard.record(index, &report, root, platform);
                self.reports.push((index, report));
                assert(self@ =~= old(self)@.after(event, root@, platform));
                false
            },
            DashboardEvent::Empty => {
                self.step = DashboardStep::Draw;
                false
            },
            DashboardEvent::Disconnected => {
                self.disconnected = true;
                self.step = DashboardStep::Draw;
                false
            },
            DashboardEvent::Drawn => {
                if self.reports.len() >= self.dashboard.action_count() || self.disconnected {
                    self.step = DashboardStep::Stop;
                } else {
                    self.step = DashboardStep::Poll;
                }
                false
            },
            DashboardEvent::Polled(key) => {
                self.step = DashboardStep::Receive;
                match key {
                    Some(key) => {
                        let count: usize = self.dashboard.action_count();
                        self.dashboard.ask(key, count);
                        if key == Key::Quit {
                            self.cancelled = true;
                            true
                        } else {
                            false
                        }
                    },
                    None => false,
                }
            },
        }
    }

    /// What the run leaves behind.
    pub fn outcome(self) -> (outcome: UiOutcome)
        ensures
            outcome.reports@ == self@.reports,
            outcome.cancelled == self@.cancelled,
            !outcome.already_logged,
    {
        UiOutcome { reports: self.reports, cancelled: self.cancelled, already_logged: false }
    }
}

/// A run on a terminal stops with the first screen that is drawn after every
/// action has reported or nobody is left to report, and not before; what is
/// over stays over.
pub proof fn law_dashboards_stop_when_all_is_over(
    run: DashboardRunView,
    event: DashboardEvent,
    root: Seq<PartView>,
    platform: Platform,
)
    requires
        run.awaits(event),
    ensures
        run.after(event, root, platform).step == DashboardStep::Stop <==> event is Drawn
            && run.is_over(),
        run.is_over() ==> run.after(event, root, platform).is_over(),
        event is Received ==> run.after(event, root, platform).reports.len()
            == run.reports.len() + 1,
        event is Disconnected ==> run.after(event, root, platform).is_over(),
{
}

/// Only a person cancels a run, and what is cancelled stays so.
pub proof fn law_only_a_person_cancels(
    run: DashboardRunView,
    event: DashboardEvent,
    root: Seq<PartView>,
    platform: Platform,
)
    requires
        run.awaits(event),
        run.dashboard.cancelling == run.cancelled,
    ensures
        run.after(event, root, platform).cancelled <==> run.cancelled || event
            == DashboardEvent::Polled(Some(Key::Quit)),
        run.after(event, root, platform).dashboard.cancelling == run.after(
            event,
            root,
            platform,
        ).cancelled,
{
}

proof fn lemma_unfinished_from(finished: Seq<Option<Finished>>, from: nat, at: int)
    requires
        from <= at < finished.len(),
        finished[at] is None,
    ensures
        from <= unfinished_from(finished, from) <= at,
    decreases at - from,
{
    if finished[from as int] is Some {
        lemma_unfinished_from(finished, from + 1, at);
    }
}

/// While the display follows the actions at work, the first of them is on it,
/// and the list fills what is visible of it as far as it can.
pub proof fn law_the_first_at_work_is_shown(dashboard: DashboardView, visible: nat, at: int)
    requires
        dashboard.follow_active,
        visible > 0,
        0 <= at < dashboard.finished.len(),
        dashboard.finished[at] is None,
    ensures
        ({
            let from = dashboard.shown_from(dashboard.finished.len(), visible);
            let first = first_unfinished(dashboard.finished);
            &&& from <= first < from + visible
            &&& first <= at
            &&& from > 0 ==> from + visible <= dashboard.finished.len()
        }),
{
    lemma_unfinished_from(dashboard.finished, 0, at);
}

/// Wherever a person scrolls, there is something to see: the lists begin with
/// one of their lines, as long as they have any.
pub proof fn law_lists_begin_with_a_line(dashboard: DashboardView, visible: nat)
    ensures
        dashboard.finished.len() > 0 && !dashboard.follow_active ==> dashboard.shown_from(
            dashboard.finished.len(),
            visible,
        ) < dashboard.finished.len(),
        dashboard.errors.len() > 0 && visible > 0 ==> dashboard.shown_problems(visible).len() > 0,
        dashboard.shown_problems(visible).len() <= visible,
{
}

} // verus!
