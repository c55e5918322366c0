//! What a person sees of a run on a terminal, and what the keys do.

use crate::action::ActionReport;
use crate::dashboard;
use crate::dashboard::{
    Area, DashboardEvent, DashboardRunView, DashboardStep, DashboardView, Key, KeyCode, KeyPress,
    Moment, Screen,
};
use crate::path::{PartView, Platform};
use crate::screen;
use crate::screen::Finished;
use crate::text;
use crate::ui::RunContext;
use vstd::prelude::*;

verus! {

/// A key asks for something only when it goes down. Escape, `q` and control with
/// `c` ask to quit, the arrows and the page keys to scroll, and the home key to
/// follow the actions at work; no other key asks for anything.
pub proof fn law_keys_have_meanings(control: bool, c: char, code: KeyCode)
    ensures
        dashboard::key_of((KeyPress { code, control, pressed: false })) is None,
        dashboard::key_of((KeyPress { code: KeyCode::Esc, control, pressed: true })) == Some(
            Key::Quit,
        ),
        dashboard::key_of((KeyPress { code: KeyCode::Char(c), control, pressed: true })) == (if c
            == 'q' || (c == 'c' && control) {
            Some(Key::Quit)
        } else {
            None
        }),
        dashboard::key_of((KeyPress { code: KeyCode::Up, control, pressed: true })) == Some(
            Key::ActionsUp,
        ),
        dashboard::key_of((KeyPress { code: KeyCode::Down, control, pressed: true })) == Some(
            Key::ActionsDown,
        ),
        dashboard::key_of((KeyPress { code: KeyCode::Home, control, pressed: true })) == Some(
            Key::ActionsFollow,
        ),
        dashboard::key_of((KeyPress { code: KeyCode::PageUp, control, pressed: true })) == Some(
            Key::ErrorsUp,
        ),
        dashboard::key_of((KeyPress { code: KeyCode::PageDown, control, pressed: true })) == Some(
            Key::ErrorsDown,
        ),
        dashboard::key_of((KeyPress { code: KeyCode::Other, control, pressed: true })) is None,
{
}

/// A key changes what it is for and nothing else: the list scrolls by one line
/// and stays within its lines, scrolling the actions ends following them, and
/// quitting is all that quits.
pub proof fn law_keys_do_what_they_are_for(shown: DashboardView, key: Key, count: nat)
    ensures
        ({
            let after = shown.asked(key, count);
            let at = shown.action_offset;
            let line = shown.error_offset;
            &&& after.finished == shown.finished
            &&& after.errors == shown.errors
            &&& after.cancelling == (shown.cancelling || key == Key::Quit)
            &&& key == Key::ActionsFollow ==> after.follow_active
            &&& key == Key::ActionsUp || key == Key::ActionsDown ==> !after.follow_active
            &&& key != Key::ActionsFollow && key != Key::ActionsUp && key != Key::ActionsDown
                ==> after.follow_active == shown.follow_active
            &&& key == Key::ActionsUp ==> if at == 0 {
                after.action_offset == 0
            } else {
                after.action_offset == at - 1
            }
            &&& key == Key::ActionsDown ==> if at + 1 < count {
                after.action_offset == at + 1
            } else {
                after.action_offset == if count == 0 {
                    0
                } else {
                    count - 1
                }
            }
            &&& key != Key::ActionsUp && key != Key::ActionsDown ==> after.action_offset == at
            &&& key == Key::ErrorsUp ==> if line == 0 {
                after.error_offset == 0
            } else {
                after.error_offset == line - 1
            }
            &&& key == Key::ErrorsDown ==> if line + 1 < shown.errors.len() {
                after.error_offset == line + 1
            } else {
                after.error_offset == if shown.errors.len() == 0 {
                    0
                } else {
                    shown.errors.len() - 1
                }
            }
            &&& key != Key::ErrorsUp && key != Key::ErrorsDown ==> after.error_offset == line
        }),
{
}

/// Scrolling up and then down comes back to the line it began with, as long as
/// there is a line above.
pub proof fn law_scrolling_back_comes_back(shown: DashboardView, count: nat)
    requires
        0 < shown.action_offset < count,
        0 < shown.error_offset < shown.errors.len(),
    ensures
        shown.asked(Key::ActionsUp, count).asked(Key::ActionsDown, count).action_offset
            == shown.action_offset,
        shown.asked(Key::ErrorsUp, count).asked(Key::ErrorsDown, count).error_offset
            == shown.error_offset,
        shown.asked(Key::ActionsUp, count).action_offset < shown.action_offset,
{
}

/// The problems take as many lines as there are of them, six at most, and two for
/// their frame; none if there are none.
pub proof fn law_problems_take_their_room(count: nat)
    ensures
        dashboard::problems_height(0) == 0,
        1 <= count <= 6 ==> dashboard::problems_height(count) == count + 2,
        count >= 6 ==> dashboard::problems_height(count) == 8,
        dashboard::PROBLEM_LINES == 6,
{
}

/// What is visible of a list is what its frame leaves of its area.
pub proof fn law_frames_take_lines(area: Area, taken: nat)
    ensures
        area.height >= taken ==> dashboard::visible_lines(area, taken) + taken == area.height,
        area.height <= taken ==> dashboard::visible_lines(area, taken) == 0,
{
}

proof fn lemma_unfinished(finished: Seq<Option<Finished>>, from: nat)
    requires
        from <= finished.len(),
    ensures
        ({
            let at = dashboard::unfinished_from(finished, from);
            &&& from <= at <= finished.len()
            &&& forall|i: int| from <= i < at ==> (#[trigger] finished[i]) is Some
            &&& at < finished.len() ==> finished[at as int] is None
        }),
    decreases finished.len() - from,
{
    if from < finished.len() && finished[from as int] is Some {
        lemma_unfinished(finished, from + 1);
    }
}

/// The first action at work is one that has not reported, and all before it have.
pub proof fn law_the_first_at_work(finished: Seq<Option<Finished>>)
    ensures
        ({
            let at = dashboard::first_unfinished(finished);
            &&& at < finished.len() && finished[at as int] is None ==> forall|i: int|
                0 <= i < at ==> (#[trigger] finished[i]) is Some
            &&& (exists|i: int| 0 <= i < finished.len() && (#[trigger] finished[i]) is None)
                ==> at < finished.len() && finished[at as int] is None
            &&& (forall|i: int| 0 <= i < finished.len() ==> (#[trigger] finished[i]) is Some)
                ==> at == 0
        }),
{
    lemma_unfinished(finished, 0);
}

/// While the display follows the actions at work, half of what is visible stands
/// above the first of them, where there is as much on either side. Otherwise the
/// list begins where a person has scrolled to, but never leaves lines empty that
/// it could fill.
pub proof fn law_lists_begin_where_they_should(shown: DashboardView, count: nat, visible: nat)
    requires
        visible > 0,
    ensures
        ({
            let from = shown.shown_from(count, visible);
            let first = dashboard::first_unfinished(shown.finished);
            let above = (visible - 1) / 2;
            let last = if count > visible {
                count - visible
            } else {
                0
            };
            &&& from <= last
            &&& !shown.follow_active && shown.action_offset <= last ==> from == shown.action_offset
            &&& !shown.follow_active && shown.action_offset >= last ==> from == last
            &&& shown.follow_active && above <= first <= last + above ==> from + above == first
            &&& shown.follow_active && first <= above ==> from == 0
            &&& shown.follow_active && first >= last + above ==> from == last
        }),
{
}

/// The problems on display are those from where a person has scrolled to, in
/// order and without a gap, as many as there is room for, and never leaving lines
/// empty that they could fill.
pub proof fn law_problems_are_shown_in_order(shown: DashboardView, visible: nat)
    requires
        visible > 0,
    ensures
        ({
            let lines = shown.shown_problems(visible);
            let count = shown.errors.len();
            let last = if count > visible {
                count - visible
            } else {
                0
            };
            let from = if shown.error_offset < last {
                shown.error_offset as int
            } else {
                last
            };
            &&& count <= visible ==> lines == shown.errors
            &&& count >= visible ==> lines.len() == visible
            &&& forall|i: int|
                0 <= i < lines.len() ==> #[trigger] lines[i] == shown.errors[from + i]
        }),
{
}

/// A report finishes its action and no other, with what it reports, and adds its
/// failures to the problems in order, each with the place it is about.
pub proof fn law_reports_are_recorded(
    shown: DashboardView,
    index: int,
    report: ActionReport,
    root: Seq<PartView>,
    platform: Platform,
)
    requires
        0 <= index < shown.finished.len(),
    ensures
        ({
            let after = shown.recorded(index, report, root, platform);
            let place = crate::format::relative_text(report.path@, root, platform);
            let before = shown.errors.len();
            &&& after.finished.len() == shown.finished.len()
            &&& after.finished[index] matches Some(kept) && kept.reclaimed_bytes
                == report.reclaimed_bytes && kept.elapsed == report.elapsed && kept.error_count
                == report.error_count && kept.skipped == report.skipped
            &&& forall|i: int|
                0 <= i < shown.finished.len() && i != index ==> (#[trigger] after.finished[i])
                    == shown.finished[i]
            &&& after.errors.len() == before + report.errors@.len()
            &&& forall|i: int|
                0 <= i < before ==> (#[trigger] after.errors[i]) == shown.errors[i]
            &&& forall|i: int|
                0 <= i < report.errors@.len() ==> after.errors[before + i] == place + ": "@ + (
                #[trigger] report.errors@[i])@
            &&& after.action_offset == shown.action_offset
            &&& after.follow_active == shown.follow_active
            &&& after.error_offset == shown.error_offset
            &&& after.cancelling == shown.cancelling
        }),
{
    let after = shown.recorded(index, report, root, platform);
    let place = crate::format::relative_text(report.path@, root, platform);
    let before = shown.errors.len();
    assert forall|i: int| 0 <= i < report.errors@.len() implies after.errors[before + i] == place
        + ": "@ + (#[trigger] report.errors@[i])@ by {
        assert(text::texts(report.errors@)[i] == report.errors@[i]@);
    }
}

/// A display begins with no action finished, with the problems of the search, at
/// the top of its lists, following the actions at work.
pub proof fn law_displays_begin(count: nat, problems: Seq<Seq<char>>)
    ensures
        ({
            let shown = dashboard::dashboard_begun(count, problems);
            &&& shown.finished.len() == count
            &&& forall|i: int| 0 <= i < count ==> (#[trigger] shown.finished[i]) is None
            &&& shown.errors == problems
            &&& shown.action_offset == 0
            &&& shown.error_offset == 0
            &&& shown.follow_active
            &&& !shown.cancelling
        }),
{
}

/// A run takes in all reports that are there, in the order in which they come,
/// then draws, then looks whether a person asks for something, and begins anew.
#[verifier::spinoff_prover]
#[verifier::rlimit(50)]
pub proof fn law_runs_take_turns(
    run: DashboardRunView,
    index: usize,
    report: ActionReport,
    key: Option<Key>,
    root: Seq<PartView>,
    platform: Platform,
)
    ensures
        ({
            let received = run.after(DashboardEvent::Received(index, report), root, platform);
            let empty = run.after(DashboardEvent::Empty, root, platform);
            let gone = run.after(DashboardEvent::Disconnected, root, platform);
            let drawn = run.after(DashboardEvent::Drawn, root, platform);
            let polled = run.after(DashboardEvent::Polled(key), root, platform);
            let all = run.dashboard.finished.len();
            &&& received.reports == run.reports.push((index, report))
            &&& received.dashboard == run.dashboard.recorded(index as int, report, root, platform)
            &&& received.step == run.step
            &&& empty.step == DashboardStep::Draw
            &&& empty.reports == run.reports && empty.dashboard == run.dashboard
            &&& gone.step == DashboardStep::Draw
            &&& gone.reports == run.reports && gone.dashboard == run.dashboard
            &&& run.reports.len() >= all || run.disconnected ==> drawn.step == DashboardStep::Stop
            &&& run.reports.len() < all && !run.disconnected ==> drawn.step == DashboardStep::Poll
            &&& drawn.reports == run.reports && drawn.dashboard == run.dashboard
            &&& polled.step == DashboardStep::Receive
            &&& polled.reports == run.reports
            &&& polled.cancelled == (run.cancelled || key == Some(Key::Quit))
            &&& key is None ==> polled.dashboard == run.dashboard
            &&& key matches Some(key) ==> polled.dashboard == run.dashboard.asked(key, all)
            &&& !run.disconnected ==> received.disconnected == false && empty.disconnected == false
                && drawn.disconnected == false && polled.disconnected == false
            &&& received.cancelled == run.cancelled && empty.cancelled == run.cancelled
                && gone.cancelled == run.cancelled && drawn.cancelled == run.cancelled
        }),
{
}

/// What stands on a screen: a row for each action in its order under three
/// headings, the problems only where there are any, with their number, and the
/// share of all that is done.
#[verifier::spinoff_prover]
#[verifier::rlimit(50)]
pub proof fn law_screens_show_everything(
    drawn: Screen,
    shown: DashboardView,
    context: &RunContext,
    moment: Moment,
)
    requires
        drawn.shows(shown, context, moment),
        shown.finished.len() == context.actions@.len(),
        context.progress@.len() == context.actions@.len(),
    ensures
        drawn.table.title@ == " actions "@,
        drawn.table.columns@.len() == 3,
        drawn.table.columns@[0]@ == "KIND"@,
        drawn.table.columns@[1]@ == "PATH"@,
        drawn.table.columns@[2]@ == "PROGRESS"@,
        drawn.table.rows@.len() == context.actions@.len(),
        forall|i: int|
            0 <= i < context.actions@.len() ==> (#[trigger] drawn.table.rows@[i])@
                == screen::row_of(
                context.actions@[i]@,
                shown.finished[i],
                context.progress@[i]@,
                context.root@,
                context.platform,
            ),
        drawn.problems is Some <==> shown.errors.len() > 0,
        drawn.problems matches Some(problems) ==> problems.title@ == " problems ("@
            + text::decimal(shown.errors.len()) + ") — PgUp/PgDn "@,
        drawn.footer.title@ == " overall "@,
{
    assert(dashboard::rows(drawn.table.rows@).len() == context.actions@.len());
    assert forall|i: int| 0 <= i < context.actions@.len() implies (
    #[trigger] drawn.table.rows@[i])@ == screen::row_of(
        context.actions@[i]@,
        shown.finished[i],
        context.progress@[i]@,
        context.root@,
        context.platform,
    ) by {
        assert(dashboard::rows(drawn.table.rows@)[i] == dashboard::action_rows(
            context,
            shown.finished,
        )[i]);
        assert(dashboard::rows(drawn.table.rows@)[i] == drawn.table.rows@[i]@);
    }
    assert(text::texts(drawn.table.columns@).len() == 3);
    assert(text::texts(drawn.table.columns@)[0] == "KIND"@);
    assert(text::texts(drawn.table.columns@)[1] == "PATH"@);
    assert(text::texts(drawn.table.columns@)[2] == "PROGRESS"@);
}

/// Where there is room for all parts of the screen, the header, the problems and
/// the footer have the heights they should have, and the actions have the rest;
/// they stand one below the other and fill the area.
pub proof fn law_panes_fill_the_area(area: Area, header: u16, problems: u16, footer: u16)
    requires
        area.y + area.height <= u16::MAX,
        header + problems + footer <= area.height,
    ensures
        ({
            let panes = dashboard::panes_with_room(area, header, problems, footer);
            &&& panes.header.height == header
            &&& panes.problems.height == problems
            &&& panes.footer.height == footer
            &&& panes.header.height + panes.actions.height + panes.problems.height
                + panes.footer.height == area.height
            &&& panes.header.y == area.y
            &&& panes.actions.y == area.y + header
            &&& panes.problems.y == panes.actions.y + panes.actions.height
            &&& panes.footer.y + footer == area.y + area.height
            &&& panes.header.x == area.x && panes.actions.x == area.x && panes.problems.x == area.x
                && panes.footer.x == area.x
            &&& panes.header.width == area.width && panes.actions.width == area.width
                && panes.problems.width == area.width && panes.footer.width == area.width
            &&& dashboard::panes_inside(panes, area)
            &&& dashboard::panes_in_turn(panes, area)
        }),
{
}

} // verus!
