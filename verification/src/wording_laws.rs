//! What a person is told of a run, word by word.

use crate::action;
use crate::action::{Action, ActionKind, ActionReport, ActionState, ActionView, Progress};
use crate::action::ProgressView;
use crate::execute;
use crate::format::Span;
use crate::path::{PartView, Platform};
use crate::proc;
use crate::proc::{ChildEndView, ProcessOutputView};
use crate::screen;
use crate::screen::{Finished, Tint, Totals};
use crate::text;
use crate::ui;
use crate::ui::{PlainEvent, PlainRunView};
use vstd::prelude::*;

verus! {

/// Each kind of action has its own word.
pub proof fn law_kinds_have_words()
    ensures
        action::label_text(ActionKind::Cargo) == "cargo"@,
        action::label_text(ActionKind::Debug) == "debug"@,
        action::label_text(ActionKind::NodeModules) == "node_modules"@,
        action::label_text(ActionKind::PythonVenv) == ".venv"@,
        action::label_text(ActionKind::Scratch) == "scratch"@,
        forall|a: ActionKind, b: ActionKind|
            action::label_text(a) == action::label_text(b) ==> a == b,
{
    reveal_strlit("cargo");
    reveal_strlit("debug");
    reveal_strlit("node_modules");
    reveal_strlit(".venv");
    reveal_strlit("scratch");
    assert("cargo"@[0] != "debug"@[0]);
    assert("cargo"@.len() == 5 && "debug"@.len() == 5 && ".venv"@.len() == 5);
    assert("node_modules"@.len() == 12 && "scratch"@.len() == 7);
    assert(".venv"@[0] != "debug"@[0] && ".venv"@[0] != "cargo"@[0]);
}

/// The word for a kind of action in a column of twelve.
pub open spec fn kind_column(kind: ActionKind) -> Seq<char> {
    match kind {
        ActionKind::Cargo => "cargo       "@,
        ActionKind::Debug => "debug       "@,
        ActionKind::NodeModules => "node_modules"@,
        ActionKind::PythonVenv => ".venv       "@,
        ActionKind::Scratch => "scratch     "@,
    }
}

proof fn lemma_kind_column(kind: ActionKind)
    ensures
        text::aligned_left(action::label_text(kind), 12) == kind_column(kind),
{
    reveal_strlit("cargo");
    reveal_strlit("debug");
    reveal_strlit("node_modules");
    reveal_strlit(".venv");
    reveal_strlit("scratch");
    reveal_strlit("cargo       ");
    reveal_strlit("debug       ");
    reveal_strlit(".venv       ");
    reveal_strlit("scratch     ");
    assert(text::aligned_left(action::label_text(kind), 12) =~= kind_column(kind));
}

/// The line of a report begins with a word in brackets: `ok` exactly when the
/// action was not skipped and had no failure, `error` exactly when it was not
/// skipped and had one or more, and `skip` exactly when it was skipped.
pub proof fn law_reports_tell_how_it_went(report: ActionReport, platform: Platform)
    ensures
        "[ok] "@.is_prefix_of(ui::report_line(report, platform)) <==> !report.skipped
            && report.error_count == 0,
        "[error] "@.is_prefix_of(ui::report_line(report, platform)) <==> !report.skipped
            && report.error_count >= 1,
        "[skip] "@.is_prefix_of(ui::report_line(report, platform)) <==> report.skipped,
{
    law_report_lines(report, platform);
    let line = ui::report_line(report, platform);
    reveal_strlit("[ok] ");
    reveal_strlit("[error] ");
    reveal_strlit("[skip] ");
    let (ok, error, skip) = ("[ok] "@, "[error] "@, "[skip] "@);
    if report.skipped {
        assert(line[1] == 's');
        assert(skip =~= line.subrange(0, skip.len() as int));
    } else if report.error_count >= 1 {
        assert(line[1] == 'e');
        assert(error =~= line.subrange(0, error.len() as int));
    } else {
        assert(line[1] == 'o');
        assert(ok =~= line.subrange(0, ok.len() as int));
    }
    if ok.is_prefix_of(line) {
        assert(ok[1] == line.subrange(0, ok.len() as int)[1]);
    }
    if error.is_prefix_of(line) {
        assert(error[1] == line.subrange(0, error.len() as int)[1]);
    }
    if skip.is_prefix_of(line) {
        assert(skip[1] == line.subrange(0, skip.len() as int)[1]);
    }
}

/// The line of a report: how it went, the kind in a column of twelve, the path,
/// the bytes and the time.
pub proof fn law_report_lines(report: ActionReport, platform: Platform)
    ensures
        ui::report_line(report, platform) == (if report.skipped {
            "[skip] "@
        } else if report.error_count == 0 {
            "[ok] "@
        } else {
            "[error] "@
        }) + (kind_column(report.kind) + " "@ + crate::format::display_text(report.path@, platform)
            + " — "@ + crate::format::size_text(report.reclaimed_bytes as nat)
            + " reclaimed in "@ + crate::format::duration_text(
            report.elapsed.secs(),
            report.elapsed.nanos(),
        )),
{
    lemma_kind_column(report.kind);
    reveal_strlit("[");
    reveal_strlit("] ");
    reveal_strlit("ok");
    reveal_strlit("error");
    reveal_strlit("skip");
    reveal_strlit("[ok] ");
    reveal_strlit("[error] ");
    reveal_strlit("[skip] ");
    let word = ui::status_word(report);
    let head = "["@ + word + "] "@;
    let whole = if report.skipped {
        "[skip] "@
    } else if report.error_count == 0 {
        "[ok] "@
    } else {
        "[error] "@
    };
    assert(head =~= whole);
    let rest = kind_column(report.kind) + " "@ + crate::format::display_text(
        report.path@,
        platform,
    ) + " — "@ + crate::format::size_text(report.reclaimed_bytes as nat) + " reclaimed in "@
        + crate::format::duration_text(report.elapsed.secs(), report.elapsed.nanos());
    assert(ui::report_line(report, platform) =~= head + rest);
}

/// Each failure of a report has a line of its own, in order, set off by two
/// spaces.
pub proof fn law_failures_have_lines(report: ActionReport)
    ensures
        ui::report_problems(report).len() == report.errors@.len(),
        forall|i: int|
            0 <= i < report.errors@.len() ==> #[trigger] ui::report_problems(report)[i] == "  "@
                + report.errors@[i]@,
{
}

/// The line for the start of an action, and for a failure to find actions.
pub proof fn law_starts_have_lines(one: ActionView, platform: Platform, error: Seq<char>)
    ensures
        ui::start_line(one, platform) == "[start] "@ + kind_column(one.kind) + " "@
            + crate::format::display_text(one.path, platform),
        ui::discovery_line(error) == "[discovery error] "@ + error,
{
    lemma_kind_column(one.kind);
}

/// An action is announced exactly once it is no longer pending: each that is not
/// and has not been announced adds one line behind those of the actions before
/// it, and any other adds none.
pub proof fn law_starts_are_announced(
    actions: Seq<Action>,
    progress: Seq<Progress>,
    announced: Seq<bool>,
    platform: Platform,
    count: nat,
)
    ensures
        ui::start_lines(actions, progress, announced, platform, 0).len() == 0,
        ui::start_lines(actions, progress, announced, platform, count + 1) == (if announced[
            count as int
        ] || progress[count as int]@.state == ActionState::Pending {
            ui::start_lines(actions, progress, announced, platform, count)
        } else {
            ui::start_lines(actions, progress, announced, platform, count).push(
                ui::start_line(actions[count as int]@, platform),
            )
        }),
        ui::announced_after(progress, announced).len() == announced.len(),
        forall|i: int|
            0 <= i < announced.len() ==> (#[trigger] ui::announced_after(progress, announced)[i]
                <==> announced[i] || (i < progress.len() && progress[i]@.state
                != ActionState::Pending)),
{
}

/// As many starts are announced as actions have begun unannounced.
pub proof fn law_starts_are_announced_once_each(
    actions: Seq<Action>,
    progress: Seq<Progress>,
    announced: Seq<bool>,
    platform: Platform,
    count: nat,
)
    requires
        count <= progress.len(),
    ensures
        ui::start_lines(actions, progress, announced, platform, count).len() == Seq::new(
            count,
            |i: int| i,
        ).filter(|i: int| !announced[i] && progress[i]@.state != ActionState::Pending).len(),
    decreases count,
{
    reveal(Seq::filter);
    if count > 0 {
        law_starts_are_announced_once_each(
            actions,
            progress,
            announced,
            platform,
            (count - 1) as nat,
        );
        assert(Seq::new(count, |i: int| i).drop_last() =~= Seq::new(
            (count - 1) as nat,
            |i: int| i,
        ));
        assert(Seq::new(count, |i: int| i).last() == count - 1);
    }
}

/// How an action that has reported is shown: skipped, with its failures, or
/// done; each in its own color, and only what was skipped without its bytes.
pub proof fn law_finished_actions_are_shown(finished: Finished, progress: ProgressView)
    ensures
        ({
            let shown = screen::status_of(Some(finished), progress);
            let bytes = crate::format::size_text(finished.reclaimed_bytes as nat);
            let time = crate::format::duration_text(
                finished.elapsed.secs(),
                finished.elapsed.nanos(),
            );
            let result = text::repeated(
                ' ',
                (if bytes.len() < 9 {
                    9 - bytes.len()
                } else {
                    0
                }) as nat,
            ) + bytes + " in "@ + time;
            &&& shown.tint == Tint::Yellow <==> finished.skipped
            &&& shown.tint == Tint::Red <==> !finished.skipped && finished.error_count >= 1
            &&& shown.tint == Tint::Green <==> !finished.skipped && finished.error_count == 0
            &&& finished.skipped ==> shown.text == "skipped (build running)"@
            &&& !finished.skipped && finished.error_count == 0 ==> shown.text == result
            &&& !finished.skipped && finished.error_count >= 1 ==> shown.text == result + "  ("@
                + text::decimal(finished.error_count as nat) + " failed)"@
        }),
{
}

/// How an action that has not reported is shown: by its state alone until it
/// deletes, and then by a bar, a share and the bytes done of those known.
pub proof fn law_running_actions_are_shown(progress: ProgressView)
    ensures
        ({
            let shown = screen::status_of(None, progress);
            let total = match progress.total {
                Some(total) => total as nat,
                None => 0,
            };
            let ratio = screen::known_ratio(progress);
            let share = text::decimal(screen::percent(ratio));
            &&& progress.state == ActionState::Pending ==> shown.text == "pending"@ && shown.tint
                == Tint::DarkGray
            &&& progress.state == ActionState::Waiting ==> shown.text == "waiting for overlap"@
                && shown.tint == Tint::DarkGray
            &&& progress.state == ActionState::Sizing ==> shown.text == "measuring…"@
                && shown.tint == Tint::Blue
            &&& progress.state == ActionState::Deleting || progress.state == ActionState::Done
                ==> {
                &&& shown.tint == Tint::Cyan
                &&& shown.text == screen::bar_text(ratio) + " "@ + text::repeated(
                    ' ',
                    (if share.len() < 3 {
                        3 - share.len()
                    } else {
                        0
                    }) as nat,
                ) + share + "%  "@ + crate::format::size_text(progress.done_bytes as nat)
                    + " / "@ + crate::format::size_text(total)
            }
        }),
{
    let ratio = screen::known_ratio(progress);
    let share = text::decimal(screen::percent(ratio));
    let shown = screen::status_of(None, progress);
    let total = match progress.total {
        Some(total) => total as nat,
        None => 0,
    };
    let pad = text::repeated(
        ' ',
        (if share.len() < 3 {
            3 - share.len()
        } else {
            0
        }) as nat,
    );
    if progress.state == ActionState::Deleting || progress.state == ActionState::Done {
        assert(shown.text =~= screen::bar_text(ratio) + " "@ + pad + share + "%  "@
            + crate::format::size_text(progress.done_bytes as nat) + " / "@
            + crate::format::size_text(total));
    }
}

/// The head of the screen: the title tells the root, or that the run is being
/// cancelled; the line tells the completed actions, the bytes found, those
/// reclaimed and the time, in this order.
pub proof fn law_the_head_of_the_screen(
    cancelling: bool,
    root: Seq<PartView>,
    platform: Platform,
    action_count: nat,
    summary: Totals,
    elapsed: Span,
)
    ensures
        screen::title_text(cancelling, root, platform) == (if cancelling {
            " rclean — cancelling "@
        } else {
            " rclean — "@ + crate::format::display_text(root, platform) + " "@
        }),
        ({
            let line = screen::header_line(action_count, summary, elapsed);
            &&& line.len() == 8
            &&& line[0].text == text::decimal(summary.completed as nat) + "/"@ + text::decimal(
                action_count,
            )
            &&& line[1].text == " actions · "@
            &&& line[2].text == crate::format::size_text(summary.known_bytes as nat)
            &&& line[3].text == " found · "@
            &&& line[4].text == crate::format::size_text(summary.done_bytes as nat)
            &&& line[5].text == " reclaimed · "@
            &&& line[6].text == crate::format::duration_text(elapsed.secs(), elapsed.nanos())
            &&& line[7].text == "   (q quit · ↑↓ scroll)"@
            &&& line[0].tint == Tint::Cyan && line[0].bold
            &&& line[2].tint == Tint::Yellow && !line[2].bold
            &&& line[4].tint == Tint::Green && line[4].bold
            &&& line[7].tint == Tint::DarkGray && !line[7].bold
            &&& forall|i: int|
                #![trigger line[i]]
                i == 1 || i == 3 || i == 5 || i == 6 ==> line[i].tint == Tint::Plain
                    && !line[i].bold
        }),
{
}

/// The foot of the screen tells the share that is done, the rate and the time
/// that is left; a dash stands for what is not known.
pub proof fn law_the_foot_of_the_screen(
    summary: Totals,
    rate: Option<u64>,
    eta: Option<Span>,
)
    ensures
        screen::footer_label(summary, rate, eta) == text::decimal(
            screen::percent(screen::overall(summary)),
        ) + "%  ·  "@ + (match rate {
            Some(bytes) => crate::format::size_text(bytes as nat) + "/s"@,
            None => "—"@,
        }) + "  ·  eta "@ + (match eta {
            Some(span) => crate::format::duration_text(span.secs(), span.nanos()),
            None => "—"@,
        }),
{
}

/// The row of an action tells its kind, its path below the root and how it
/// stands.
pub proof fn law_rows_tell_of_their_actions(
    one: ActionView,
    finished: Option<Finished>,
    progress: ProgressView,
    root: Seq<PartView>,
    platform: Platform,
)
    ensures
        ({
            let row = screen::row_of(one, finished, progress, root, platform);
            &&& row.label == match one.kind {
                ActionKind::Cargo => "cargo"@,
                ActionKind::Debug => "debug"@,
                ActionKind::NodeModules => "node_modules"@,
                ActionKind::PythonVenv => ".venv"@,
                ActionKind::Scratch => "scratch"@,
            }
            &&& row.path == crate::format::relative_text(one.path, root, platform)
            &&& row.status == screen::status_of(finished, progress).text
            &&& row.tint == screen::status_of(finished, progress).tint
        }),
{
}

/// A child that ended by itself gives its outputs, each as what it is, whether
/// it was successful or not; any other end is an error that names the child.
pub proof fn law_children_give_their_outputs(
    end: ChildEndView,
    timeout: Span,
    label: Seq<char>,
    stdout: Seq<u8>,
    stderr: Seq<u8>,
)
    ensures
        ({
            let result = proc::child_result(end, timeout, label, stdout, stderr);
            &&& result is Ok <==> end is Exited
            &&& end matches ChildEndView::Exited { success } ==> result == Ok::<
                ProcessOutputView,
                Seq<char>,
            >(ProcessOutputView { success, stdout, stderr })
            &&& end matches ChildEndView::NotStarted(cause) ==> result == Err::<
                ProcessOutputView,
                Seq<char>,
            >("could not run "@ + label + ": "@ + cause)
            &&& end matches ChildEndView::WaitFailed(cause) ==> result == Err::<
                ProcessOutputView,
                Seq<char>,
            >("could not wait for "@ + label + ": "@ + cause)
            &&& end is TimedOut ==> result == Err::<ProcessOutputView, Seq<char>>(
                label + " timed out after "@ + crate::format::duration_text(
                    timeout.secs(),
                    timeout.nanos(),
                ) + "; killed. Last diagnostic: "@ + proc::diagnostic(stderr),
            )
        }),
{
}

/// What a message comes to: some part of it that neither begins nor ends with
/// white space and leaves out nothing else, or words for its absence where it
/// is white space throughout.
pub proof fn law_messages_lose_only_white_space(message: Seq<char>)
    ensures
        (forall|i: int| 0 <= i < message.len() ==> text::is_white_space(#[trigger] message[i]))
            ==> proc::spoken(message) == "no diagnostic output"@,
        (exists|i: int| 0 <= i < message.len() && !text::is_white_space(#[trigger] message[i]))
            ==> exists|from: int, to: int|
            0 <= from < to <= message.len() && proc::spoken(message)
                == #[trigger] message.subrange(from, to) && is_trimmed(message, from, to),
{
    lemma_trimmed(message, 0, message.len() as int);
    assert(message.subrange(0, message.len() as int) =~= message);
    let (from, to) = choose|from: int, to: int|
        0 <= from <= to <= message.len() && text::trimmed(message) == #[trigger] message.subrange(
            from,
            to,
        ) && is_trimmed(message, from, to);
    assert(is_trimmed(message, from, to));
    if exists|i: int| 0 <= i < message.len() && !text::is_white_space(#[trigger] message[i]) {
        let i = choose|i: int|
            0 <= i < message.len() && !text::is_white_space(#[trigger] message[i]);
        assert(from <= i < to);
        assert(text::trimmed(message).len() == to - from);
    } else if from < to {
        assert(text::is_white_space(message[from]));
    }
}

/// Whether a part of a message is all that is left once white space is taken
/// away at its two ends.
pub open spec fn is_trimmed(message: Seq<char>, from: int, to: int) -> bool {
    &&& forall|i: int| 0 <= i < from ==> text::is_white_space(#[trigger] message[i])
    &&& forall|i: int| to <= i < message.len() ==> text::is_white_space(#[trigger] message[i])
    &&& from < to ==> !text::is_white_space(message[from]) && !text::is_white_space(
        message[to - 1],
    )
}

proof fn lemma_trimmed(message: Seq<char>, start: int, end: int)
    requires
        0 <= start <= end <= message.len(),
        forall|i: int| 0 <= i < start ==> text::is_white_space(#[trigger] message[i]),
        forall|i: int| end <= i < message.len() ==> text::is_white_space(#[trigger] message[i]),
    ensures
        exists|from: int, to: int|
            0 <= from <= to <= message.len() && text::trimmed(message.subrange(start, end))
                == #[trigger] message.subrange(from, to) && is_trimmed(message, from, to),
    decreases end - start,
{
    let part = message.subrange(start, end);
    if start == end {
        assert(text::trimmed(part) == message.subrange(start, end));
        assert(is_trimmed(message, start, end));
    } else if text::is_white_space(part.first()) {
        assert(part.drop_first() =~= message.subrange(start + 1, end));
        lemma_trimmed(message, start + 1, end);
    } else if text::is_white_space(part.last()) {
        assert(part.drop_last() =~= message.subrange(start, end - 1));
        lemma_trimmed(message, start, end - 1);
    } else {
        assert(text::trimmed(part) == message.subrange(start, end));
        assert(is_trimmed(message, start, end));
    }
}

/// The characters that count as white space, all told.
pub proof fn law_white_space(c: char)
    ensures
        text::is_white_space(c) <==> {
            let code = c as u32;
            ||| code == 9 || code == 10 || code == 11 || code == 12 || code == 13 || code == 32
            ||| code == 133 || code == 160 || code == 5760 || code == 8232 || code == 8233
            ||| code == 8239 || code == 8287 || code == 12288
            ||| 8192 <= code && code < 8203
        },
{
}

/// Cargo is believed only if it was successful: then what it wrote counts, and
/// otherwise what it complained of.
pub proof fn law_only_success_is_believed(output: ProcessOutputView, error: Seq<char>)
    ensures
        output.success ==> execute::metadata_of(Ok(output)) == Ok::<Seq<u8>, Seq<char>>(
            output.stdout,
        ),
        !output.success ==> execute::metadata_of(Ok(output)) == Err::<Seq<u8>, Seq<char>>(
            "cargo metadata failed: "@ + proc::diagnostic(output.stderr),
        ),
        execute::metadata_of(Err(error)) == Err::<Seq<u8>, Seq<char>>(error),
        execute::METADATA_TIMEOUT_SECS == 60,
        ui::FRAME_INTERVAL_MILLIS == 100,
{
}

/// A report is shown with the starts that were not announced before it, and with
/// its failures; looking around shows starts alone, and nothing else shows
/// anything. Every report is kept, in the order in which they come.
#[verifier::spinoff_prover]
#[verifier::rlimit(50)]
pub proof fn law_plain_runs_show_what_happens(
    run: PlainRunView,
    actions: Seq<Action>,
    progress: Seq<Progress>,
    platform: Platform,
    index: usize,
    report: ActionReport,
)
    ensures
        ({
            let received = PlainEvent::Received(index, report);
            let looked = run.after(PlainEvent::Polling, progress);
            let noted = run.after(received, progress);
            let waited = run.after(PlainEvent::Timeout, progress);
            let gone = run.after(PlainEvent::Disconnected, progress);
            let starts = ui::start_lines(
                actions,
                progress,
                run.announced,
                platform,
                progress.len(),
            );
            &&& noted.reports == run.reports.push((index, report))
            &&& noted.announced == looked.announced
            &&& looked.reports == run.reports && waited.reports == run.reports && gone.reports
                == run.reports
            &&& waited.announced == run.announced && gone.announced == run.announced
            &&& gone.disconnected
            &&& noted.disconnected == run.disconnected && looked.disconnected == run.disconnected
                && waited.disconnected == run.disconnected
            &&& ui::event_lines(run.announced, received, actions, progress, platform)
                == starts.push(ui::report_line(report, platform))
            &&& ui::event_lines(run.announced, PlainEvent::Polling, actions, progress, platform)
                == starts
            &&& ui::event_lines(
                run.announced,
                PlainEvent::Timeout,
                actions,
                progress,
                platform,
            ).len() == 0
            &&& ui::event_lines(
                run.announced,
                PlainEvent::Disconnected,
                actions,
                progress,
                platform,
            ).len() == 0
            &&& ui::event_problems(received) == ui::report_problems(report)
            &&& ui::event_problems(PlainEvent::Polling).len() == 0
            &&& ui::event_problems(PlainEvent::Timeout).len() == 0
            &&& ui::event_problems(PlainEvent::Disconnected).len() == 0
        }),
{
}

} // verus!
