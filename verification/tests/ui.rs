use ratatui::buffer::Buffer;
use ratatui::layout::Rect;
use ratatui::text::Line;
use ratatui::widgets::{Block, Paragraph, Widget};
use rclean::action::{Action, ActionKind, ActionReport, ActionState, Progress};
use rclean::binary::Binary;
use rclean::dashboard::{
    poll_key, Area, Dashboard, DashboardEvent, DashboardRun, DashboardStep, Key, KeyCode,
    KeyPress, Moment, Panes, Screen,
};
use rclean::format::Span;
use rclean::path::{Part, Platform, TreePath};
use rclean::screen::{
    bytes_to_rate, draw_footer, draw_header, remaining_bytes, status_cell, text_bar, totals,
    totals_fit, Finished, Tint, Totals, BAR_WIDTH,
};
use rclean::ui::{
    announce_started, discovery_lines, opening_line, print_report, run, Display, PlainEvent,
    PlainRun, RunContext, UiOutcome,
};
use std::sync::mpsc;
use std::sync::mpsc::{Receiver, RecvTimeoutError};
use std::time::Duration;

fn path(text: &str) -> TreePath {
    let mut parts = vec![Part::root(Platform::Unix)];
    for name in text.split('/').filter(|name| !name.is_empty()) {
        parts.push(Part::name(name.as_bytes().to_vec()));
    }
    TreePath { parts }
}

fn report(kind: ActionKind, at: &TreePath) -> ActionReport {
    ActionReport {
        kind,
        path: at.copy(),
        reclaimed_bytes: 1024,
        files_removed: 1,
        elapsed: Span::new(0, 1_000_000),
        errors: Vec::new(),
        error_count: 0,
        skipped: false,
    }
}

/// Runs the line-by-line display on a channel.
fn run_plain(
    context: &RunContext,
    receiver: &Receiver<(usize, ActionReport)>,
) -> (UiOutcome, Vec<String>, Vec<String>) {
    let mut problems = discovery_lines(context.discovery_errors);
    let mut lines = vec![opening_line(context.actions.len())];
    let mut run = PlainRun::new(context.actions.len());
    while !run.is_over() {
        let output = run.run_plain(context, PlainEvent::Polling);
        lines.extend(output.lines);
        let event = match receiver.recv_timeout(Duration::from_millis(1)) {
            Ok((index, report)) => PlainEvent::Received(index, report),
            Err(RecvTimeoutError::Timeout) => PlainEvent::Timeout,
            Err(RecvTimeoutError::Disconnected) => PlainEvent::Disconnected,
        };
        let output = run.run_plain(context, event);
        lines.extend(output.lines);
        problems.extend(output.problems);
    }
    (run.outcome(), lines, problems)
}

#[test]
fn the_run_loop_ends_once_every_action_reports() {
    let root = path("/dev");
    let actions: Vec<Action> = (0..3)
        .map(|index| Action {
            kind: ActionKind::NodeModules,
            path: root.join(&format!("p{index}")).join("node_modules"),
        })
        .collect();
    let mut progress: Vec<Progress> = actions.iter().map(|_| Progress::default()).collect();

    let (sender, receiver) = mpsc::channel();
    for (index, action) in actions.iter().enumerate() {
        progress[index].set_state(ActionState::Done);
        sender
            .send((index, report(action.kind, &action.path)))
            .unwrap();
    }
    drop(sender);

    let discovery_errors = Vec::new();
    let (outcome, lines, problems) = run_plain(
        &RunContext {
            root: &root,
            platform: Platform::Unix,
            actions: &actions,
            progress: &progress,
            discovery_errors: &discovery_errors,
        },
        &receiver,
    );

    assert_eq!(outcome.reports.len(), 3);
    assert!(outcome.already_logged);
    assert!(!outcome.cancelled);
    assert_eq!(
        lines,
        vec![
            "Running 3 cleanup actions",
            "[start] node_modules /dev/p0/node_modules",
            "[start] node_modules /dev/p1/node_modules",
            "[start] node_modules /dev/p2/node_modules",
            "[ok] node_modules /dev/p0/node_modules — 1.0 KiB reclaimed in 1ms",
            "[ok] node_modules /dev/p1/node_modules — 1.0 KiB reclaimed in 1ms",
            "[ok] node_modules /dev/p2/node_modules — 1.0 KiB reclaimed in 1ms",
        ]
    );
    assert!(problems.is_empty());
}

#[test]
fn the_run_loop_ends_when_a_worker_never_reports() {
    let root = path("/dev");
    let actions = vec![Action {
        kind: ActionKind::Scratch,
        path: root.join("scratch"),
    }];
    let progress = vec![Progress::default()];
    let (sender, receiver) = mpsc::channel();
    drop(sender);

    let discovery_errors = Vec::new();
    let (outcome, lines, _) = run_plain(
        &RunContext {
            root: &root,
            platform: Platform::Unix,
            actions: &actions,
            progress: &progress,
            discovery_errors: &discovery_errors,
        },
        &receiver,
    );

    assert!(outcome.reports.is_empty());
    assert_eq!(lines, vec!["Running 1 cleanup actions"]);
}

#[test]
fn a_run_without_actions_is_over_at_once() {
    let run = PlainRun::new(0);
    assert!(run.is_over());
    assert!(run.outcome().reports.is_empty());
}

#[test]
fn waiting_goes_on_while_reports_may_come() {
    let root = path("/dev");
    let actions = vec![Action {
        kind: ActionKind::Scratch,
        path: root.join("scratch"),
    }];
    let mut progress = vec![Progress::default()];
    progress[0].set_state(ActionState::Sizing);
    let discovery_errors = vec!["lost".to_string()];
    let context = RunContext {
        root: &root,
        platform: Platform::Unix,
        actions: &actions,
        progress: &progress,
        discovery_errors: &discovery_errors,
    };
    let mut run = PlainRun::new(1);
    let output = run.run_plain(&context, PlainEvent::Timeout);
    assert!(output.lines.is_empty() && output.problems.is_empty());
    assert!(!run.is_over());
    let mut late = report(ActionKind::Scratch, &actions[0].path);
    late.errors = vec!["one".to_string(), "two".to_string()];
    late.error_count = 2;
    let output = run.run_plain(&context, PlainEvent::Received(0, late));
    assert_eq!(
        output.lines,
        vec![
            "[start] scratch      /dev/scratch",
            "[error] scratch      /dev/scratch — 1.0 KiB reclaimed in 1ms"
        ]
    );
    assert_eq!(output.problems, vec!["  one", "  two"]);
    assert!(run.is_over());
    assert_eq!(
        discovery_lines(&discovery_errors),
        vec!["[discovery error] lost"]
    );
}

#[test]
fn starts_are_announced_once() {
    let root = path("/dev");
    let actions = vec![
        Action {
            kind: ActionKind::Cargo,
            path: root.join("a"),
        },
        Action {
            kind: ActionKind::PythonVenv,
            path: root.join("b"),
        },
    ];
    let mut progress = vec![Progress::default(), Progress::default()];
    let discovery_errors = Vec::new();
    let mut announced = vec![false, false];
    progress[1].set_state(ActionState::Waiting);
    let lines = announce_started(
        &RunContext {
            root: &root,
            platform: Platform::Unix,
            actions: &actions,
            progress: &progress,
            discovery_errors: &discovery_errors,
        },
        &mut announced,
    );
    assert_eq!(lines, vec!["[start] .venv        /dev/b"]);
    assert_eq!(announced, vec![false, true]);
    progress[0].set_state(ActionState::Done);
    let lines = announce_started(
        &RunContext {
            root: &root,
            platform: Platform::Unix,
            actions: &actions,
            progress: &progress,
            discovery_errors: &discovery_errors,
        },
        &mut announced,
    );
    assert_eq!(lines, vec!["[start] cargo        /dev/a"]);
    assert_eq!(announced, vec![true, true]);
}

#[test]
fn reports_say_how_an_action_ended() {
    let mut one = report(ActionKind::Debug, &path("/dev/x"));
    one.skipped = true;
    one.error_count = 3;
    assert_eq!(
        print_report(&one, Platform::Unix).0,
        "[skip] debug        /dev/x — 1.0 KiB reclaimed in 1ms"
    );
}

#[test]
fn the_terminal_decides_on_the_display() {
    assert_eq!(run(Some(Ok(()))), (Display::Dashboard, None));
    assert_eq!(run(None), (Display::Plain, None));
    assert_eq!(
        run(Some(Err("no tty".to_string()))),
        (
            Display::Plain,
            Some("Falling back to plain output: no tty".to_string())
        )
    );
}

#[test]
fn bar_endpoints_are_full_and_empty() {
    assert_eq!(text_bar(&Binary::zero()), "░".repeat(BAR_WIDTH));
    assert_eq!(text_bar(&Binary::one()), "▓".repeat(BAR_WIDTH));
    assert_eq!(
        text_bar(&Binary::quotient(2, 1)),
        "▓".repeat(BAR_WIDTH),
        "clamped"
    );
    assert_eq!(
        text_bar(&Binary::quotient(1, 2)).chars().count(),
        BAR_WIDTH
    );
}

#[test]
fn bars_and_percentages_are_those_of_floating_point() {
    for total in 1..400u64 {
        for done in 0..total + 2 {
            let ratio = (done as f64 / total as f64).clamp(0.0, 1.0);
            let filled = (ratio * 10.0).round() as usize;
            let bar = format!("{}{}", "▓".repeat(filled), "░".repeat(10 - filled));
            assert_eq!(text_bar(&Binary::quotient(done, total)), bar);
            let summary = Totals {
                known_bytes: total,
                done_bytes: done,
                completed: 0,
            };
            let footer = draw_footer(&summary, None, None);
            let expected = format!("{:.0}%  ·  —  ·  eta —", ratio * 100.0);
            assert_eq!(footer.label, expected, "{done} of {total}");
            let (num, den) = footer.ratio.parts();
            assert_eq!(num as f64 / den as f64, ratio);
        }
    }
}

#[test]
fn finished_actions_report_size_and_failures() {
    let progress = Progress::default();
    let finished = Some(Finished {
        reclaimed_bytes: 2048,
        elapsed: Span::new(2, 0),
        error_count: 3,
        skipped: false,
    });
    let (text, tint) = status_cell(&finished, &progress);
    assert!(text.contains("2.0 KiB"), "{text}");
    assert!(text.contains("3 failed"), "{text}");
    assert_eq!(text, "  2.0 KiB in 2.00s  (3 failed)");
    assert_eq!(tint, Tint::Red);
}

#[test]
fn skipped_actions_say_why() {
    let finished = Some(Finished {
        reclaimed_bytes: 0,
        elapsed: Span::new(0, 0),
        error_count: 0,
        skipped: true,
    });
    let (text, tint) = status_cell(&finished, &Progress::default());
    assert!(text.contains("build running"), "{text}");
    assert_eq!(tint, Tint::Yellow);
}

#[test]
fn running_actions_show_how_far_they_are() {
    let mut progress = Progress::default();
    assert_eq!(
        status_cell(&None, &progress),
        ("pending".to_string(), Tint::DarkGray)
    );
    progress.set_state(ActionState::Waiting);
    assert_eq!(
        status_cell(&None, &progress),
        ("waiting for overlap".to_string(), Tint::DarkGray)
    );
    progress.set_state(ActionState::Sizing);
    assert_eq!(
        status_cell(&None, &progress),
        ("measuring…".to_string(), Tint::Blue)
    );
    progress.set_state(ActionState::Deleting);
    assert_eq!(
        status_cell(&None, &progress),
        ("░░░░░░░░░░   0%  0 B / 0 B".to_string(), Tint::Cyan)
    );
    progress.set_total(1000);
    progress.record_removed(420);
    assert_eq!(
        status_cell(&None, &progress).0,
        "▓▓▓▓░░░░░░  42%  420 B / 1000 B"
    );
    progress.set_state(ActionState::Done);
    progress.record_removed(580);
    assert_eq!(
        status_cell(&None, &progress).0,
        "▓▓▓▓▓▓▓▓▓▓ 100%  1000 B / 1000 B"
    );
    let finished = Some(Finished {
        reclaimed_bytes: 5,
        elapsed: Span::new(61, 0),
        error_count: 0,
        skipped: false,
    });
    assert_eq!(
        status_cell(&finished, &progress),
        ("      5 B in 1.0m".to_string(), Tint::Green)
    );
}

#[test]
fn totals_sum_up_all_actions() {
    let mut progress = vec![Progress::default(), Progress::default(), Progress::default()];
    progress[0].set_total(100);
    progress[0].record_removed(30);
    progress[1].set_state(ActionState::Done);
    progress[1].record_removed(5);
    progress[2].set_total(7);
    assert_eq!(
        totals(&progress),
        Totals {
            known_bytes: 107,
            done_bytes: 35,
            completed: 1
        }
    );
}

#[test]
fn the_header_and_the_footer_tell_the_numbers() {
    let summary = Totals {
        known_bytes: 2048,
        done_bytes: 1024,
        completed: 1,
    };
    let header = draw_header(
        &path("/dev"),
        Platform::Unix,
        3,
        &summary,
        false,
        Span::new(3, 0),
    );
    assert_eq!(header.title, " rclean — /dev ");
    let shown: String = header.line.iter().map(|piece| piece.text.as_str()).collect();
    assert_eq!(
        shown,
        "1/3 actions · 2.0 KiB found · 1.0 KiB reclaimed · 3.00s   (q quit · ↑↓ scroll)"
    );
    assert_eq!(header.line[0].tint, Tint::Cyan);
    assert!(header.line[0].bold);
    assert_eq!(header.line[7].tint, Tint::DarkGray);
    let header = draw_header(
        &path("/dev"),
        Platform::Unix,
        3,
        &summary,
        true,
        Span::new(3, 0),
    );
    assert_eq!(header.title, " rclean — cancelling ");
    let footer = draw_footer(&summary, Some(4096), Some(Span::new(90, 0)));
    assert_eq!(footer.title, " overall ");
    assert_eq!(footer.label, "50%  ·  4.0 KiB/s  ·  eta 1.5m");
}

fn sample_actions(root: &TreePath, count: usize) -> Vec<Action> {
    (0..count)
        .map(|index| Action {
            kind: ActionKind::Scratch,
            path: root.join(&format!("p{index}")),
        })
        .collect()
}

fn moment(progress: &Vec<Progress>) -> Moment {
    Moment {
        summary: totals(progress),
        rate: None,
        eta: None,
        elapsed: Span::new(0, 0),
    }
}

/// Paints a screen as a terminal would.
fn paint(screen: &Screen, width: u16, height: u16) -> String {
    let mut buffer = Buffer::empty(Rect::new(0, 0, width, height));
    let rect = |area: Area| Rect::new(area.x, area.y, area.width, area.height);
    let header: String = screen.header.line.iter().map(|piece| piece.text.as_str()).collect();
    Paragraph::new(header)
        .block(Block::bordered().title(screen.header.title.as_str()))
        .render(rect(screen.panes.header), &mut buffer);
    let rows: Vec<Line> = screen
        .table
        .rows
        .iter()
        .skip(screen.table.offset)
        .map(|row| Line::from(format!("{} {} {}", row.label, row.path, row.status)))
        .collect();
    Paragraph::new(rows)
        .block(Block::bordered().title(screen.table.title.as_str()))
        .render(rect(screen.panes.actions), &mut buffer);
    if let Some(problems) = &screen.problems {
        let lines: Vec<Line> = problems
            .lines
            .iter()
            .map(|line| Line::from(line.as_str()))
            .collect();
        Paragraph::new(lines)
            .block(Block::bordered().title(problems.title.as_str()))
            .render(rect(screen.panes.problems), &mut buffer);
    }
    Paragraph::new(screen.footer.label.as_str())
        .block(Block::bordered().title(screen.footer.title.as_str()))
        .render(rect(screen.panes.footer), &mut buffer);
    buffer.content().iter().map(|cell| cell.symbol()).collect()
}

#[test]
fn dashboard_renders_paths_progress_and_problems() {
    let root = path("/dev");
    let actions = vec![
        Action {
            kind: ActionKind::Cargo,
            path: root.join("web_template"),
        },
        Action {
            kind: ActionKind::NodeModules,
            path: root.join("ui").join("node_modules"),
        },
    ];
    let mut progress: Vec<Progress> = actions.iter().map(|_| Progress::default()).collect();
    progress[0].set_state(ActionState::Deleting);
    progress[0].set_total(1000);
    progress[0].record_removed(420);
    progress[1].set_state(ActionState::Sizing);
    let discovery_errors = vec!["cannot read somewhere".to_string()];
    let context = RunContext {
        root: &root,
        platform: Platform::Unix,
        actions: &actions,
        progress: &progress,
        discovery_errors: &discovery_errors,
    };

    let mut dashboard = Dashboard::new(&context);
    let area = Area {
        x: 0,
        y: 0,
        width: 100,
        height: 24,
    };
    let screen = dashboard.draw(&context, &moment(&progress), area);
    let rendered = paint(&screen, 100, 24);

    for expected in [
        "rclean",
        "web_template",
        "node_modules",
        "measuring",
        "42%",
        "problems (1)",
        "cannot read somewhere",
        "overall",
    ] {
        assert!(rendered.contains(expected), "missing {expected:?}");
    }
    assert_eq!(screen.table.columns, vec!["KIND", "PATH", "PROGRESS"]);
    assert_eq!(screen.table.rows[1].path, "ui/node_modules");
}

#[test]
fn the_screen_is_split_from_top_to_bottom() {
    let root = path("/dev");
    let actions = sample_actions(&root, 2);
    let progress = vec![Progress::default(), Progress::default()];
    for problems in 0..9usize {
        let discovery_errors: Vec<String> = (0..problems).map(|n| format!("e{n}")).collect();
        let context = RunContext {
            root: &root,
            platform: Platform::Unix,
            actions: &actions,
            progress: &progress,
            discovery_errors: &discovery_errors,
        };
        let wanted: u16 = if problems == 0 {
            0
        } else {
            problems.min(6) as u16 + 2
        };
        let tall = [100u16, 1000, 30_000, 65_000];
        for height in (0..60u16).chain(tall) {
            for (x, y, width) in [(0, 0, 80), (3, 5, 7), (0, 1, 0), (9, 500, 60_000)] {
                let area = Area {
                    x,
                    y,
                    width,
                    height,
                };
                let mut dashboard = Dashboard::new(&context);
                let screen = dashboard.draw(&context, &moment(&progress), area);
                let panes = screen.panes;
                for pane in [panes.header, panes.actions, panes.problems, panes.footer] {
                    assert_eq!(pane.x, x);
                    assert_eq!(pane.width, width);
                    assert!(pane.y >= y);
                    assert!(pane.y + pane.height <= y + height, "{area:?} {panes:?}");
                }
                assert_eq!(panes.header.y, y);
                assert_eq!(panes.actions.y, panes.header.y + panes.header.height);
                assert_eq!(panes.problems.y, panes.actions.y + panes.actions.height);
                assert_eq!(panes.footer.y, panes.problems.y + panes.problems.height);
                assert!(panes.actions.height >= height.min(4), "{area:?} {panes:?}");
                if height >= 10 + wanted {
                    let rest = height - 6 - wanted;
                    let at = |from: u16, tall: u16| Area {
                        x,
                        y: y + from,
                        width,
                        height: tall,
                    };
                    let expected = Panes {
                        header: at(0, 3),
                        actions: at(3, rest),
                        problems: at(3 + rest, wanted),
                        footer: at(3 + rest + wanted, 3),
                    };
                    assert_eq!(panes, expected);
                }
                assert_eq!(screen.problems.is_some(), problems > 0);
            }
        }
    }
}

#[test]
fn keys_ask_for_things() {
    let press = |code: KeyCode| {
        poll_key(Some(KeyPress {
            code,
            control: false,
            pressed: true,
        }))
    };
    assert_eq!(press(KeyCode::Char('q')), Some(Key::Quit));
    assert_eq!(press(KeyCode::Char('c')), None);
    assert_eq!(press(KeyCode::Char('x')), None);
    assert_eq!(press(KeyCode::Esc), Some(Key::Quit));
    assert_eq!(press(KeyCode::Up), Some(Key::ActionsUp));
    assert_eq!(press(KeyCode::Down), Some(Key::ActionsDown));
    assert_eq!(press(KeyCode::Home), Some(Key::ActionsFollow));
    assert_eq!(press(KeyCode::PageUp), Some(Key::ErrorsUp));
    assert_eq!(press(KeyCode::PageDown), Some(Key::ErrorsDown));
    assert_eq!(press(KeyCode::Other), None);
    assert_eq!(poll_key(None), None);
    assert_eq!(
        poll_key(Some(KeyPress {
            code: KeyCode::Char('c'),
            control: true,
            pressed: true
        })),
        Some(Key::Quit)
    );
    assert_eq!(
        poll_key(Some(KeyPress {
            code: KeyCode::Esc,
            control: false,
            pressed: false
        })),
        None
    );
}

#[test]
fn lists_scroll_and_follow() {
    let root = path("/dev");
    let actions = sample_actions(&root, 20);
    let progress: Vec<Progress> = actions.iter().map(|_| Progress::default()).collect();
    let discovery_errors: Vec<String> = (0..10).map(|n| format!("e{n}")).collect();
    let context = RunContext {
        root: &root,
        platform: Platform::Unix,
        actions: &actions,
        progress: &progress,
        discovery_errors: &discovery_errors,
    };
    let area = Area {
        x: 0,
        y: 0,
        width: 80,
        height: 10,
    };
    let mut dashboard = Dashboard::new(&context);
    assert_eq!(dashboard.action_count(), 20);
    assert_eq!(dashboard.draw_actions(&context, area).offset, 0);
    for index in 0..12 {
        dashboard.record(
            index,
            &report(ActionKind::Scratch, &actions[index].path),
            &root,
            Platform::Unix,
        );
    }
    // Seven rows are visible, so the first at work is the fourth of them.
    assert_eq!(dashboard.draw_actions(&context, area).offset, 9);
    dashboard.ask(Key::ActionsUp, 20);
    assert_eq!(dashboard.draw_actions(&context, area).offset, 8);
    for _ in 0..30 {
        dashboard.ask(Key::ActionsDown, 20);
    }
    assert_eq!(dashboard.draw_actions(&context, area).offset, 13);
    dashboard.ask(Key::ActionsFollow, 20);
    assert_eq!(dashboard.draw_actions(&context, area).offset, 9);

    let short = Area { height: 5, ..area };
    let problems = dashboard.draw_errors(short);
    assert_eq!(problems.title, " problems (10) — PgUp/PgDn ");
    assert_eq!(problems.lines, vec!["e0", "e1", "e2"]);
    dashboard.ask(Key::ErrorsDown, 20);
    dashboard.ask(Key::ErrorsDown, 20);
    assert_eq!(dashboard.draw_errors(short).lines, vec!["e2", "e3", "e4"]);
    for _ in 0..30 {
        dashboard.ask(Key::ErrorsDown, 20);
    }
    assert_eq!(dashboard.draw_errors(short).lines, vec!["e7", "e8", "e9"]);
    dashboard.ask(Key::ErrorsUp, 20);
    assert_eq!(
        dashboard.draw_errors(short).lines,
        vec!["e7", "e8", "e9"],
        "the list stays full"
    );
    assert!(dashboard.draw_errors(Area { height: 2, ..area }).lines.is_empty());
}

#[test]
fn reports_add_their_problems() {
    let root = path("/dev");
    let actions = sample_actions(&root, 1);
    let progress = vec![Progress::default()];
    let discovery_errors = vec!["first".to_string()];
    let context = RunContext {
        root: &root,
        platform: Platform::Unix,
        actions: &actions,
        progress: &progress,
        discovery_errors: &discovery_errors,
    };
    let mut dashboard = Dashboard::new(&context);
    let mut failed = report(ActionKind::Scratch, &actions[0].path);
    failed.errors = vec!["a".to_string(), "b".to_string()];
    failed.error_count = 2;
    dashboard.record(0, &failed, &root, Platform::Unix);
    let area = Area {
        x: 0,
        y: 0,
        width: 80,
        height: 10,
    };
    assert_eq!(
        dashboard.draw_errors(area).lines,
        vec!["first", "p0: a", "p0: b"]
    );
    let table = dashboard.draw_actions(&context, area);
    assert_eq!(table.rows[0].status, "  1.0 KiB in 1ms  (2 failed)");
    assert_eq!(table.rows[0].label, "scratch");
    assert_eq!(table.rows[0].tint, Tint::Red);
}

#[test]
fn a_run_on_a_terminal_stops_after_the_last_screen() {
    let root = path("/dev");
    let actions = sample_actions(&root, 2);
    let progress = vec![Progress::default(), Progress::default()];
    let discovery_errors = Vec::new();
    let context = RunContext {
        root: &root,
        platform: Platform::Unix,
        actions: &actions,
        progress: &progress,
        discovery_errors: &discovery_errors,
    };
    let unix = Platform::Unix;
    let mut run = DashboardRun::new(&context);
    assert_eq!(run.next_step(), DashboardStep::Receive);
    let first = DashboardEvent::Received(1, report(ActionKind::Scratch, &actions[1].path));
    assert!(!run.run_dashboard(first, &root, unix));
    assert_eq!(run.next_step(), DashboardStep::Receive);
    assert!(!run.run_dashboard(DashboardEvent::Empty, &root, unix));
    assert_eq!(run.next_step(), DashboardStep::Draw);
    let area = Area {
        x: 0,
        y: 0,
        width: 80,
        height: 24,
    };
    let screen = run.draw(&context, &moment(&progress), area);
    assert_eq!(screen.header.title, " rclean — /dev ");
    assert!(!run.run_dashboard(DashboardEvent::Drawn, &root, unix));
    assert_eq!(run.next_step(), DashboardStep::Poll);
    assert!(run.run_dashboard(DashboardEvent::Polled(Some(Key::Quit)), &root, unix));
    assert_eq!(run.next_step(), DashboardStep::Receive);
    assert!(!run.run_dashboard(DashboardEvent::Empty, &root, unix));
    let screen = run.draw(&context, &moment(&progress), area);
    assert_eq!(screen.header.title, " rclean — cancelling ");
    assert!(!run.run_dashboard(DashboardEvent::Drawn, &root, unix));
    assert!(!run.run_dashboard(DashboardEvent::Polled(None), &root, unix));
    let second = DashboardEvent::Received(0, report(ActionKind::Scratch, &actions[0].path));
    assert!(!run.run_dashboard(second, &root, unix));
    assert!(!run.run_dashboard(DashboardEvent::Empty, &root, unix));
    assert!(!run.run_dashboard(DashboardEvent::Drawn, &root, unix));
    assert_eq!(run.next_step(), DashboardStep::Stop);
    let outcome = run.outcome();
    let order: Vec<usize> = outcome.reports.iter().map(|(index, _)| *index).collect();
    assert_eq!(order, vec![1, 0]);
    assert!(outcome.cancelled);
    assert!(!outcome.already_logged);
}

#[test]
fn a_run_on_a_terminal_stops_when_nobody_is_left() {
    let root = path("/dev");
    let actions = sample_actions(&root, 2);
    let progress = vec![Progress::default(), Progress::default()];
    let discovery_errors = Vec::new();
    let context = RunContext {
        root: &root,
        platform: Platform::Unix,
        actions: &actions,
        progress: &progress,
        discovery_errors: &discovery_errors,
    };
    let mut run = DashboardRun::new(&context);
    run.run_dashboard(DashboardEvent::Disconnected, &root, Platform::Unix);
    run.run_dashboard(DashboardEvent::Drawn, &root, Platform::Unix);
    assert_eq!(run.next_step(), DashboardStep::Stop);
    let outcome = run.outcome();
    assert!(outcome.reports.is_empty());
    assert!(!outcome.cancelled);
}

#[test]
fn totals_that_would_overflow_are_noticed() {
    let mut progress = vec![Progress::default(), Progress::default()];
    progress[0].set_total(u64::MAX);
    assert!(totals_fit(&progress));
    progress[1].set_total(1);
    assert!(!totals_fit(&progress));
    progress[1].set_total(0);
    progress[0].record_removed(u64::MAX);
    assert!(totals_fit(&progress));
    progress[1].record_removed(1);
    assert!(!totals_fit(&progress));
}

#[test]
fn the_rate_is_taken_twice_a_second_at_most() {
    assert_eq!(bytes_to_rate(Span::new(0, 499_999_999), 9, 2), None);
    assert_eq!(bytes_to_rate(Span::new(0, 500_000_000), 9, 2), Some(7));
    assert_eq!(bytes_to_rate(Span::new(1, 0), 9, 2), Some(7));
    assert_eq!(bytes_to_rate(Span::new(1, 0), 2, 9), Some(0));
    let summary = |known: u64, done: u64| Totals {
        known_bytes: known,
        done_bytes: done,
        completed: 0,
    };
    assert_eq!(remaining_bytes(&summary(10, 4)), 6);
    assert_eq!(remaining_bytes(&summary(4, 10)), 0);
}
