use rclean::action::{ActionKind, ActionReport};
use rclean::format::Span;
use rclean::path::{Part, Platform, TreePath};
use rclean::summary::{
    cleanup_parent, cleanup_root, exit_code, order_reports, plural, report_summary, scanning_line,
    summary_fits,
    worker_count,
};

fn path(text: &str) -> TreePath {
    let mut parts = vec![Part::root(Platform::Unix)];
    for name in text.split('/').filter(|name| !name.is_empty()) {
        parts.push(Part::name(name.as_bytes().to_vec()));
    }
    TreePath { parts }
}

fn report(bytes: u64, files: u64, failures: u64, skipped: bool) -> ActionReport {
    ActionReport {
        kind: ActionKind::Scratch,
        path: path("/dev/scratch"),
        reclaimed_bytes: bytes,
        files_removed: files,
        elapsed: Span::new(1, 0),
        errors: Vec::new(),
        error_count: failures,
        skipped,
    }
}

#[test]
fn a_run_is_summed_up() {
    let reports = vec![
        report(1024, 3, 0, false),
        report(0, 0, 2, false),
        report(512, 1, 0, false),
    ];
    let (line, failures) = report_summary(&reports, 4, 5, Span::new(2, 500_000_000));
    assert_eq!(failures, 8, "one action never reported");
    assert_eq!(
        line,
        "Complete: 2 of 3 actions reclaimed space, 1.5 KiB across 4 files, 8 problems, 2.50s total"
    );
}

#[test]
fn skipped_actions_are_mentioned() {
    let reports = vec![report(0, 0, 0, true), report(2048, 1, 1, false)];
    let (line, failures) = report_summary(&reports, 2, 0, Span::new(0, 12_000_000));
    assert_eq!(failures, 1);
    assert_eq!(
        line,
        "Complete: 1 of 2 actions reclaimed space, 2.0 KiB across 1 file, 1 problem, 12ms total \
         (1 skipped: build running)"
    );
}

#[test]
fn more_reports_than_actions_are_no_problem() {
    let reports = vec![report(0, 0, 0, false), report(0, 0, 0, false)];
    let (line, failures) = report_summary(&reports, 1, 0, Span::new(0, 0));
    assert_eq!(failures, 0);
    assert_eq!(
        line,
        "Complete: 0 of 2 actions reclaimed space, 0 B across 0 files, 0 problems, 0ms total"
    );
}

#[test]
fn nouns_have_a_plural() {
    assert_eq!(plural(0, "file"), "0 files");
    assert_eq!(plural(1, "file"), "1 file");
    assert_eq!(plural(2, "problem"), "2 problems");
}

#[test]
fn the_exit_status_tells_how_it_went() {
    assert_eq!(exit_code(false, 0), 0);
    assert_eq!(exit_code(false, 3), 1);
    assert_eq!(exit_code(true, 0), 130);
    assert_eq!(exit_code(true, 3), 130);
}

#[test]
fn reports_are_put_in_the_order_of_their_actions() {
    let numbered = vec![
        (2, report(20, 0, 0, false)),
        (0, report(0, 0, 0, false)),
        (1, report(10, 0, 0, false)),
        (0, report(1, 0, 0, false)),
    ];
    let bytes: Vec<u64> = order_reports(numbered)
        .iter()
        .map(|report| report.reclaimed_bytes)
        .collect();
    assert_eq!(bytes, vec![0, 1, 10, 20]);
}

#[test]
fn the_root_is_the_parent_of_the_current_directory() {
    assert_eq!(cleanup_parent(Ok(path("/home/me"))), Ok(path("/home")));
    assert_eq!(
        cleanup_parent(Ok(path("/"))),
        Err("Current directory has no parent".to_string())
    );
    assert_eq!(
        cleanup_parent(Err("gone".to_string())),
        Err("Could not get current directory: gone".to_string())
    );
    assert_eq!(
        cleanup_root(&path("/home"), Ok(path("/real")), Platform::Unix),
        Ok(path("/real"))
    );
    assert_eq!(
        cleanup_root(&path("/home"), Err("denied".to_string()), Platform::Unix),
        Err("Could not canonicalize cleanup root /home: denied".to_string())
    );
    assert_eq!(
        scanning_line(&path("/home"), Platform::Unix),
        "Scanning /home"
    );
}

#[test]
fn there_are_four_workers_unless_more_is_known() {
    assert_eq!(worker_count(Some(16)), 16);
    assert_eq!(worker_count(Some(1)), 1);
    assert_eq!(worker_count(None), 4);
}

#[test]
fn sums_that_would_overflow_are_noticed() {
    let huge = vec![report(u64::MAX, 1, 0, false)];
    assert!(summary_fits(&huge, 1, 0));
    let more = vec![report(u64::MAX, 1, 0, false), report(1, 1, 0, false)];
    assert!(!summary_fits(&more, 2, 0));
    let failed = vec![report(0, 0, u64::MAX, false)];
    assert!(summary_fits(&failed, 1, 0));
    assert!(!summary_fits(&failed, 2, 0));
    assert!(!summary_fits(&failed, 1, 1));
    let files = vec![report(0, u64::MAX, 0, false), report(0, 1, 0, false)];
    assert!(!summary_fits(&files, 2, 0));
}
