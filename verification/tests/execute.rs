use rclean::action::{Action, ActionKind, ActionReport, ActionState, Progress};
use rclean::execute::{
    canonicalize_nearest, held_build_lock, is_locked, requested_targets, validate_target,
    CargoLayout, Completion, Execution, ExecutionReply, ExecutionRequest, LockProbe, Nearest,
    NearestStep,
};
use rclean::format::Span;
use rclean::path::{Component, Part, Platform, TreePath};
use rclean::path_lock::PathLocks;
use rclean::remove::RemovalOutcome;
use rclean::summary::{exit_code, report_summary};

fn path(text: &str) -> TreePath {
    let mut parts = Vec::new();
    if text.starts_with('/') {
        parts.push(Part::root(Platform::Unix));
    }
    for name in text.split('/').filter(|name| !name.is_empty()) {
        parts.push(Part::name(name.as_bytes().to_vec()));
    }
    TreePath { parts }
}

fn text(path: &TreePath) -> String {
    let mut shown = String::new();
    for part in &path.parts {
        if let Component::Name(name) = &part.component {
            shown.push('/');
            shown.push_str(std::str::from_utf8(name).unwrap());
        }
    }
    shown
}

fn outcome(bytes: u64, files: u64) -> RemovalOutcome {
    RemovalOutcome {
        bytes_removed: bytes,
        files_removed: files,
        errors: Vec::new(),
        error_count: 0,
        cancelled: false,
    }
}

/// A world in which an action is carried out.
struct World {
    metadata: Result<TreePath, String>,
    directories: Vec<&'static str>,
    held: Vec<&'static str>,
    sizes: Vec<(&'static str, u64)>,
    outcomes: Vec<(&'static str, RemovalOutcome)>,
    canonical_error: Option<&'static str>,
    removed: Vec<String>,
    asked: Vec<String>,
    states: Vec<ActionState>,
}

impl World {
    fn new() -> World {
        World {
            metadata: Err("no cargo".to_string()),
            directories: Vec::new(),
            held: Vec::new(),
            sizes: Vec::new(),
            outcomes: Vec::new(),
            canonical_error: None,
            removed: Vec::new(),
            asked: Vec::new(),
            states: Vec::new(),
        }
    }

    fn has(&self, at: &TreePath) -> bool {
        let at = text(at);
        self.directories
            .iter()
            .any(|directory| *directory == at || directory.starts_with(&format!("{at}/")))
    }

    fn execute(&mut self, kind: ActionKind, at: &str, progress: &mut Progress) -> ActionReport {
        let action = Action {
            kind,
            path: path(at),
        };
        let mut locks = PathLocks::default();
        let mut guard = None;
        let mut execution = Execution::new(&action, &path("/root"), Platform::Unix);
        loop {
            let reply = match execution.request() {
                ExecutionRequest::CargoMetadata(project) => {
                    self.asked.push(format!("metadata {}", text(&project)));
                    ExecutionReply::Metadata(match &self.metadata {
                        Ok(target) => Ok(target.copy()),
                        Err(error) => Err(error.clone()),
                    })
                }
                ExecutionRequest::IsDirectory(at) => ExecutionReply::Found(self.has(&at)),
                ExecutionRequest::Exists(at) => {
                    self.asked.push(format!("exists {}", text(&at)));
                    ExecutionReply::Found(self.has(&at))
                }
                ExecutionRequest::Canonicalize(at) => {
                    ExecutionReply::Canonical(match self.canonical_error {
                        Some(error) => Err(error.to_string()),
                        None => Ok(at),
                    })
                }
                ExecutionRequest::List(at) => {
                    let prefix = format!("{}/", text(&at));
                    let mut entries = Vec::new();
                    for directory in &self.directories {
                        if let Some(rest) = directory.strip_prefix(prefix.as_str()) {
                            if !rest.contains('/') {
                                entries.push((rest.as_bytes().to_vec(), true));
                            }
                        }
                    }
                    entries.push((b"file".to_vec(), false));
                    ExecutionReply::Listed(entries)
                }
                ExecutionRequest::IsLocked(at) => {
                    let probe = if self.held.contains(&text(&at).as_str()) {
                        LockProbe::Held
                    } else {
                        LockProbe::Unopened
                    };
                    ExecutionReply::Found(is_locked(probe))
                }
                ExecutionRequest::Measure(at) => {
                    self.states.push(progress.state());
                    let at = text(&at);
                    let size = self.sizes.iter().find(|(name, _)| *name == at);
                    ExecutionReply::Measured(size.map(|(_, bytes)| *bytes).unwrap_or(0))
                }
                ExecutionRequest::RestartClock => {
                    self.asked.push("clock".to_string());
                    ExecutionReply::Done
                }
                ExecutionRequest::IsContended(at) => {
                    ExecutionReply::Found(locks.is_contended(&at))
                }
                ExecutionRequest::Acquire(at) => {
                    guard = locks.acquire(&at);
                    assert!(guard.is_some());
                    ExecutionReply::Done
                }
                ExecutionRequest::Remove(at) => {
                    assert!(locks.is_contended(&at), "only what is held is removed");
                    self.states.push(progress.state());
                    let at = text(&at);
                    self.removed.push(at.clone());
                    let found = self.outcomes.iter().position(|(name, _)| *name == at);
                    ExecutionReply::Removed(match found {
                        Some(index) => self.outcomes.remove(index).1,
                        None => outcome(0, 0),
                    })
                }
                ExecutionRequest::Release(at) => {
                    locks.release(guard.take().unwrap());
                    assert!(!locks.is_contended(&at));
                    ExecutionReply::Done
                }
                ExecutionRequest::Finished => break,
            };
            execution.execute_action(reply, progress);
        }
        assert!(guard.is_none());
        execution.report(Span::new(1, 0))
    }
}

#[test]
fn targets_outside_the_root_are_refused() {
    let root = path("/tmp/work");
    let outside = path("/tmp");

    let error = validate_target(outside, &root, Platform::Unix).expect_err("must refuse");
    assert!(error.contains("refusing target"), "{error}");
    assert!(
        validate_target(root.copy(), &root, Platform::Unix).is_err(),
        "root itself"
    );
    assert!(validate_target(path("/tmp/work/proj/target"), &root, Platform::Unix).is_ok());
}

#[test]
fn refusals_name_the_path() {
    let root = path("/tmp/work");
    assert_eq!(
        validate_target(path("/tmp/workshop"), &root, Platform::Unix),
        Err("refusing target outside cleanup root: /tmp/workshop".to_string())
    );
}

fn held_lock(target: &TreePath, entries: Vec<(Vec<u8>, bool)>, held: &[&str]) -> Option<String> {
    for candidate in held_build_lock(target, &entries) {
        let probe = if held.contains(&text(&candidate).as_str()) {
            LockProbe::Held
        } else {
            LockProbe::Free
        };
        if is_locked(probe) {
            return Some(text(&candidate));
        }
    }
    None
}

#[test]
fn an_unlocked_cargo_lock_does_not_look_like_a_build() {
    let target = path("/w/target");
    assert!(held_lock(&target, vec![(b"debug".to_vec(), true)], &[]).is_none());
}

#[test]
fn a_held_cargo_lock_is_detected() {
    let target = path("/w/target");
    let entries = vec![(b"debug".to_vec(), true)];
    let detected = held_lock(&target, entries.clone(), &["/w/target/debug/.cargo-lock"]);
    assert_eq!(detected.as_deref(), Some("/w/target/debug/.cargo-lock"));
    assert!(held_lock(&target, entries, &[]).is_none());
}

#[test]
fn locks_are_tried_in_order() {
    let shown: Vec<String> = held_build_lock(
        &path("/w/target/debug"),
        &vec![(b"deps".to_vec(), true), (b"app".to_vec(), false)],
    )
    .iter()
    .map(text)
    .collect();
    assert_eq!(
        shown,
        vec![
            "/w/target/debug/.cargo-lock",
            "/w/target/debug/.cargo-build-lock",
            "/w/target/debug/.cargo-artifact-lock",
            "/w/target/.cargo-lock",
            "/w/target/.cargo-build-lock",
            "/w/target/.cargo-artifact-lock",
            "/w/target/debug/deps/.cargo-lock",
            "/w/target/debug/deps/.cargo-build-lock",
            "/w/target/debug/deps/.cargo-artifact-lock",
        ]
    );
    assert_eq!(held_build_lock(&path("/w/x"), &Vec::new()).len(), 3);
    assert!(!is_locked(LockProbe::Unopened));
    assert!(!is_locked(LockProbe::Free));
    assert!(!is_locked(LockProbe::Untried));
    assert!(is_locked(LockProbe::Held));
}

#[test]
fn requested_targets_follow_the_layout() {
    let project = path("/root/p");
    let shown = |layout: CargoLayout| {
        let mut errors = Vec::new();
        let targets: Vec<String> = requested_targets(&project, layout, &mut errors)
            .iter()
            .map(text)
            .collect();
        (targets, errors)
    };
    assert_eq!(
        shown(CargoLayout::NotCargo),
        (vec!["/root/p".to_string()], Vec::new())
    );
    assert_eq!(
        shown(CargoLayout::Known {
            target: path("/root/shared"),
            conventional_exists: false
        }),
        (vec!["/root/shared".to_string()], Vec::new())
    );
    assert_eq!(
        shown(CargoLayout::Known {
            target: path("/root/shared"),
            conventional_exists: true
        }),
        (
            vec!["/root/shared".to_string(), "/root/p/target".to_string()],
            Vec::new()
        )
    );
    assert_eq!(
        shown(CargoLayout::Unknown("broken".to_string())),
        (
            vec!["/root/p/target".to_string()],
            vec!["broken".to_string()]
        )
    );
}

#[test]
fn the_deepest_existing_ancestor_is_found() {
    let mut nearest = Nearest::new(&path("/a/b/c"));
    assert_eq!(text(&nearest.current()), "/a/b/c");
    assert!(matches!(
        canonicalize_nearest(&mut nearest, false),
        NearestStep::Look
    ));
    assert!(matches!(
        canonicalize_nearest(&mut nearest, false),
        NearestStep::Look
    ));
    assert_eq!(text(&nearest.current()), "/a");
    assert!(matches!(
        canonicalize_nearest(&mut nearest, true),
        NearestStep::Canonicalize
    ));
    assert_eq!(text(&nearest.restored(&path("/real"))), "/real/b/c");
    assert_eq!(nearest.restored(&nearest.current()), path("/a/b/c"));
    assert_eq!(nearest.path(), path("/a/b/c"));
}

#[test]
fn a_path_without_an_existing_ancestor_stays_as_it_is() {
    let mut nearest = Nearest::new(&path("a/b"));
    assert!(matches!(
        canonicalize_nearest(&mut nearest, false),
        NearestStep::Look
    ));
    assert!(matches!(
        canonicalize_nearest(&mut nearest, false),
        NearestStep::Look
    ));
    assert_eq!(nearest.current(), path(""));
    assert!(matches!(
        canonicalize_nearest(&mut nearest, false),
        NearestStep::Unresolved
    ));

    let mut up = Nearest::new(&TreePath {
        parts: vec![Part::root(Platform::Unix), Part::plain(Component::Parent)],
    });
    assert!(matches!(
        canonicalize_nearest(&mut up, false),
        NearestStep::Unresolved
    ));
}

#[test]
fn a_directory_is_measured_and_removed() {
    let mut world = World::new();
    world.directories = vec!["/root/ui/node_modules"];
    world.sizes = vec![("/root/ui/node_modules", 500)];
    world.outcomes = vec![("/root/ui/node_modules", outcome(400, 3))];
    let mut progress = Progress::default();
    let report = world.execute(
        ActionKind::NodeModules,
        "/root/ui/node_modules",
        &mut progress,
    );
    assert_eq!(report.kind, ActionKind::NodeModules);
    assert_eq!(text(&report.path), "/root/ui/node_modules");
    assert_eq!(report.reclaimed_bytes, 400);
    assert_eq!(report.files_removed, 3);
    assert_eq!(report.error_count, 0);
    assert!(report.errors.is_empty());
    assert!(!report.skipped);
    assert_eq!(report.elapsed, Span::new(1, 0));
    assert_eq!(progress.total(), Some(500));
    assert_eq!(
        world.states,
        vec![ActionState::Sizing, ActionState::Deleting]
    );
    assert_eq!(world.removed, vec!["/root/ui/node_modules"]);
    assert_eq!(world.asked, vec!["exists /root/ui/node_modules", "clock"]);
}

#[test]
fn both_targets_of_a_project_are_removed() {
    let mut world = World::new();
    world.metadata = Ok(path("/root/shared"));
    world.directories = vec!["/root/p/target", "/root/shared"];
    world.sizes = vec![("/root/p/target", 5), ("/root/shared", 7)];
    world.outcomes = vec![
        ("/root/shared", outcome(7, 1)),
        ("/root/p/target", outcome(5, 2)),
    ];
    let mut progress = Progress::default();
    let report = world.execute(ActionKind::Cargo, "/root/p", &mut progress);
    assert_eq!(world.removed, vec!["/root/shared", "/root/p/target"]);
    assert_eq!(report.reclaimed_bytes, 12);
    assert_eq!(report.files_removed, 3);
    assert_eq!(text(&report.path), "/root/shared");
    assert_eq!(progress.total(), Some(12));
    assert_eq!(world.asked[0], "metadata /root/p");
}

#[test]
fn one_directory_in_two_spellings_is_removed_once() {
    let mut world = World::new();
    world.metadata = Ok(path("/root/p/target"));
    world.directories = vec!["/root/p/target"];
    let report = world.execute(ActionKind::Cargo, "/root/p", &mut Progress::default());
    assert_eq!(world.removed, vec!["/root/p/target"]);
    assert_eq!(report.error_count, 0);
}

#[test]
fn without_metadata_the_conventional_target_is_removed() {
    let mut world = World::new();
    world.directories = vec!["/root/p/target"];
    world.outcomes = vec![("/root/p/target", outcome(9, 1))];
    let report = world.execute(ActionKind::Cargo, "/root/p", &mut Progress::default());
    assert_eq!(world.removed, vec!["/root/p/target"]);
    assert_eq!(report.errors, vec!["no cargo"]);
    assert_eq!(report.error_count, 1);
    assert_eq!(report.reclaimed_bytes, 9);
}

#[test]
fn a_target_outside_the_root_is_not_removed() {
    let mut world = World::new();
    world.metadata = Ok(path("/elsewhere/target"));
    world.directories = vec!["/elsewhere/target"];
    let mut progress = Progress::default();
    let report = world.execute(ActionKind::Cargo, "/root/p", &mut progress);
    assert!(world.removed.is_empty());
    assert_eq!(
        report.errors,
        vec!["refusing target outside cleanup root: /elsewhere/target"]
    );
    assert_eq!(report.error_count, 1);
    assert_eq!(text(&report.path), "/root/p");
    assert!(!report.skipped);
    assert_eq!(progress.total(), None);
}

#[test]
fn a_missing_directory_is_found_by_its_ancestor() {
    let mut world = World::new();
    world.directories = vec!["/root/ui"];
    let report = world.execute(
        ActionKind::NodeModules,
        "/root/ui/node_modules",
        &mut Progress::default(),
    );
    assert_eq!(world.removed, vec!["/root/ui/node_modules"]);
    assert_eq!(report.error_count, 0);
    assert_eq!(
        world.asked,
        vec!["exists /root/ui/node_modules", "exists /root/ui", "clock"]
    );
}

#[test]
fn a_directory_that_cannot_be_made_canonical_is_left() {
    let mut world = World::new();
    world.directories = vec!["/root/scratch"];
    world.canonical_error = Some("loop");
    let report = world.execute(
        ActionKind::Scratch,
        "/root/scratch",
        &mut Progress::default(),
    );
    assert!(world.removed.is_empty());
    assert_eq!(report.errors, vec!["cannot canonicalize /root/scratch: loop"]);
    assert_eq!(report.error_count, 1);
}

#[test]
fn a_running_build_is_left_alone() {
    let mut world = World::new();
    world.metadata = Ok(path("/root/p/target"));
    world.directories = vec!["/root/p/target", "/root/p/target/debug"];
    world.held = vec!["/root/p/target/debug/.cargo-lock"];
    let mut progress = Progress::default();
    let report = world.execute(ActionKind::Cargo, "/root/p", &mut progress);
    assert!(report.skipped);
    assert!(world.removed.is_empty());
    assert_eq!(report.reclaimed_bytes, 0);
    assert_eq!(report.error_count, 0);
    assert_eq!(
        report.errors,
        vec!["build in progress (/root/p/target/debug/.cargo-lock is locked); left alone"]
    );
    assert_eq!(progress.state(), ActionState::Pending);

    let mut world = World::new();
    world.directories = vec!["/root/v/target/debug"];
    world.held = vec!["/root/v/target/.cargo-lock"];
    let report = world.execute(
        ActionKind::Debug,
        "/root/v/target/debug",
        &mut Progress::default(),
    );
    assert!(report.skipped, "the lock of the target around it counts");
}

#[test]
fn a_failure_before_a_skip_still_counts() {
    let mut world = World::new();
    world.directories = vec!["/root/p/target", "/root/p/target/debug"];
    world.held = vec!["/root/p/target/debug/.cargo-lock"];
    let report = world.execute(ActionKind::Cargo, "/root/p", &mut Progress::default());
    assert!(report.skipped);
    assert!(world.removed.is_empty());
    assert_eq!(
        report.errors,
        vec![
            "no cargo",
            "build in progress (/root/p/target/debug/.cargo-lock is locked); left alone"
        ]
    );
    assert_eq!(report.error_count, 1);
    let (_, failures) = report_summary(&vec![report], 1, 0, Span::new(0, 0));
    assert_eq!(failures, 1);
    assert_eq!(exit_code(false, failures), 1);
}

#[test]
fn locks_do_not_matter_to_other_kinds() {
    let mut world = World::new();
    world.directories = vec!["/root/scratch"];
    world.held = vec!["/root/scratch/.cargo-lock"];
    let report = world.execute(
        ActionKind::Scratch,
        "/root/scratch",
        &mut Progress::default(),
    );
    assert!(!report.skipped);
    assert_eq!(world.removed, vec!["/root/scratch"]);
}

#[test]
fn failures_of_removals_are_counted_and_reported() {
    let mut world = World::new();
    world.metadata = Ok(path("/root/shared"));
    world.directories = vec!["/root/p/target", "/root/shared"];
    world.outcomes = vec![
        (
            "/root/shared",
            RemovalOutcome {
                bytes_removed: 1,
                files_removed: 1,
                errors: vec!["one".to_string(), "… further failures elided".to_string()],
                error_count: 40,
                cancelled: false,
            },
        ),
        ("/root/p/target", outcome(2, 1)),
    ];
    let report = world.execute(ActionKind::Cargo, "/root/p", &mut Progress::default());
    assert_eq!(report.error_count, 40);
    assert_eq!(report.errors.len(), 2);
    assert_eq!(report.reclaimed_bytes, 3);
}

#[test]
fn a_cancelled_removal_ends_the_action() {
    let mut world = World::new();
    world.metadata = Ok(path("/root/shared"));
    world.directories = vec!["/root/p/target", "/root/shared"];
    world.outcomes = vec![(
        "/root/shared",
        RemovalOutcome {
            bytes_removed: 4,
            files_removed: 1,
            errors: Vec::new(),
            error_count: 0,
            cancelled: true,
        },
    )];
    let report = world.execute(ActionKind::Cargo, "/root/p", &mut Progress::default());
    assert_eq!(world.removed, vec!["/root/shared"]);
    assert_eq!(report.errors, vec!["cancelled before completion"]);
    assert_eq!(report.error_count, 1);
    assert_eq!(report.reclaimed_bytes, 4);
}

#[test]
fn contention_shows_as_waiting() {
    let action = Action {
        kind: ActionKind::Scratch,
        path: path("/root/scratch"),
    };
    let mut progress = Progress::default();
    let mut execution = Execution::new(&action, &path("/root"), Platform::Unix);
    execution.execute_action(ExecutionReply::Found(true), &mut progress);
    execution.execute_action(
        ExecutionReply::Canonical(Ok(path("/root/scratch"))),
        &mut progress,
    );
    execution.execute_action(ExecutionReply::Measured(3), &mut progress);
    execution.execute_action(ExecutionReply::Done, &mut progress);
    assert_eq!(
        execution.request(),
        ExecutionRequest::IsContended(path("/root/scratch"))
    );
    execution.execute_action(ExecutionReply::Found(true), &mut progress);
    assert_eq!(progress.state(), ActionState::Waiting);
    execution.execute_action(ExecutionReply::Done, &mut progress);
    assert_eq!(progress.state(), ActionState::Deleting);
    assert_eq!(
        execution.request(),
        ExecutionRequest::Remove(path("/root/scratch"))
    );
}

#[test]
fn completions_become_reports() {
    let report = Completion {
        path: path("/root/x"),
        errors: vec!["e".to_string()],
        error_count: 2,
        reclaimed_bytes: 3,
        files_removed: 4,
        skipped: true,
    }
    .into_report(ActionKind::Debug, Span::new(5, 6));
    assert_eq!(report.kind, ActionKind::Debug);
    assert_eq!(report.path, path("/root/x"));
    assert_eq!(report.errors, vec!["e"]);
    assert_eq!(report.error_count, 2);
    assert_eq!(report.reclaimed_bytes, 3);
    assert_eq!(report.files_removed, 4);
    assert_eq!(report.elapsed, Span::new(5, 6));
    assert!(report.skipped);
}

#[test]
fn answers_that_would_overflow_are_noticed() {
    let action = Action {
        kind: ActionKind::Scratch,
        path: path("/root/scratch"),
    };
    let mut progress = Progress::default();
    let mut execution = Execution::new(&action, &path("/root"), Platform::Unix);
    assert!(execution.has_room(&ExecutionReply::Found(true)));
    execution.execute_action(ExecutionReply::Found(true), &mut progress);
    execution.execute_action(
        ExecutionReply::Canonical(Ok(path("/root/scratch"))),
        &mut progress,
    );
    assert!(execution.has_room(&ExecutionReply::Measured(u64::MAX)));
    execution.execute_action(ExecutionReply::Measured(u64::MAX), &mut progress);
    execution.execute_action(ExecutionReply::Done, &mut progress);
    execution.execute_action(ExecutionReply::Found(false), &mut progress);
    execution.execute_action(ExecutionReply::Done, &mut progress);
    let mut failed = outcome(u64::MAX, 0);
    failed.error_count = u64::MAX;
    assert!(execution.has_room(&ExecutionReply::Removed(failed)));
    let mut cancelled = outcome(0, 0);
    cancelled.error_count = u64::MAX;
    cancelled.cancelled = true;
    assert!(!execution.has_room(&ExecutionReply::Removed(cancelled)));
}

#[test]
fn failures_of_all_stages_add_up() {
    let mut world = World::new();
    world.directories = vec!["/root/p/target"];
    world.outcomes = vec![(
        "/root/p/target",
        RemovalOutcome {
            bytes_removed: 7,
            files_removed: 2,
            errors: vec!["stuck".to_string()],
            error_count: 5,
            cancelled: true,
        },
    )];
    let report = world.execute(ActionKind::Cargo, "/root/p", &mut Progress::default());
    assert_eq!(
        report.errors,
        vec!["no cargo", "stuck", "cancelled before completion"]
    );
    assert_eq!(report.error_count, 7);
    assert_eq!(report.reclaimed_bytes, 7);
    assert_eq!(report.files_removed, 2);
}

#[test]
fn a_refused_target_is_shown_as_it_is_written() {
    let odd = |name: &str, gap: &str| Part {
        component: Component::Name(name.as_bytes().to_vec()),
        gap: gap.as_bytes().to_vec(),
    };
    let target = TreePath {
        parts: vec![
            Part::plain(Component::Parent),
            odd("elsewhere", "//"),
            odd("target", "/./"),
        ],
    };
    let mut progress = Progress::default();
    let action = Action {
        kind: ActionKind::Cargo,
        path: path("/root/p"),
    };
    let mut execution = Execution::new(&action, &path("/root"), Platform::Unix);
    execution.execute_action(ExecutionReply::Metadata(Ok(target)), &mut progress);
    execution.execute_action(ExecutionReply::Found(false), &mut progress);
    while execution.request() != ExecutionRequest::Finished {
        execution.execute_action(ExecutionReply::Found(false), &mut progress);
    }
    let report = execution.report(Span::new(0, 0));
    assert_eq!(
        report.errors,
        vec!["refusing target outside cleanup root: ../elsewhere//target/./"]
    );
    assert_eq!(report.error_count, 1);
}
