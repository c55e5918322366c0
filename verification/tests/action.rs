use rclean::action::{Action, ActionKind, ActionState, Progress};
use rclean::path::{Part, Platform, TreePath};

#[test]
fn kinds_have_labels() {
    assert_eq!(ActionKind::Cargo.label(), "cargo");
    assert_eq!(ActionKind::Debug.label(), "debug");
    assert_eq!(ActionKind::NodeModules.label(), "node_modules");
    assert_eq!(ActionKind::PythonVenv.label(), ".venv");
    assert_eq!(ActionKind::Scratch.label(), "scratch");
}

#[test]
fn states_survive_their_codes() {
    for (code, state) in [
        ActionState::Pending,
        ActionState::Waiting,
        ActionState::Sizing,
        ActionState::Deleting,
        ActionState::Done,
    ]
    .into_iter()
    .enumerate()
    {
        assert_eq!(state.encode() as usize, code);
        assert_eq!(ActionState::decode(state.encode()), state);
    }
    assert_eq!(ActionState::decode(5), ActionState::Pending);
    assert_eq!(ActionState::decode(255), ActionState::Pending);
}

#[test]
fn progress_counts() {
    let mut progress = Progress::default();
    assert_eq!(progress.state(), ActionState::Pending);
    assert_eq!(progress.total(), None);
    assert_eq!(progress.done_bytes(), 0);
    assert!(progress.ratio().is_none());
    progress.set_state(ActionState::Sizing);
    progress.set_total(200);
    progress.record_removed(50);
    assert_eq!(progress.state(), ActionState::Sizing);
    assert_eq!(progress.total(), Some(200));
    assert_eq!(progress.done_bytes(), 50);
    assert_eq!(progress.ratio().unwrap().times(100).round_even(), 25);
    progress.record_removed(400);
    assert_eq!(
        progress.ratio().unwrap().parts(),
        (1, 1),
        "no more than everything"
    );
    progress.record_removed(u64::MAX);
    assert_eq!(progress.done_bytes(), 449, "counters wrap");
}

#[test]
fn nothing_to_do_is_done() {
    let mut progress = Progress::default();
    progress.set_total(0);
    assert_eq!(progress.ratio().unwrap().parts(), (1, 1));
}

#[test]
fn actions_are_equal_by_kind_and_path() {
    let at = |name: &str| TreePath {
        parts: vec![Part::root(Platform::Unix), Part::name(name.as_bytes().to_vec())],
    };
    let action = Action {
        kind: ActionKind::Cargo,
        path: at("a"),
    };
    assert!(action.same(&action.copy()));
    assert!(!action.same(&Action {
        kind: ActionKind::Debug,
        path: at("a")
    }));
    assert!(!action.same(&Action {
        kind: ActionKind::Cargo,
        path: at("b")
    }));
}
