use rclean::action::{Action, ActionKind};
use rclean::discover::{
    direct_action_kind, discover_actions, judge, EntryKind, Verdict, Walk, WalkReply, WalkRequest,
};
use rclean::path::{Component, Part, Platform, TreePath};
use std::collections::BTreeMap;

fn path(text: &str) -> TreePath {
    let mut parts = Vec::new();
    if text.starts_with('/') {
        parts.push(Part::root(Platform::Unix));
    }
    for name in text.split('/').filter(|name| !name.is_empty()) {
        parts.push(Part::name(name.as_bytes().to_vec()));
    }
    TreePath { parts }
}

fn text(path: &TreePath) -> String {
    let mut shown = String::new();
    for part in &path.parts {
        if let Component::Name(name) = &part.component {
            shown.push('/');
            shown.push_str(std::str::from_utf8(name).unwrap());
        }
    }
    shown
}

/// Everything on a disk in memory, by path. The kind tells what listing a
/// directory says of it.
struct Disk {
    entries: BTreeMap<String, EntryKind>,
    /// Where paths lead that are not canonical.
    canonical: BTreeMap<String, Result<String, String>>,
    unreadable: Vec<String>,
    uninspectable: Vec<String>,
    broken: Vec<String>,
}

impl Disk {
    fn new() -> Disk {
        let mut entries = BTreeMap::new();
        entries.insert("/root".to_string(), EntryKind::Directory);
        Disk {
            entries,
            canonical: BTreeMap::new(),
            unreadable: Vec::new(),
            uninspectable: Vec::new(),
            broken: Vec::new(),
        }
    }

    fn directory(&mut self, at: &str) {
        let mut whole = "/root".to_string();
        for name in at.split('/') {
            whole = format!("{whole}/{name}");
            self.entries.entry(whole.clone()).or_insert(EntryKind::Directory);
        }
    }

    fn touch(&mut self, at: &str) {
        if let Some((parent, _)) = at.rsplit_once('/') {
            self.directory(parent);
        }
        self.entries.insert(format!("/root/{at}"), EntryKind::Other);
    }

    fn list(&self, directory: &str) -> Vec<(String, EntryKind)> {
        self.entries
            .iter()
            .filter_map(|(at, kind)| {
                let (parent, name) = at.rsplit_once('/')?;
                if parent == directory {
                    Some((name.to_string(), *kind))
                } else {
                    None
                }
            })
            .collect()
    }

    fn is_file(&self, at: &TreePath) -> bool {
        self.entries.get(&text(at)) == Some(&EntryKind::Other)
    }

    fn discover(&self) -> (Vec<Action>, Vec<String>, Vec<String>) {
        let root = path("/root");
        let is_cargo = self.is_file(&root.join("Cargo.toml"));
        let mut walk = Walk::new(&root, is_cargo, Platform::Unix);
        let mut open: Vec<(String, Vec<(String, EntryKind)>)> = Vec::new();
        let mut opened = Vec::new();
        loop {
            let reply = match walk.request() {
                WalkRequest::Open(directory) => {
                    let at = text(&directory);
                    if self.unreadable.contains(&at) {
                        WalkReply::OpenFailed("denied".to_string())
                    } else {
                        let mut entries = self.list(&at);
                        entries.reverse();
                        open.push((at.clone(), entries));
                        opened.push(at);
                        WalkReply::Opened
                    }
                }
                WalkRequest::NextEntry => {
                    let (directory, entries) = open.last_mut().unwrap();
                    match entries.pop() {
                        None => {
                            open.pop();
                            WalkReply::NoMoreEntries
                        }
                        Some((name, kind)) => {
                            let at = format!("{directory}/{name}");
                            if self.broken.contains(&at) {
                                WalkReply::EntryFailed("torn".to_string())
                            } else if self.uninspectable.contains(&at) {
                                WalkReply::EntryUnknown {
                                    name: name.into_bytes(),
                                    error: "blurred".to_string(),
                                }
                            } else {
                                WalkReply::Entry {
                                    name: name.into_bytes(),
                                    kind,
                                }
                            }
                        }
                    }
                }
                WalkRequest::Canonicalize(at) => match self.canonical.get(&text(&at)) {
                    None => WalkReply::Canonical(at),
                    Some(Ok(canonical)) => WalkReply::Canonical(path(canonical)),
                    Some(Err(error)) => WalkReply::CanonicalFailed(error.clone()),
                },
                WalkRequest::IsRealDirectory(at) => WalkReply::Found(
                    self.entries.get(&text(&at)) == Some(&EntryKind::Directory),
                ),
                WalkRequest::IsFile(at) => WalkReply::Found(self.is_file(&at)),
                WalkRequest::Finished => break,
            };
            walk.walk(reply);
        }
        assert!(open.is_empty());
        let (actions, errors) = discover_actions(walk);
        (actions, errors, opened)
    }
}

fn kinds_for(actions: &[Action], kind: ActionKind) -> Vec<String> {
    actions
        .iter()
        .filter(|action| action.kind == kind)
        .map(|action| text(&action.path))
        .collect()
}

#[test]
fn finds_each_reclaimable_directory_kind() {
    let mut disk = Disk::new();
    disk.touch("web/node_modules/pkg/index.js");
    disk.touch("py/.venv/lib/site.py");
    disk.directory("scratch");
    disk.touch("rs/Cargo.toml");
    disk.touch("rs/target/debug/app.exe");

    let (actions, errors, _) = disk.discover();

    assert!(errors.is_empty(), "unexpected errors: {errors:?}");
    assert_eq!(
        kinds_for(&actions, ActionKind::NodeModules),
        vec!["/root/web/node_modules"]
    );
    assert_eq!(
        kinds_for(&actions, ActionKind::PythonVenv),
        vec!["/root/py/.venv"]
    );
    assert_eq!(
        kinds_for(&actions, ActionKind::Scratch),
        vec!["/root/scratch"]
    );
    assert_eq!(kinds_for(&actions, ActionKind::Cargo), vec!["/root/rs"]);
    assert!(
        kinds_for(&actions, ActionKind::Debug).is_empty(),
        "the cargo action already covers this project's target"
    );
}

#[test]
fn an_orphaned_target_debug_gets_its_own_action() {
    let mut disk = Disk::new();
    disk.touch("vendored/target/debug/leftover.rlib");

    let (actions, _, _) = disk.discover();

    assert_eq!(
        kinds_for(&actions, ActionKind::Debug),
        vec!["/root/vendored/target/debug"]
    );
    assert!(kinds_for(&actions, ActionKind::Cargo).is_empty());
}

#[test]
fn nested_manifests_collapse_to_the_outermost() {
    let mut disk = Disk::new();
    disk.touch("ws/Cargo.toml");
    disk.touch("ws/crates/inner/Cargo.toml");

    let (actions, _, _) = disk.discover();

    assert_eq!(kinds_for(&actions, ActionKind::Cargo), vec!["/root/ws"]);
}

#[test]
fn target_contents_are_not_traversed() {
    let mut disk = Disk::new();
    disk.touch("rs/Cargo.toml");
    disk.touch("rs/target/debug/build/x/node_modules/a.js");

    let (actions, _, opened) = disk.discover();

    assert!(kinds_for(&actions, ActionKind::NodeModules).is_empty());
    assert_eq!(opened, vec!["/root", "/root/rs"]);
}

#[test]
fn git_directories_are_left_alone() {
    let mut disk = Disk::new();
    disk.touch("proj/.git/objects/ab/cdef");
    disk.touch("proj/.git/node_modules/should_not_match.js");

    let (actions, _, _) = disk.discover();

    assert!(actions.is_empty(), "unexpected actions: {actions:?}");
}

#[test]
fn names_alone_call_for_actions() {
    assert_eq!(direct_action_kind("debug"), Some(ActionKind::Debug));
    assert_eq!(
        direct_action_kind("node_modules"),
        Some(ActionKind::NodeModules)
    );
    assert_eq!(direct_action_kind(".venv"), Some(ActionKind::PythonVenv));
    assert_eq!(direct_action_kind("scratch"), Some(ActionKind::Scratch));
    assert_eq!(direct_action_kind(".scratch"), Some(ActionKind::Scratch));
    assert_eq!(direct_action_kind("target"), None);
    assert_eq!(direct_action_kind("Debug"), None);
    assert_eq!(direct_action_kind(""), None);
}

#[test]
fn names_decide_what_is_walked() {
    assert_eq!(judge("src", false), Verdict::Enter);
    assert_eq!(judge("src", true), Verdict::Enter);
    assert_eq!(judge(".git", false), Verdict::Ignore);
    assert_eq!(judge("target", true), Verdict::Ignore);
    assert_eq!(judge("target", false), Verdict::Orphan);
    assert_eq!(judge("debug", true), Verdict::Reclaim(ActionKind::Debug));
}

#[test]
fn a_root_with_a_manifest_is_an_action_itself() {
    let mut disk = Disk::new();
    disk.touch("Cargo.toml");
    disk.touch("member/Cargo.toml");
    disk.touch("target/debug/app");
    disk.touch("ui/node_modules/a.js");

    let (actions, errors, _) = disk.discover();

    assert!(errors.is_empty());
    assert_eq!(actions.len(), 2);
    assert_eq!(kinds_for(&actions, ActionKind::Cargo), vec!["/root"]);
    assert_eq!(
        kinds_for(&actions, ActionKind::NodeModules),
        vec!["/root/ui/node_modules"]
    );
}

#[test]
fn an_orphaned_target_without_debug_is_passed_over() {
    let mut disk = Disk::new();
    disk.touch("vendored/target/release/x");
    let (actions, errors, opened) = disk.discover();
    assert!(actions.is_empty());
    assert!(errors.is_empty());
    assert_eq!(opened, vec!["/root", "/root/vendored"]);
}

#[test]
fn links_and_files_are_passed_over() {
    let mut disk = Disk::new();
    disk.touch("node_modules");
    disk.entries
        .insert("/root/scratch".to_string(), EntryKind::Symlink);
    let (actions, errors, _) = disk.discover();
    assert!(actions.is_empty());
    assert!(errors.is_empty());
}

#[test]
fn actions_come_in_the_order_of_their_paths() {
    let mut disk = Disk::new();
    disk.touch("b/node_modules/x");
    disk.touch("a.b/node_modules/x");
    disk.touch("a/z/.venv/x");
    disk.touch("a/scratch/x");
    let (actions, _, _) = disk.discover();
    let shown: Vec<String> = actions.iter().map(|action| text(&action.path)).collect();
    assert_eq!(
        shown,
        vec![
            "/root/a/scratch",
            "/root/a/z/.venv",
            "/root/a.b/node_modules",
            "/root/b/node_modules"
        ]
    );
}

#[test]
fn directories_that_lead_outside_are_refused() {
    let mut disk = Disk::new();
    disk.directory("away");
    disk.directory("up");
    disk.canonical
        .insert("/root/away".to_string(), Ok("/elsewhere/x".to_string()));
    disk.canonical
        .insert("/root/up".to_string(), Ok("/root".to_string()));
    let (actions, errors, opened) = disk.discover();
    assert!(actions.is_empty());
    assert_eq!(
        errors,
        vec![
            "refusing directory outside cleanup root: /elsewhere/x",
            "refusing directory outside cleanup root: /root"
        ]
    );
    assert_eq!(opened, vec!["/root"]);
}

#[test]
fn an_orphaned_debug_directory_that_leads_outside_is_refused() {
    let mut disk = Disk::new();
    disk.touch("v/target/debug/x");
    disk.canonical
        .insert("/root/v/target/debug".to_string(), Ok("/far".to_string()));
    let (actions, errors, _) = disk.discover();
    assert!(actions.is_empty());
    assert_eq!(
        errors,
        vec!["refusing debug directory outside cleanup root: /far"]
    );
}

#[test]
fn a_directory_seen_before_is_not_walked_again() {
    let mut disk = Disk::new();
    disk.touch("first/node_modules/x");
    disk.directory("second");
    disk.canonical
        .insert("/root/second".to_string(), Ok("/root/first".to_string()));
    let (actions, errors, opened) = disk.discover();
    assert!(errors.is_empty());
    assert_eq!(actions.len(), 1);
    assert_eq!(opened, vec!["/root", "/root/first"]);
}

#[test]
fn failures_to_read_are_reported_and_passed_over() {
    let mut disk = Disk::new();
    disk.touch("a/x");
    disk.touch("b/x");
    disk.touch("c/x");
    disk.touch("d/x");
    disk.touch("e/target/debug/x");
    disk.touch("f/node_modules/x");
    disk.unreadable.push("/root/a".to_string());
    disk.broken.push("/root/b".to_string());
    disk.uninspectable.push("/root/c".to_string());
    disk.canonical
        .insert("/root/d".to_string(), Err("gone".to_string()));
    disk.canonical
        .insert("/root/e/target/debug".to_string(), Err("lost".to_string()));
    let (actions, errors, _) = disk.discover();
    assert_eq!(
        errors,
        vec![
            "cannot read /root/a: denied",
            "cannot read an entry in /root: torn",
            "cannot inspect /root/c: blurred",
            "cannot canonicalize /root/d: gone",
            "cannot canonicalize /root/e/target/debug: lost"
        ]
    );
    assert_eq!(actions.len(), 1);
    assert_eq!(
        kinds_for(&actions, ActionKind::NodeModules),
        vec!["/root/f/node_modules"]
    );
}

#[test]
fn an_unreadable_root_ends_the_walk() {
    let mut disk = Disk::new();
    disk.touch("a/node_modules/x");
    disk.unreadable.push("/root".to_string());
    let (actions, errors, _) = disk.discover();
    assert!(actions.is_empty());
    assert_eq!(errors, vec!["cannot read /root: denied"]);
}

#[test]
fn names_that_are_no_text_are_read_with_replacements() {
    let root = path("/root");
    let mut walk = Walk::new(&root, false, Platform::Unix);
    walk.walk(WalkReply::Opened);
    walk.walk(WalkReply::EntryUnknown {
        name: vec![b'a', 0xff, b'b'],
        error: "odd".to_string(),
    });
    walk.walk(WalkReply::NoMoreEntries);
    assert_eq!(walk.request(), WalkRequest::Finished);
    let (_, errors) = discover_actions(walk);
    assert_eq!(errors, vec!["cannot inspect /root/a\u{fffd}b: odd"]);
}
