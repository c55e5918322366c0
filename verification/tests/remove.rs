use rclean::action::Progress;
use rclean::discover::EntryKind;
use rclean::path::{Component, Part, Platform, TreePath};
use rclean::remove::{
    clear_readonly, measure_tree, remove_symlink, remove_with_readonly_retry, FailureKind,
    Failures, MeasuredEntry, Removal, RemovalFailure, RemovalOutcome, RemovalReply,
    RemovalRequest, Retry, RetryReply, RetryStep, Unlink, MAX_REPORTED_ERRORS,
};
use std::collections::BTreeMap;

fn path(text: &str) -> TreePath {
    let mut parts = vec![Part::root(Platform::Unix)];
    for name in text.split('/').filter(|name| !name.is_empty()) {
        parts.push(Part::name(name.as_bytes().to_vec()));
    }
    TreePath { parts }
}

fn text(path: &TreePath) -> String {
    let mut shown = String::new();
    for part in &path.parts {
        if let Component::Name(name) = &part.component {
            shown.push('/');
            shown.push_str(std::str::from_utf8(name).unwrap());
        }
    }
    shown
}

#[derive(Clone, Copy, PartialEq)]
enum Thing {
    Directory,
    File { size: u64, readonly: bool },
    Link,
}

struct Disk {
    things: BTreeMap<String, Thing>,
    stuck: Vec<String>,
    unreadable: Vec<String>,
    order: Vec<String>,
}

impl Disk {
    fn new() -> Disk {
        Disk {
            things: BTreeMap::new(),
            stuck: Vec::new(),
            unreadable: Vec::new(),
            order: Vec::new(),
        }
    }

    fn directory(&mut self, at: &str) {
        let mut whole = String::new();
        for name in at.split('/').filter(|name| !name.is_empty()) {
            whole = format!("{whole}/{name}");
            self.things.entry(whole.clone()).or_insert(Thing::Directory);
        }
    }

    fn put(&mut self, at: &str, thing: Thing) {
        self.directory(at.rsplit_once('/').unwrap().0);
        self.things.insert(at.to_string(), thing);
    }

    fn write_file(&mut self, at: &str, size: u64) {
        self.put(
            at,
            Thing::File {
                size,
                readonly: false,
            },
        );
    }

    fn holds(&self, at: &str) -> bool {
        self.things.contains_key(at)
    }

    fn list(&self, directory: &str) -> Vec<(String, Thing)> {
        self.things
            .iter()
            .filter_map(|(at, thing)| {
                let (parent, name) = at.rsplit_once('/')?;
                if parent == directory {
                    Some((name.to_string(), *thing))
                } else {
                    None
                }
            })
            .collect()
    }

    fn attempt(&mut self, at: &str) -> Result<(), RemovalFailure> {
        let fail = |kind: FailureKind, message: &str| {
            Err(RemovalFailure {
                kind,
                message: message.to_string(),
            })
        };
        match self.things.get(at) {
            None => fail(FailureKind::NotFound, "no such entry"),
            Some(Thing::Directory) if !self.list(at).is_empty() => {
                fail(FailureKind::DirectoryNotEmpty, "not empty")
            }
            Some(Thing::File { readonly: true, .. }) => fail(FailureKind::Other, "read only"),
            Some(_) if self.stuck.contains(&at.to_string()) => fail(FailureKind::Other, "in use"),
            Some(_) => {
                self.things.remove(at);
                self.order.push(at.to_string());
                Ok(())
            }
        }
    }

    fn remove_with_retry(&mut self, at: &str) -> RemovalReply {
        let mut retry = Retry::First;
        loop {
            let reply = match &retry {
                Retry::First | Retry::Second => RetryReply::Attempted(self.attempt(at)),
                Retry::Clearing(_) => {
                    let readonly = match self.things.get(at) {
                        Some(Thing::File { readonly, .. }) => Some(*readonly),
                        Some(_) => Some(false),
                        None => None,
                    };
                    let cleared = clear_readonly(readonly);
                    if cleared {
                        if let Some(Thing::File { readonly, .. }) = self.things.get_mut(at) {
                            *readonly = false;
                        }
                    }
                    RetryReply::Cleared(cleared)
                }
            };
            match remove_with_readonly_retry(retry, reply) {
                RetryStep::Waits(next) => retry = next,
                RetryStep::Settled(Ok(())) => return RemovalReply::Removed,
                RetryStep::Settled(Err(failure)) => return RemovalReply::RemoveFailed(failure),
            }
        }
    }

    fn remove_tree(
        &mut self,
        root: &str,
        progress: &mut Progress,
        cancel: &dyn Fn(usize) -> bool,
    ) -> RemovalOutcome {
        let mut removal = Removal::new(&path(root), Platform::Unix);
        let mut listing: Vec<(String, Thing)> = Vec::new();
        let mut asked = 0;
        loop {
            let reply = match removal.request() {
                RemovalRequest::Exists(at) => RemovalReply::Found(self.holds(&text(&at))),
                RemovalRequest::Open(at) => {
                    if self.unreadable.contains(&text(&at)) {
                        RemovalReply::OpenFailed("denied".to_string())
                    } else {
                        listing = self.list(&text(&at));
                        listing.reverse();
                        RemovalReply::Opened
                    }
                }
                RemovalRequest::NextEntry => match listing.pop() {
                    None => RemovalReply::NoMoreEntries,
                    Some((name, thing)) => RemovalReply::Entry {
                        name: name.into_bytes(),
                        kind: match thing {
                            Thing::Directory => EntryKind::Directory,
                            Thing::File { .. } => EntryKind::Other,
                            Thing::Link => EntryKind::Symlink,
                        },
                        size: match thing {
                            Thing::File { size, .. } => Some(size),
                            _ => None,
                        },
                    },
                },
                RemovalRequest::RemoveLink(at) => match self.attempt(&text(&at)) {
                    Ok(()) => RemovalReply::Removed,
                    Err(failure) => RemovalReply::RemoveFailed(failure),
                },
                RemovalRequest::RemoveFile(at) => self.remove_with_retry(&text(&at)),
                RemovalRequest::RemoveDirectory(at) => self.remove_with_retry(&text(&at)),
                RemovalRequest::Finished => break,
            };
            asked += 1;
            removal.remove_tree(reply, progress, cancel(asked));
        }
        removal.outcome()
    }

    fn measure(&self, root: &str, cancel_after: usize) -> u64 {
        let kind = match self.things.get(root) {
            Some(Thing::Directory) => EntryKind::Directory,
            Some(Thing::Link) => EntryKind::Symlink,
            _ => EntryKind::Other,
        };
        let mut measure = measure_tree(&path(root), kind);
        let mut count = 0;
        while let Some(directory) = measure.next(count >= cancel_after) {
            count += 1;
            if self.unreadable.contains(&text(&directory)) {
                continue;
            }
            for (name, thing) in self.list(&text(&directory)) {
                let entry = match thing {
                    Thing::Directory => MeasuredEntry::Directory {
                        name: name.into_bytes(),
                    },
                    Thing::Link => MeasuredEntry::Symlink,
                    Thing::File { size, .. } => MeasuredEntry::File { size: Some(size) },
                };
                measure.add(&directory, entry);
            }
        }
        measure.total()
    }
}

fn no_cancel(_: usize) -> bool {
    false
}

#[test]
fn measures_only_regular_files() {
    let mut disk = Disk::new();
    disk.write_file("/t/a.bin", 1000);
    disk.write_file("/t/nested/b.bin", 2000);
    disk.directory("/t/empty");

    assert_eq!(disk.measure("/t", usize::MAX), 3000);
}

#[test]
fn measuring_passes_over_links_and_what_cannot_be_read() {
    let mut disk = Disk::new();
    disk.write_file("/t/a.bin", 1000);
    disk.write_file("/t/secret/b.bin", 2000);
    disk.put("/t/link", Thing::Link);
    disk.unreadable.push("/t/secret".to_string());
    assert_eq!(disk.measure("/t", usize::MAX), 1000);

    let mut measure = measure_tree(&path("/t"), EntryKind::Directory);
    let directory = measure.next(false).unwrap();
    measure.add(&directory, MeasuredEntry::Unreadable);
    measure.add(&directory, MeasuredEntry::File { size: None });
    measure.add(&directory, MeasuredEntry::File { size: Some(7) });
    assert_eq!(measure.total(), 7);
    assert_eq!(measure.next(false), None);
}

#[test]
fn a_root_that_is_a_link_is_not_followed() {
    let mut disk = Disk::new();
    disk.write_file("/t/out/f.bin", 70);
    disk.put("/t/link", Thing::Link);
    // Whatever listing the link would show.
    disk.things.insert(
        "/t/link/f.bin".to_string(),
        Thing::File {
            size: 70,
            readonly: false,
        },
    );
    assert_eq!(disk.measure("/t/link", usize::MAX), 0);
    assert_eq!(disk.measure("/t/out", usize::MAX), 70);
    assert_eq!(
        measure_tree(&path("/t/link"), EntryKind::Symlink).next(false),
        None
    );
}

#[test]
fn measuring_can_be_cancelled() {
    let mut disk = Disk::new();
    disk.write_file("/t/a.bin", 10);
    disk.write_file("/t/x/b.bin", 20);
    disk.write_file("/t/y/c.bin", 40);
    assert_eq!(disk.measure("/t", 0), 0);
    assert_eq!(disk.measure("/t", 1), 10);
    assert_eq!(disk.measure("/t", 2), 50, "the last directory comes first");
    assert_eq!(disk.measure("/t", 3), 70);
}

#[test]
fn removes_whole_tree_and_reports_exact_bytes() {
    let mut disk = Disk::new();
    disk.write_file("/w/target/a.bin", 1500);
    disk.write_file("/w/target/deep/nested/b.bin", 2500);
    let measured = disk.measure("/w/target", usize::MAX);

    let mut progress = Progress::default();
    let outcome = disk.remove_tree("/w/target", &mut progress, &no_cancel);

    assert_eq!(outcome.error_count, 0, "errors: {:?}", outcome.errors);
    assert_eq!(outcome.bytes_removed, 4000);
    assert_eq!(outcome.files_removed, 2);
    assert_eq!(progress.done_bytes(), 4000);
    assert!(!disk.holds("/w/target"));
    assert!(disk.holds("/w"));
    assert_eq!(measured, outcome.bytes_removed);
    assert_eq!(
        disk.order,
        vec![
            "/w/target/a.bin",
            "/w/target/deep/nested/b.bin",
            "/w/target/deep/nested",
            "/w/target/deep",
            "/w/target"
        ]
    );
}

#[test]
fn read_only_files_are_removed() {
    let mut disk = Disk::new();
    disk.put(
        "/w/target/readonly.bin",
        Thing::File {
            size: 128,
            readonly: true,
        },
    );

    let outcome = disk.remove_tree("/w/target", &mut Progress::default(), &no_cancel);

    assert_eq!(outcome.error_count, 0, "errors: {:?}", outcome.errors);
    assert_eq!(outcome.bytes_removed, 128);
    assert!(!disk.holds("/w/target"));
}

#[test]
fn one_locked_file_does_not_abandon_the_rest() {
    let mut disk = Disk::new();
    disk.write_file("/w/target/keep_me_open.bin", 400);
    disk.write_file("/w/target/a.bin", 1000);
    disk.write_file("/w/target/deep/nested/b.bin", 2000);
    disk.stuck.push("/w/target/keep_me_open.bin".to_string());

    let outcome = disk.remove_tree("/w/target", &mut Progress::default(), &no_cancel);

    assert_eq!(outcome.error_count, 1, "errors: {:?}", outcome.errors);
    assert_eq!(outcome.bytes_removed, 3000, "everything else is reclaimed");
    assert!(!disk.holds("/w/target/a.bin"));
    assert!(!disk.holds("/w/target/deep"));
    assert!(disk.holds("/w/target/keep_me_open.bin"));
    assert_eq!(
        outcome.errors,
        vec!["cannot remove /w/target/keep_me_open.bin: in use"]
    );

    disk.stuck.clear();
    let outcome = disk.remove_tree("/w/target", &mut Progress::default(), &no_cancel);
    assert_eq!(outcome.error_count, 0);
    assert_eq!(outcome.bytes_removed, 400);
}

#[test]
fn cancellation_stops_the_walk() {
    let mut disk = Disk::new();
    for index in 0..50 {
        disk.write_file(&format!("/w/target/file_{index}.bin"), 10);
    }

    let outcome = disk.remove_tree("/w/target", &mut Progress::default(), &|_| true);

    assert!(outcome.cancelled);
    assert_eq!(outcome.files_removed, 0);
    assert!(disk.holds("/w/target"));
}

#[test]
fn cancellation_in_the_middle_leaves_the_rest() {
    let mut disk = Disk::new();
    for index in 0..10 {
        disk.write_file(&format!("/w/target/file_{index}.bin"), 10);
    }
    // Looking and opening are the first two answers, each file takes two.
    let outcome = disk.remove_tree("/w/target", &mut Progress::default(), &|asked| asked > 6);
    assert!(outcome.cancelled);
    assert_eq!(outcome.files_removed, 2);
    assert_eq!(outcome.bytes_removed, 20);
    assert_eq!(outcome.error_count, 0);
    assert!(disk.holds("/w/target/file_2.bin"));
}

#[test]
fn missing_target_is_not_an_error() {
    let mut disk = Disk::new();
    let outcome = disk.remove_tree("/w/absent", &mut Progress::default(), &no_cancel);
    assert_eq!(outcome.error_count, 0);
    assert_eq!(outcome.bytes_removed, 0);
    assert!(!outcome.cancelled);
}

#[test]
fn links_are_removed_and_not_followed() {
    let mut disk = Disk::new();
    disk.put("/w/target/link", Thing::Link);
    disk.put("/w/target/stuck_link", Thing::Link);
    disk.stuck.push("/w/target/stuck_link".to_string());
    let mut progress = Progress::default();
    let outcome = disk.remove_tree("/w/target", &mut progress, &no_cancel);
    assert_eq!(outcome.files_removed, 1);
    assert_eq!(outcome.bytes_removed, 0);
    assert_eq!(
        outcome.errors,
        vec!["cannot remove link /w/target/stuck_link: in use"]
    );
    assert_eq!(progress.done_bytes(), 0);
}

#[test]
fn directories_that_cannot_be_read_or_removed_are_reported() {
    let mut disk = Disk::new();
    disk.write_file("/w/target/a/x.bin", 1);
    disk.write_file("/w/target/b/y.bin", 2);
    disk.unreadable.push("/w/target/a".to_string());
    disk.stuck.push("/w/target/b".to_string());
    let outcome = disk.remove_tree("/w/target", &mut Progress::default(), &no_cancel);
    assert_eq!(
        outcome.errors,
        vec![
            "cannot remove directory /w/target/b: in use",
            "cannot read /w/target/a: denied"
        ]
    );
    assert_eq!(outcome.error_count, 2);
    assert_eq!(outcome.bytes_removed, 2);
    assert!(disk.holds("/w/target/a/x.bin"));
}

#[test]
fn entries_that_cannot_be_read_are_reported() {
    let mut removal = Removal::new(&path("/t"), Platform::Unix);
    let mut progress = Progress::default();
    removal.remove_tree(RemovalReply::Found(true), &mut progress, false);
    assert_eq!(removal.request(), RemovalRequest::Open(path("/t")));
    removal.remove_tree(RemovalReply::Opened, &mut progress, false);
    removal.remove_tree(
        RemovalReply::EntryFailed("torn".to_string()),
        &mut progress,
        false,
    );
    removal.remove_tree(
        RemovalReply::EntryUnknown {
            name: b"x".to_vec(),
            error: "blurred".to_string(),
        },
        &mut progress,
        false,
    );
    removal.remove_tree(
        RemovalReply::Entry {
            name: b"y".to_vec(),
            kind: EntryKind::Other,
            size: None,
        },
        &mut progress,
        false,
    );
    assert_eq!(removal.request(), RemovalRequest::RemoveFile(path("/t/y")));
    removal.remove_tree(RemovalReply::Removed, &mut progress, false);
    removal.remove_tree(RemovalReply::NoMoreEntries, &mut progress, false);
    assert_eq!(
        removal.request(),
        RemovalRequest::RemoveDirectory(path("/t"))
    );
    removal.remove_tree(
        RemovalReply::RemoveFailed(RemovalFailure {
            kind: FailureKind::DirectoryNotEmpty,
            message: "not empty".to_string(),
        }),
        &mut progress,
        false,
    );
    assert_eq!(removal.request(), RemovalRequest::Finished);
    let outcome = removal.outcome();
    assert_eq!(
        outcome.errors,
        vec![
            "cannot read an entry in /t: torn",
            "cannot inspect /t/x: blurred"
        ]
    );
    assert_eq!(outcome.files_removed, 1);
    assert_eq!(outcome.bytes_removed, 0);
}

#[test]
fn many_failures_are_sampled() {
    let mut disk = Disk::new();
    for index in 0..30 {
        let at = format!("/w/target/file_{index:02}.bin");
        disk.write_file(&at, 10);
        disk.stuck.push(at);
    }
    let outcome = disk.remove_tree("/w/target", &mut Progress::default(), &no_cancel);
    assert_eq!(outcome.error_count, 30);
    assert_eq!(outcome.errors.len(), MAX_REPORTED_ERRORS + 1);
    assert_eq!(
        outcome.errors[19],
        "cannot remove /w/target/file_19.bin: in use"
    );
    assert_eq!(outcome.errors[20], "… further failures elided");

    let mut failures = Failures::new();
    for index in 0..MAX_REPORTED_ERRORS {
        failures.push(format!("{index}"));
    }
    let shown = format!("{failures:?}");
    assert!(!shown.contains("elided"));
}

#[test]
fn a_removal_is_tried_again_once() {
    let failure = |message: &str| RemovalFailure {
        kind: FailureKind::Other,
        message: message.to_string(),
    };
    let waits = remove_with_readonly_retry(
        Retry::First,
        RetryReply::Attempted(Err(failure("first"))),
    );
    assert_eq!(waits, RetryStep::Waits(Retry::Clearing(failure("first"))));
    assert_eq!(
        remove_with_readonly_retry(Retry::Clearing(failure("first")), RetryReply::Cleared(false)),
        RetryStep::Settled(Err(failure("first")))
    );
    assert_eq!(
        remove_with_readonly_retry(Retry::Clearing(failure("first")), RetryReply::Cleared(true)),
        RetryStep::Waits(Retry::Second)
    );
    assert_eq!(
        remove_with_readonly_retry(
            Retry::Second,
            RetryReply::Attempted(Err(failure("second")))
        ),
        RetryStep::Settled(Err(failure("second")))
    );
    assert_eq!(
        remove_with_readonly_retry(
            Retry::First,
            RetryReply::Attempted(Err(RemovalFailure {
                kind: FailureKind::NotFound,
                message: "gone".to_string()
            }))
        ),
        RetryStep::Settled(Ok(()))
    );
    assert!(clear_readonly(Some(true)));
    assert!(!clear_readonly(Some(false)));
    assert!(!clear_readonly(None));
}

#[test]
fn links_to_directories_are_special_on_windows() {
    assert_eq!(remove_symlink(Platform::Windows, true), Unlink::AsDirectory);
    assert_eq!(remove_symlink(Platform::Windows, false), Unlink::AsFile);
    assert_eq!(remove_symlink(Platform::Unix, true), Unlink::AsFile);
    assert_eq!(remove_symlink(Platform::Unix, false), Unlink::AsFile);
}

#[test]
fn counters_that_would_overflow_are_noticed() {
    let mut measure = measure_tree(&path("/t"), EntryKind::Directory);
    let directory = measure.next(false).unwrap();
    let all = MeasuredEntry::File {
        size: Some(u64::MAX),
    };
    assert!(measure.has_room(&all));
    measure.add(&directory, all);
    assert!(measure.has_room(&MeasuredEntry::Symlink));
    assert!(!measure.has_room(&MeasuredEntry::File { size: Some(1) }));

    let mut removal = Removal::new(&path("/t"), Platform::Unix);
    let mut progress = Progress::default();
    removal.remove_tree(RemovalReply::Found(true), &mut progress, false);
    removal.remove_tree(RemovalReply::Opened, &mut progress, false);
    let entry = |name: &str, size: u64| RemovalReply::Entry {
        name: name.as_bytes().to_vec(),
        kind: EntryKind::Other,
        size: Some(size),
    };
    removal.remove_tree(entry("a", u64::MAX), &mut progress, false);
    assert!(removal.has_room());
    removal.remove_tree(RemovalReply::Removed, &mut progress, false);
    removal.remove_tree(entry("b", 1), &mut progress, false);
    assert!(!removal.has_room());
    assert!(Failures::new().has_room());
}
