use rclean::path::{Component, Part, Place, Platform, Prefix, TreePath, Volume};
use rclean::execute::{canonicalize_nearest, Nearest, NearestStep};
use rclean::format::{display_path, relative_display};
use rclean::path_lock::{paths_overlap, PathLocks};
use rclean::path_set::PathSet;
use rclean::text::{align_left, align_right, decimal_text, same_text, strip_start};

fn part(name: &str) -> Part {
    Part::name(name.as_bytes().to_vec())
}

fn path(text: &str) -> TreePath {
    let mut parts = Vec::new();
    if text.starts_with('/') {
        parts.push(Part::root(Platform::Unix));
    }
    for name in text.split('/').filter(|name| !name.is_empty()) {
        parts.push(part(name));
    }
    TreePath { parts }
}

fn prefix(shown: &str, volume: Volume) -> Part {
    Part::plain(Component::Prefix(Prefix {
        shown: shown.as_bytes().to_vec(),
        volume,
    }))
}

fn on(start: Part, names: &[&str]) -> TreePath {
    let mut parts = vec![start, Part::root(Platform::Windows)];
    for name in names {
        parts.push(part(name));
    }
    TreePath { parts }
}

fn std_place(left: &str, right: &str) -> Place {
    let left = std::path::Path::new(left);
    let right = std::path::Path::new(right);
    if left < right {
        Place::Before
    } else if left == right {
        Place::Same
    } else {
        Place::After
    }
}

#[test]
fn paths_are_ordered_as_everywhere() {
    let all = [
        "", "/", "/a", "/a/b", "/a/b/c", "/ab", "/a.b", "/a-b/c", "/b", "a", "a/b", "b", "/a/z",
        "/A", "/aa/a",
    ];
    for left in all {
        for right in all {
            assert_eq!(
                path(left).compare(&path(right)),
                std_place(left, right),
                "{left} {right}"
            );
            assert_eq!(path(left).same(&path(right)), left == right);
            assert_eq!(
                path(left).starts_with(&path(right)),
                std::path::Path::new(left).starts_with(right),
                "{left} {right}"
            );
        }
    }
}

#[test]
fn paths_have_parents_and_names() {
    for text in ["", "/", "/a", "/a/b", "a", "a/b"] {
        let expected = std::path::Path::new(text);
        assert_eq!(
            path(text).parent(),
            expected.parent().map(|parent| path(parent.to_str().unwrap())),
            "{text}"
        );
        assert_eq!(
            path(text).file_name(),
            expected
                .file_name()
                .map(|name| name.to_str().unwrap().as_bytes().to_vec()),
            "{text}"
        );
    }
    let up = TreePath {
        parts: vec![Part::root(Platform::Unix), part("a"), Part::plain(Component::Parent)],
    };
    assert_eq!(up.parent(), Some(path("/a")));
    assert_eq!(up.file_name(), None);
    let drive = TreePath {
        parts: vec![prefix("C:", Volume::Drive(b'C')), Part::root(Platform::Windows)],
    };
    assert_eq!(drive.parent(), None);
}

#[test]
fn drives_are_compared_without_case() {
    let low = on(prefix("c:", Volume::Drive(b'c')), &["a"]);
    let high = on(prefix("C:", Volume::Drive(b'C')), &["a"]);
    let below = on(prefix("C:", Volume::Drive(b'C')), &["a", "b"]);
    let named = on(prefix("C:", Volume::Drive(b'C')), &["A"]);
    assert!(low.same(&high));
    assert_eq!(low.compare(&high), Place::Same);
    assert!(paths_overlap(&low, &high));
    assert!(below.starts_with(&low));
    assert!(!low.starts_with(&below));
    assert!(!named.same(&high));
    assert!(!paths_overlap(&named, &low));

    let mut set = PathSet::new();
    assert!(set.insert(low.copy()));
    assert!(!set.insert(high.copy()));
    let mut locks = PathLocks::default();
    let guard = locks.acquire(&low).unwrap();
    assert!(locks.acquire(&below).is_none());
    locks.release(guard);
    assert!(locks.acquire(&below).is_some());

    let verbatim = on(prefix(r"\\?\c:", Volume::VerbatimDrive(b'c')), &["a"]);
    let raised = on(prefix(r"\\?\C:", Volume::VerbatimDrive(b'C')), &["a"]);
    assert!(verbatim.same(&raised));
    assert!(!verbatim.same(&low));
    assert_eq!(verbatim.compare(&low), Place::Before);
    let other = on(prefix("b:", Volume::Drive(b'b')), &["z"]);
    assert_eq!(other.compare(&high), Place::Before);
}

#[test]
fn shares_are_compared_name_by_name() {
    let bytes = |text: &str| text.as_bytes().to_vec();
    let ordered = [
        prefix(r"\\?\pictures", Volume::Verbatim(bytes("pictures"))),
        prefix(r"\\?\UNC\s\t", Volume::VerbatimShare(bytes("s"), bytes("t"))),
        prefix(r"\\?\D:", Volume::VerbatimDrive(b'D')),
        prefix(r"\\.\COM1", Volume::Device(bytes("COM1"))),
        prefix(r"\\S\t", Volume::Share(bytes("S"), bytes("t"))),
        prefix(r"\\s\T", Volume::Share(bytes("s"), bytes("T"))),
        prefix(r"\\s\t", Volume::Share(bytes("s"), bytes("t"))),
        prefix("C:", Volume::Drive(b'C')),
        prefix("d:", Volume::Drive(b'd')),
        prefix("E:", Volume::Drive(b'E')),
        Part::root(Platform::Unix),
        Part::plain(Component::Current),
        Part::plain(Component::Parent),
        part("a"),
    ];
    for (i, left) in ordered.iter().enumerate() {
        for (j, right) in ordered.iter().enumerate() {
            let expected = if i < j {
                Place::Before
            } else if i == j {
                Place::Same
            } else {
                Place::After
            };
            assert_eq!(left.compare(right), expected, "{left:?} {right:?}");
        }
    }
}

#[test]
fn paths_are_joined_and_cut() {
    let long = path("/a/b/c");
    assert_eq!(path("/a/b").join("c"), long);
    assert_eq!(path("/a/b").join_bytes(b"c".to_vec()), long);
    assert_eq!(long.prefix(2), path("/a"));
    assert_eq!(long.suffix(2), path("b/c"));
    assert_eq!(long.prefix(2).extended(&long.suffix(2)), long);
    assert_eq!(long.copy(), long);
}

#[test]
fn a_set_holds_each_path_once() {
    let mut set = PathSet::new();
    assert!(set.insert(path("/b")));
    assert!(set.insert(path("/a")));
    assert!(set.insert(path("/a/b")));
    assert!(!set.insert(path("/a")));
    assert!(!set.insert(path("/b")));
    assert!(set.insert(path("/")));
}

#[test]
fn numbers_and_columns_are_written() {
    for value in [0u128, 9, 10, 99, 100, 12_345, u64::MAX as u128, u128::MAX] {
        assert_eq!(decimal_text(value), value.to_string());
    }
    assert_eq!(align_left("ab", 4), "ab  ");
    assert_eq!(align_left("ab", 1), "ab");
    assert_eq!(align_right("ab", 4), "  ab");
    assert_eq!(align_right("é", 2), " é");
    assert!(same_text("x", "x"));
    assert!(!same_text("x", "X"));
    assert_eq!(strip_start("abc", "ab"), Some("c".to_string()));
    assert_eq!(strip_start("abc", "b"), None);
    assert_eq!(strip_start("a", "ab"), None);
}

fn written(text: &str) -> TreePath {
    let path = std::path::Path::new(text);
    let mut parts = Vec::new();
    let mut components = path.components();
    let mut at = 0;
    while let Some(component) = components.next() {
        let rest = components.as_path().to_str().unwrap();
        let next = if rest.is_empty() {
            text.len()
        } else {
            rest.as_ptr() as usize - text.as_ptr() as usize
        };
        let own = component.as_os_str().to_str().unwrap().as_bytes().to_vec();
        let gap = text.as_bytes()[at + own.len()..next].to_vec();
        let component = match component {
            std::path::Component::RootDir => Component::Root(own),
            std::path::Component::CurDir => Component::Current,
            std::path::Component::ParentDir => Component::Parent,
            _ => Component::Name(own),
        };
        parts.push(Part { component, gap });
        at = next;
    }
    TreePath { parts }
}

fn shown(path: &TreePath) -> String {
    display_path(path, Platform::Unix)
}

const ODD: [&str; 22] = [
    "", "/", "//", "/.", "/./", "a", "a/", "a//b", "a/./b", "/a/./b/", "./a", ".", "./", ".//.",
    "..//x/.", "/a/../b//", "a/./", "//a//b//", "/a/b", "/a/b/c", "//a/.//b/c/./", "/ab",
];

#[test]
fn paths_are_shown_as_they_are_written() {
    for text in ODD {
        let path = written(text);
        let expected = std::path::Path::new(text);
        assert_eq!(shown(&path), text);
        assert_eq!(
            path.parent().map(|parent| shown(&parent)),
            expected.parent().map(|parent| parent.to_str().unwrap().to_string()),
            "{text}"
        );
        let entry = expected.join("c").join("d");
        assert_eq!(shown(&path.join("c").join("d")), entry.to_str().unwrap());
        assert_eq!(
            shown(&path.join("c").parent().unwrap()),
            expected.join("c").parent().unwrap().to_str().unwrap(),
            "{text}"
        );
        for other in ODD {
            let base = std::path::Path::new(other);
            let root = written(other);
            assert_eq!(path.compare(&root), std_place(text, other), "{text} {other}");
            assert_eq!(path.starts_with(&root), expected.starts_with(base));
            let relative = match expected.strip_prefix(base) {
                Ok(rest) if !rest.as_os_str().is_empty() => rest,
                _ => expected,
            };
            assert_eq!(
                relative_display(&path, &root, Platform::Unix),
                relative.to_str().unwrap(),
                "{text} {other}"
            );
        }
    }
}

#[test]
fn ancestors_are_looked_for_as_they_are_written() {
    let mut nearest = Nearest::new(&written("/a//b/./c/"));
    assert_eq!(shown(&nearest.current()), "/a//b/./c/");
    for expected in ["/a//b", "/a", "/"] {
        assert!(matches!(
            canonicalize_nearest(&mut nearest, false),
            NearestStep::Look
        ));
        assert_eq!(shown(&nearest.current()), expected);
    }
    assert!(matches!(
        canonicalize_nearest(&mut nearest, false),
        NearestStep::Unresolved
    ));
    assert_eq!(shown(&nearest.path()), "/a//b/./c/");
    assert_eq!(shown(&nearest.restored(&written("/x"))), "/x/a/b/c");
}

#[test]
fn windows_paths_are_shown_as_they_are_written() {
    let windows = |path: &TreePath| display_path(path, Platform::Windows);
    let text = |text: &str| text.as_bytes().to_vec();
    let share = TreePath {
        parts: vec![
            prefix(
                r"\\server\share",
                Volume::Share(text("server"), text("share")),
            ),
            Part::plain(Component::Root(Vec::new())),
        ],
    };
    assert_eq!(windows(&share), r"\\server\share");
    assert_eq!(windows(&share.join("a").join("b")), r"\\server\share\a\b");

    let drive = TreePath {
        parts: vec![prefix("c:", Volume::Drive(b'c'))],
    };
    assert_eq!(windows(&drive.join("a").join("b")), r"c:a\b");

    let slashes = TreePath {
        parts: vec![
            prefix("C:", Volume::Drive(b'C')),
            Part {
                component: Component::Root(text("/")),
                gap: text("/"),
            },
            Part {
                component: Component::Name(text("a")),
                gap: text(r"/.\"),
            },
            Part {
                component: Component::Name(text("b")),
                gap: text("/."),
            },
        ],
    };
    assert_eq!(windows(&slashes), r"C://a/.\b/.");
    assert_eq!(windows(&slashes.join("c")), r"C://a/.\b/.\c");
    assert_eq!(windows(&slashes.parent().unwrap()), "C://a");
    let plain = on(prefix("c:", Volume::Drive(b'c')), &["a", "b"]);
    assert!(slashes.same(&plain));

    let literal = TreePath {
        parts: vec![
            prefix(r"\\?\C:", Volume::VerbatimDrive(b'C')),
            Part {
                component: Component::Root(text(r"\")),
                gap: text(r"\"),
            },
            Part {
                component: Component::Name(text("a")),
                gap: text(r"\\"),
            },
            part("b"),
        ],
    };
    assert_eq!(windows(&literal), r"C:\\a\\b");
    assert_eq!(windows(&literal.join("c")), r"C:\a\b\c");
    let bare = TreePath {
        parts: vec![prefix(r"\\?\C:", Volume::VerbatimDrive(b'C'))],
    };
    assert_eq!(windows(&bare.join("a")), r"C:\a");
}
