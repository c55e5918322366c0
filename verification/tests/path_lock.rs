use rclean::path::{Part, Platform, TreePath};
use rclean::path_lock::{paths_overlap, PathLocks};

fn path(text: &str) -> TreePath {
    let mut parts = vec![Part::root(Platform::Unix)];
    for name in text.split('/').filter(|name| !name.is_empty()) {
        parts.push(Part::name(name.as_bytes().to_vec()));
    }
    TreePath { parts }
}

#[test]
fn nested_paths_overlap_but_siblings_do_not() {
    assert!(paths_overlap(&path("/a/b"), &path("/a")));
    assert!(paths_overlap(&path("/a"), &path("/a/b")));
    assert!(!paths_overlap(&path("/a/b"), &path("/a/c")));
}

#[test]
fn guard_release_allows_a_later_acquire() {
    let mut locks = PathLocks::default();
    let guard = locks.acquire(&path("/a")).unwrap();
    assert!(locks.is_contended(&path("/a/b")));
    locks.release(guard);
    assert!(!locks.is_contended(&path("/a/b")));
}

#[test]
fn overlapping_paths_have_to_wait() {
    let mut locks = PathLocks::default();
    let inner = locks.acquire(&path("/a/b")).unwrap();
    let other = locks.acquire(&path("/a/bc")).unwrap();
    assert!(locks.acquire(&path("/a")).is_none());
    assert!(locks.acquire(&path("/a/b")).is_none());
    assert!(locks.acquire(&path("/a/b/c")).is_none());
    locks.release(inner);
    assert!(locks.acquire(&path("/a")).is_none(), "the other one is left");
    locks.release(other);
    let outer = locks.acquire(&path("/a")).unwrap();
    assert!(locks.is_contended(&path("/a/bc")));
    assert!(!locks.is_contended(&path("/b")));
    locks.release(outer);
    assert!(!locks.is_contended(&path("/a")));
}
