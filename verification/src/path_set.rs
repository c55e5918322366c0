//! A set of paths, kept in order.

use crate::path;
use crate::path::{PartView, Place, TreePath};
use vstd::prelude::*;

verus! {

/// A set of paths, each by what it is compared by.
#[derive(Debug)]
pub struct PathSet {
    items: Vec<TreePath>,
}

/// No path twice, and each before those that follow.
spec fn ascending(items: Seq<TreePath>) -> bool {
    forall|i: int, j: int|
        0 <= i < j < items.len() ==> path::path_place(
            (#[trigger] items[i])@,
            (#[trigger] items[j])@,
        ) == Place::Before
}

/// Whether a key is among those of the items.
spec fn holds(items: Seq<TreePath>, key: Seq<PartView>) -> bool {
    exists|i: int| 0 <= i < items.len() && path::key((#[trigger] items[i])@) == key
}

proof fn lemma_ascending(before: Seq<TreePath>, at: int, path: TreePath)
    requires
        0 <= at <= before.len(),
        ascending(before),
        forall|i: int|
            0 <= i < at ==> path::path_place((#[trigger] before[i])@, path@) == Place::Before,
        forall|i: int|
            at <= i < before.len() ==> path::path_place(path@, (#[trigger] before[i])@)
                == Place::Before,
    ensures
        ascending(before.insert(at, path)),
{
    let after = before.insert(at, path);
    assert forall|i: int, j: int| 0 <= i < j < after.len() implies path::path_place(
        (#[trigger] after[i])@,
        (#[trigger] after[j])@,
    ) == Place::Before by {
        let from = if i < at { i } else { i - 1 };
        let to = if j < at { j } else { j - 1 };
        if i != at && j != at {
            assert(after[i] == before[from]);
            assert(after[j] == before[to]);
        } else if i == at {
            assert(after[j] == before[to]);
        } else {
            assert(after[i] == before[from]);
        }
    }
}

proof fn lemma_holds(before: Seq<TreePath>, at: int, path: TreePath)
    requires
        0 <= at <= before.len(),
    ensures
        forall|key: Seq<PartView>| #[trigger]
            holds(before.insert(at, path), key) == (holds(before, key) || key == path::key(path@)),
{
    let after = before.insert(at, path);
    assert forall|key: Seq<PartView>| #[trigger]
        holds(after, key) == (holds(before, key) || key == path::key(path@)) by {
        if holds(before, key) {
            let i = choose|i: int|
                0 <= i < before.len() && path::key((#[trigger] before[i])@) == key;
            let to = if i < at { i } else { i + 1 };
            assert(after[to] == before[i]);
        }
        assert(after[at] == path);
        if holds(after, key) && key != path::key(path@) {
            let i = choose|i: int|
                0 <= i < after.len() && path::key((#[trigger] after[i])@) == key;
            let from = if i < at { i } else { i - 1 };
            assert(after[i] == before[from]);
        }
    }
}

impl View for PathSet {
    type V = Set<Seq<PartView>>;

    closed spec fn view(&self) -> Set<Seq<PartView>> {
        Set::new(|key: Seq<PartView>| holds(self.items@, key))
    }
}

impl PathSet {
    #[verifier::type_invariant]
    spec fn ordered(self) -> bool {
        ascending(self.items@)
    }

    /// No paths.
    pub fn new() -> (set: PathSet)
        ensures
            set@ == Set::<Seq<PartView>>::empty(),
    {
        let set = PathSet { items: Vec::new() };
        assert(set@ =~= Set::<Seq<PartView>>::empty());
        set
    }

    /// Adds a path, and says whether it is new.
    pub fn insert(&mut self, path: TreePath) -> (fresh: bool)
        ensures
            fresh == !old(self)@.contains(path::key(path@)),
            final(self)@ == old(self)@.insert(path::key(path@)),
    {
        proof {
            use_type_invariant(&*self);
        }
        let ghost before = self.items@;
        let ghost target = path@;
        let ghost wanted = path::key(path@);
        let at: usize = self.position(&path);
        proof {
            path::lemma_path_place_same(target, target);
        }
        if at < self.items.len() && self.items[at].same(&path) {
            assert(holds(before, wanted));
            assert(self@ =~= old(self)@.insert(wanted));
            return false;
        }
        assert forall|i: int| at <= i < before.len() implies path::path_place(
            target,
            (#[trigger] before[i])@,
        ) == Place::Before by {
            path::lemma_path_place_same(before[at as int]@, target);
            path::lemma_path_place_same(target, before[at as int]@);
            if i > at {
                path::lemma_path_place_transitive(target, before[at as int]@, before[i]@);
            }
        }
        assert(!holds(before, wanted)) by {
            if holds(before, wanted) {
                let i = choose|i: int|
                    0 <= i < before.len() && path::key((#[trigger] before[i])@) == wanted;
                path::lemma_path_place_same(before[i]@, target);
                path::lemma_path_place_same(target, before[i]@);
            }
        }
        let mut items: Vec<TreePath> = Vec::new();
        std::mem::swap(&mut items, &mut self.items);
        items.insert(at, path);
        proof {
            assert(items@ =~= before.insert(at as int, path));
            lemma_ascending(before, at as int, path);
            lemma_holds(before, at as int, path);
        }
        self.items = items;
        assert(self@ =~= old(self)@.insert(wanted));
        true
    }

    /// The number of items that stand before a path.
    fn position(&self, path: &TreePath) -> (at: usize)
        requires
            ascending(self.items@),
        ensures
            at <= self.items.len(),
            forall|i: int|
                0 <= i < at ==> path::path_place((#[trigger] self.items@[i])@, path@)
                    == Place::Before,
            at < self.items.len() ==> path::path_place(self.items@[at as int]@, path@)
                != Place::Before,
    {
        let mut low: usize = 0;
        let mut high: usize = self.items.len();
        while low < high
            invariant
                low <= high <= self.items.len(),
                ascending(self.items@),
                forall|i: int|
                    0 <= i < low ==> path::path_place((#[trigger] self.items@[i])@, path@)
                        == Place::Before,
                high < self.items.len() ==> path::path_place(self.items@[high as int]@, path@)
                    != Place::Before,
            decreases high - low,
        {
            let middle: usize = low + (high - low) / 2;
            if self.items[middle].compare(path) == Place::Before {
                assert forall|i: int| 0 <= i <= middle implies path::path_place(
                    (#[trigger] self.items@[i])@,
                    path@,
                ) == Place::Before by {
                    if i < middle {
                        path::lemma_path_place_transitive(
                            self.items@[i]@,
                            self.items@[middle as int]@,
                            path@,
                        );
                    }
                }
                low = middle + 1;
            } else {
                high = middle;
            }
        }
        low
    }
}

} // verus!
