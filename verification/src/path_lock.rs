//! Serializes actions whose paths nest inside one another, so that two
//! workers never delete the same subtree at once.

use crate::path;
use crate::path::{PartView, TreePath};
use vstd::prelude::*;

verus! {

/// Whether one of two paths begins with the other.
pub fn paths_overlap(left: &TreePath, right: &TreePath) -> (overlapping: bool)
    ensures
        overlapping == path::overlap(left@, right@),
{
    left.starts_with(right) || right.starts_with(left)
}

/// The paths that are being worked on.
pub struct PathLocks {
    active: Vec<TreePath>,
}

/// The right to work on a path, until it is given back.
pub struct PathLockGuard {
    path: TreePath,
}

impl View for PathLocks {
    type V = Seq<Seq<PartView>>;

    closed spec fn view(&self) -> Seq<Seq<PartView>> {
        self.active@.map_values(|path: TreePath| path@)
    }
}

impl View for PathLockGuard {
    type V = Seq<PartView>;

    closed spec fn view(&self) -> Seq<PartView> {
        self.path@
    }
}

/// Whether a path overlaps one that is being worked on.
pub open spec fn contended(active: Seq<Seq<PartView>>, path: Seq<PartView>) -> bool {
    exists|i: int| 0 <= i < active.len() && path::overlap(path, #[trigger] active[i])
}

/// No two of the paths overlap.
pub open spec fn exclusive(active: Seq<Seq<PartView>>) -> bool {
    forall|i: int, j: int|
        0 <= i < j < active.len() ==> !path::overlap(#[trigger] active[i], #[trigger] active[j])
}

/// Tells the paths apart that are not the one given.
pub open spec fn other_than(path: Seq<PartView>) -> spec_fn(Seq<PartView>) -> bool {
    |other: Seq<PartView>| !path::alike(other, path)
}

/// The paths other than one that is given back.
pub open spec fn without(active: Seq<Seq<PartView>>, path: Seq<PartView>) -> Seq<Seq<PartView>> {
    active.filter(other_than(path))
}

impl Default for PathLocks {
    fn default() -> (locks: PathLocks)
        ensures
            locks@ == Seq::<Seq<PartView>>::empty(),
    {
        let locks = PathLocks { active: Vec::new() };
        assert(locks@ =~= Seq::<Seq<PartView>>::empty());
        locks
    }
}

impl PathLocks {
    /// Whether a path overlaps one that is being worked on.
    pub fn is_contended(&self, path: &TreePath) -> (waits: bool)
        ensures
            waits == contended(self@, path@),
    {
        let mut index: usize = 0;
        while index < self.active.len()
            invariant
                index <= self.active.len(),
                forall|i: int| 0 <= i < index ==> !path::overlap(path@, #[trigger] self@[i]),
            decreases self.active.len() - index,
        {
            if paths_overlap(path, &self.active[index]) {
                assert(path::overlap(path@, self@[index as int]));
                return true;
            }
            index = index + 1;
        }
        false
    }

    /// Takes a path to work on, if it overlaps none that is being worked on.
    /// Otherwise nothing changes, and the caller tries again once a path has
    /// been given back.
    pub fn acquire(&mut self, path: &TreePath) -> (guard: Option<PathLockGuard>)
        ensures
            guard is None <==> contended(old(self)@, path@),
            match guard {
                Some(guard) => guard@ == path@ && final(self)@ == old(self)@.push(path@),
                None => final(self)@ == old(self)@,
            },
    {
        if self.is_contended(path) {
            return None;
        }
        self.active.push(path.copy());
        assert(self@ =~= old(self)@.push(path@));
        Some(PathLockGuard { path: path.copy() })
    }

    /// Gives a path back.
    pub fn release(&mut self, guard: PathLockGuard)
        ensures
            final(self)@ == without(old(self)@, guard@),
    {
        let ghost before = self@;
        let ghost keeps = other_than(guard@);
        let mut kept: Vec<TreePath> = Vec::new();
        let mut index: usize = 0;
        assert(before.take(0) =~= Seq::empty());
        assert(before.take(0).filter(keeps) =~= Seq::empty()) by {
            reveal(Seq::filter);
        }
        assert(kept@.map_values(|path: TreePath| path@) =~= Seq::<Seq<PartView>>::empty());
        while index < self.active.len()
            invariant
                index <= self.active.len(),
                self@ == before,
                keeps == other_than(guard@),
                kept@.map_values(|path: TreePath| path@) == before.take(index as int).filter(keeps),
            decreases self.active.len() - index,
        {
            let ghost kept_before = kept@;
            proof {
                reveal(Seq::filter);
                assert(before.take(index + 1).drop_last() =~= before.take(index as int));
                assert(before.take(index + 1).last() == self.active@[index as int]@);
            }
            if !self.active[index].same(&guard.path) {
                kept.push(self.active[index].copy());
                assert(kept@.map_values(|path: TreePath| path@) =~= kept_before.map_values(
                    |path: TreePath| path@,
                ).push(self.active@[index as int]@));
            }
            index = index + 1;
        }
        assert(before.take(before.len() as int) =~= before);
        self.active = kept;
    }
}

/// Taking a path keeps the paths that are being worked on apart.
pub proof fn law_acquiring_keeps_paths_apart(active: Seq<Seq<PartView>>, path: Seq<PartView>)
    requires
        exclusive(active),
        !contended(active, path),
    ensures
        exclusive(active.push(path)),
{
}

/// Giving a path back keeps the others apart.
pub proof fn law_releasing_keeps_paths_apart(active: Seq<Seq<PartView>>, path: Seq<PartView>)
    requires
        exclusive(active),
    ensures
        exclusive(without(active, path)),
    decreases active.len(),
{
    reveal(Seq::filter);
    if active.len() > 0 {
        let less = active.drop_last();
        law_releasing_keeps_paths_apart(less, path);
        let kept = without(less, path);
        assert forall|i: int| 0 <= i < kept.len() implies less.contains(#[trigger] kept[i]) by {
            assert(kept.contains(kept[i]));
            less.lemma_filter_contains_rev(other_than(path), kept[i]);
        }
        assert forall|i: int, j: int| 0 <= i < j < without(active, path).len() implies !path::overlap(
            #[trigger] without(active, path)[i],
            #[trigger] without(active, path)[j],
        ) by {
            if j == kept.len() {
                let k = choose|k: int| 0 <= k < less.len() && kept[i] == less[k];
                assert(active[k] == less[k]);
            } else {
                assert(without(active, path)[i] == kept[i]);
                assert(without(active, path)[j] == kept[j]);
            }
        }
    }
}

/// A path that is taken and given back leaves the others as they were: what
/// waited for it alone waits no more.
pub proof fn law_release_undoes_acquire(active: Seq<Seq<PartView>>, path: Seq<PartView>)
    requires
        !contended(active, path),
    ensures
        without(active.push(path), path) == active,
{
    reveal(Seq::filter);
    assert(active.push(path).drop_last() =~= active);
    assert forall|i: int| 0 <= i < active.len() implies !path::alike(
        active[i],
        path,
    ) by {
        if path::alike(active[i], path) {
            path::lemma_begins_with_alike(path, active[i]);
            assert(path::overlap(path, active[i]));
        }
    }
    lemma_without_absent(active, path);
}

proof fn lemma_without_absent(active: Seq<Seq<PartView>>, path: Seq<PartView>)
    requires
        forall|i: int| 0 <= i < active.len() ==> !path::alike(active[i], path),
    ensures
        without(active, path) == active,
    decreases active.len(),
{
    reveal(Seq::filter);
    if active.len() > 0 {
        lemma_without_absent(active.drop_last(), path);
        assert(active =~= active.drop_last().push(active.last()));
    } else {
        assert(active =~= Seq::empty());
    }
}

} // verus!
