//! Directory trees at rest: what walking and deleting them should come to is
//! stated against these.

use crate::discover::EntryKind;
use crate::path;
use crate::path::{ComponentView, PartView};
use vstd::prelude::*;

verus! {

/// An entry of a directory, with all that is below it.
pub enum DiskNode {
    Directory { name: Seq<u8>, children: Seq<DiskNode> },
    File { name: Seq<u8>, size: u64 },
    /// A link, and whether it leads to a file in the end.
    Link { name: Seq<u8>, to_file: bool },
}

impl DiskNode {
    /// Its name.
    pub open spec fn name(self) -> Seq<u8> {
        match self {
            DiskNode::Directory { name, children } => name,
            DiskNode::File { name, size } => name,
            DiskNode::Link { name, to_file } => name,
        }
    }

    /// What kind of thing it is.
    pub open spec fn kind(self) -> EntryKind {
        match self {
            DiskNode::Directory { name, children } => EntryKind::Directory,
            DiskNode::File { name, size } => EntryKind::Other,
            DiskNode::Link { name, to_file } => EntryKind::Symlink,
        }
    }

    /// Where it is, in a directory.
    pub open spec fn place(self, directory: Seq<PartView>) -> Seq<PartView> {
        path::child(directory, self.name())
    }
}

/// Whether an entry is a file, or a link that leads to one.
pub open spec fn is_file(node: DiskNode) -> bool {
    match node {
        DiskNode::Directory { name, children } => false,
        DiskNode::File { name, size } => true,
        DiskNode::Link { name, to_file } => to_file,
    }
}

/// Whether no directory has two entries of one name, here and below.
pub open spec fn well_named(nodes: Seq<DiskNode>) -> bool
    decreases nodes,
{
    if nodes.len() == 0 {
        true
    } else {
        &&& well_named(nodes.drop_last())
        &&& forall|i: int|
            0 <= i < nodes.len() - 1 ==> (#[trigger] nodes[i]).name() != nodes.last().name()
        &&& match nodes.last() {
            DiskNode::Directory { name, children } => well_named(children),
            _ => true,
        }
    }
}

/// What lies below one entry of a directory does not lie below another.
pub proof fn lemma_apart(
    directory: Seq<PartView>,
    left: Seq<u8>,
    right: Seq<u8>,
    path: Seq<PartView>,
)
    requires
        left != right,
        path::begins_with(path, path::child(directory, left)),
    ensures
        !path::begins_with(path, path::child(directory, right)),
{
    if path::begins_with(path, path::child(directory, right)) {
        let at = directory.len() as int;
        path::lemma_begins_with(path, path::child(directory, left));
        path::lemma_key_pushed(directory, ComponentView::Name(left));
        path::lemma_key_pushed(directory, ComponentView::Name(right));
        assert(path::key(path::child(directory, left))[at] == path::part_key(
            path::child(directory, left)[at],
        ));
        assert(path::key(path::child(directory, right))[at] == path::part_key(
            path::child(directory, right)[at],
        ));
        path::lemma_begins_with(path, path::child(directory, right));
        assert(path::part_key(path::child(directory, left)[at]) == path::part_key(path[at]));
        assert(path::part_key(path::child(directory, right)[at]) == path::part_key(path[at]));
    }
}

/// Beginning with a path goes through.
pub proof fn lemma_begins_with_all(
    path: Seq<PartView>,
    middle: Seq<PartView>,
    base: Seq<PartView>,
)
    requires
        path::begins_with(path, middle),
        path::begins_with(middle, base),
    ensures
        path::begins_with(path, base),
{
    assert(path::key(base) =~= path::key(path).subrange(0, base.len() as int));
}

/// An entry lies strictly below its directory and all that this is below of.
pub proof fn lemma_child_beneath(directory: Seq<PartView>, name: Seq<u8>, base: Seq<PartView>)
    requires
        path::begins_with(directory, base),
    ensures
        path::beneath(path::child(directory, name), base),
        path::begins_with(path::child(directory, name), directory),
{
    let child = path::child(directory, name);
    path::lemma_key_pushed(directory, ComponentView::Name(name));
    assert(path::key(directory) =~= path::key(child).subrange(0, directory.len() as int));
    lemma_begins_with_all(child, directory, base);
    path::lemma_begins_with(directory, base);
    assert(path::key(child).len() > path::key(base).len());
}

/// What is strictly below a path is longer.
pub proof fn lemma_beneath_longer(path: Seq<PartView>, base: Seq<PartView>)
    requires
        path::beneath(path, base),
    ensures
        path.len() > base.len(),
        !path::begins_with(base, path),
{
    path::lemma_begins_with(path, base);
    path::lemma_begins_with(base, path);
    if path.len() == base.len() {
        assert(path::key(path) =~= path::key(base));
    }
}

/// The sizes of all files, here and below.
pub open spec fn total_size(nodes: Seq<DiskNode>) -> nat
    decreases nodes,
{
    if nodes.len() == 0 {
        0
    } else {
        total_size(nodes.drop_last()) + match nodes.last() {
            DiskNode::Directory { name, children } => total_size(children),
            DiskNode::File { name, size } => size as nat,
            DiskNode::Link { name, to_file } => 0,
        }
    }
}

/// How many files and links there are, here and below.
pub open spec fn file_count(nodes: Seq<DiskNode>) -> nat
    decreases nodes,
{
    if nodes.len() == 0 {
        0
    } else {
        file_count(nodes.drop_last()) + match nodes.last() {
            DiskNode::Directory { name, children } => file_count(children),
            _ => 1,
        }
    }
}

/// How many entries there are, here and below.
pub open spec fn entry_count(nodes: Seq<DiskNode>) -> nat
    decreases nodes,
{
    if nodes.len() == 0 {
        0
    } else {
        entry_count(nodes.drop_last()) + match nodes.last() {
            DiskNode::Directory { name, children } => 1 + entry_count(children),
            _ => 1,
        }
    }
}

} // verus!
