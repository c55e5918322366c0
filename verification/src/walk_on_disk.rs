//! What a walk of a directory tree comes to.

use crate::action;
use crate::action::{ActionKind, ActionView};
use crate::discover;
use crate::discover::{FrameView, PhaseView, Verdict, WalkReplyView, WalkView};
use crate::disk;
use crate::disk::DiskNode;
use crate::path;
use crate::path::{PartView, Platform};
use crate::text;
use vstd::prelude::*;

verus! {

/// A walk after a number of answers.
pub open spec fn answered(walk: WalkView, replies: Seq<WalkReplyView>) -> WalkView
    decreases replies.len(),
{
    if replies.len() == 0 {
        walk
    } else {
        answered(walk, replies.drop_last()).after(replies.last())
    }
}

/// Whether each answer is one to what the walk asks for at its time.
pub open spec fn apt(walk: WalkView, replies: Seq<WalkReplyView>) -> bool
    decreases replies.len(),
{
    if replies.len() == 0 {
        true
    } else {
        &&& apt(walk, replies.drop_last())
        &&& answered(walk, replies.drop_last()).awaits(replies.last())
    }
}

proof fn lemma_answered_in_turn(
    walk: WalkView,
    first: Seq<WalkReplyView>,
    second: Seq<WalkReplyView>,
)
    ensures
        answered(walk, first + second) == answered(answered(walk, first), second),
        apt(walk, first + second) == (apt(walk, first) && apt(answered(walk, first), second)),
    decreases second.len(),
{
    if second.len() == 0 {
        assert(first + second =~= first);
    } else {
        lemma_answered_in_turn(walk, first, second.drop_last());
        assert((first + second).drop_last() =~= first + second.drop_last());
        assert((first + second).last() == second.last());
    }
}

proof fn lemma_answered_once(walk: WalkView, reply: WalkReplyView)
    ensures
        answered(walk, seq![reply]) == walk.after(reply),
        apt(walk, seq![reply]) == walk.awaits(reply),
{
    let replies = seq![reply];
    assert(replies.drop_last() =~= Seq::<WalkReplyView>::empty());
    assert(replies.last() == reply);
    assert(answered(walk, replies.drop_last()) == walk);
    assert(apt(walk, replies.drop_last()));
}

/// A file system to walk on: what fails there, what it says of that, and how
/// its paths are written.
pub struct Ground {
    /// The entries that cannot be read from their directories.
    pub unread: Set<Seq<PartView>>,
    /// The entries that cannot be inspected.
    pub blurred: Set<Seq<PartView>>,
    /// The directories that cannot be made canonical.
    pub lost: Set<Seq<PartView>>,
    /// The directories that cannot be opened.
    pub closed: Set<Seq<PartView>>,
    pub denial: Seq<char>,
    pub platform: Platform,
}

impl Ground {
    /// A complaint about a path.
    pub open spec fn complaint(self, what: Seq<char>, path: Seq<PartView>) -> Seq<char> {
        what + crate::format::display_text(path, self.platform) + ": "@ + self.denial
    }

    /// Whether nothing fails.
    pub open spec fn is_flawless(self) -> bool {
        &&& forall|path: Seq<PartView>| !#[trigger] self.unread.contains(path)
        &&& forall|path: Seq<PartView>| !#[trigger] self.blurred.contains(path)
        &&& forall|path: Seq<PartView>| !#[trigger] self.lost.contains(path)
        &&& forall|path: Seq<PartView>| !#[trigger] self.closed.contains(path)
    }

    /// Whether the listing of a directory tells what an entry is.
    pub open spec fn lists(self, path: Seq<PartView>) -> bool {
        !self.unread.contains(path) && !self.blurred.contains(path)
    }

    /// Whether a walk comes to a directory.
    pub open spec fn reaches(self, path: Seq<PartView>) -> bool {
        self.lists(path) && !self.lost.contains(path)
    }
}

/// Whether a directory is a package, as far as can be seen.
pub open spec fn has_manifest(
    nodes: Seq<DiskNode>,
    directory: Seq<PartView>,
    ground: Ground,
) -> bool {
    exists|i: int|
        0 <= i < nodes.len() && disk::is_file(#[trigger] nodes[i]) && nodes[i].name()
            == vstd::utf8::encode_utf8(discover::manifest_name()) && !ground.blurred.contains(
            nodes[i].place(directory),
        )
}

/// Whether a directory has a debug directory, as far as can be seen.
pub open spec fn has_debug(
    nodes: Seq<DiskNode>,
    directory: Seq<PartView>,
    ground: Ground,
) -> bool {
    exists|i: int|
        0 <= i < nodes.len() && (#[trigger] nodes[i]) is Directory && nodes[i].name()
            == vstd::utf8::encode_utf8("debug"@) && !ground.blurred.contains(
            nodes[i].place(directory),
        )
}

/// What an entry of a directory calls for: one action where its name does, one
/// for the outermost package, one for the debug directory of a target without
/// a package, and what is in it, unless its name says not to look. What fails
/// calls for nothing.
pub open spec fn called_for_by(
    node: DiskNode,
    directory: Seq<PartView>,
    inside_cargo: bool,
    ground: Ground,
) -> Seq<ActionView>
    decreases node,
{
    let path = node.place(directory);
    match node {
        DiskNode::Directory { name, children } => if !ground.reaches(path) {
            Seq::empty()
        } else {
            match discover::verdict(text::lossy_text(name), inside_cargo) {
                Verdict::Reclaim(kind) => seq![ActionView { kind, path }],
                Verdict::Ignore => Seq::empty(),
                Verdict::Orphan => {
                    let debug = path::entry(path, "debug"@);
                    if has_debug(children, path, ground) && !ground.lost.contains(debug) {
                        seq![ActionView { kind: ActionKind::Debug, path: debug }]
                    } else {
                        Seq::empty()
                    }
                },
                Verdict::Enter => {
                    let present = has_manifest(children, path, ground);
                    package(path, present && !inside_cargo) + if ground.closed.contains(path) {
                        Seq::empty()
                    } else {
                        called_for(children, path, inside_cargo || present, ground)
                    }
                },
            }
        },
        _ => Seq::empty(),
    }
}

/// What is said of an entry of a directory when it is walked: one line for each
/// failure.
pub open spec fn said_of(
    node: DiskNode,
    directory: Seq<PartView>,
    inside_cargo: bool,
    ground: Ground,
) -> Seq<Seq<char>>
    decreases node,
{
    let path = node.place(directory);
    if ground.unread.contains(path) {
        seq![ground.complaint("cannot read an entry in "@, directory)]
    } else if ground.blurred.contains(path) {
        seq![ground.complaint("cannot inspect "@, path)]
    } else {
        match node {
            DiskNode::Directory { name, children } => if ground.lost.contains(path) {
                seq![ground.complaint("cannot canonicalize "@, path)]
            } else {
                match discover::verdict(text::lossy_text(name), inside_cargo) {
                    Verdict::Orphan => {
                        let debug = path::entry(path, "debug"@);
                        if has_debug(children, path, ground) && ground.lost.contains(debug) {
                            seq![ground.complaint("cannot canonicalize "@, debug)]
                        } else {
                            Seq::empty()
                        }
                    },
                    Verdict::Enter => if ground.closed.contains(path) {
                        seq![ground.complaint("cannot read "@, path)]
                    } else {
                        said_in(
                            children,
                            path,
                            inside_cargo || has_manifest(children, path, ground),
                            ground,
                        )
                    },
                    _ => Seq::empty(),
                }
            },
            _ => Seq::empty(),
        }
    }
}

/// What is said of the entries of a directory when they are walked.
pub open spec fn said_in(
    nodes: Seq<DiskNode>,
    directory: Seq<PartView>,
    inside_cargo: bool,
    ground: Ground,
) -> Seq<Seq<char>>
    decreases nodes,
{
    if nodes.len() == 0 {
        Seq::empty()
    } else {
        said_in(nodes.drop_last(), directory, inside_cargo, ground) + said_of(
            nodes.last(),
            directory,
            inside_cargo,
            ground,
        )
    }
}

/// The action for a package, if there is one.
pub open spec fn package(path: Seq<PartView>, present: bool) -> Seq<ActionView> {
    if present {
        seq![ActionView { kind: ActionKind::Cargo, path }]
    } else {
        Seq::empty()
    }
}

/// What the entries of a directory call for.
pub open spec fn called_for(
    nodes: Seq<DiskNode>,
    directory: Seq<PartView>,
    inside_cargo: bool,
    ground: Ground,
) -> Seq<ActionView>
    decreases nodes,
{
    if nodes.len() == 0 {
        Seq::empty()
    } else {
        called_for(nodes.drop_last(), directory, inside_cargo, ground) + called_for_by(
            nodes.last(),
            directory,
            inside_cargo,
            ground,
        )
    }
}

/// How an entry appears in the listing of its directory.
pub open spec fn listed_as(
    node: DiskNode,
    directory: Seq<PartView>,
    ground: Ground,
) -> WalkReplyView {
    if ground.unread.contains(node.place(directory)) {
        WalkReplyView::EntryFailed(ground.denial)
    } else if ground.blurred.contains(node.place(directory)) {
        WalkReplyView::EntryUnknown { name: node.name(), error: ground.denial }
    } else {
        WalkReplyView::Entry { name: node.name(), kind: node.kind() }
    }
}

/// What comes of making a directory canonical: here it is so already.
pub open spec fn canonical_of(path: Seq<PartView>, ground: Ground) -> WalkReplyView {
    if ground.lost.contains(path) {
        WalkReplyView::CanonicalFailed(ground.denial)
    } else {
        WalkReplyView::Canonical(path)
    }
}

/// What the file system answers about an entry of a directory.
pub open spec fn answers_about(
    node: DiskNode,
    directory: Seq<PartView>,
    inside_cargo: bool,
    ground: Ground,
) -> Seq<WalkReplyView>
    decreases node,
{
    let path = node.place(directory);
    let listed = seq![listed_as(node, directory, ground)];
    match node {
        DiskNode::Directory { name, children } => if !ground.lists(path) {
            listed
        } else {
            let resolved = listed + seq![canonical_of(path, ground)];
            if ground.lost.contains(path) {
                resolved
            } else {
                match discover::verdict(text::lossy_text(name), inside_cargo) {
                    Verdict::Orphan => if has_debug(children, path, ground) {
                        resolved + seq![WalkReplyView::Found(true)] + seq![
                            canonical_of(path::entry(path, "debug"@), ground),
                        ]
                    } else {
                        resolved + seq![WalkReplyView::Found(false)]
                    },
                    Verdict::Enter => {
                        let present = has_manifest(children, path, ground);
                        let checked = resolved + seq![WalkReplyView::Found(present)];
                        if ground.closed.contains(path) {
                            checked + seq![WalkReplyView::OpenFailed(ground.denial)]
                        } else {
                            checked + seq![WalkReplyView::Opened] + answers_in(
                                children,
                                path,
                                inside_cargo || present,
                                ground,
                            ) + seq![WalkReplyView::NoMoreEntries]
                        }
                    },
                    _ => resolved,
                }
            }
        },
        _ => listed,
    }
}

/// What the file system answers about the entries of a directory.
pub open spec fn answers_in(
    nodes: Seq<DiskNode>,
    directory: Seq<PartView>,
    inside_cargo: bool,
    ground: Ground,
) -> Seq<WalkReplyView>
    decreases nodes,
{
    if nodes.len() == 0 {
        Seq::empty()
    } else {
        answers_in(nodes.drop_last(), directory, inside_cargo, ground) + answers_about(
            nodes.last(),
            directory,
            inside_cargo,
            ground,
        )
    }
}

/// Whether a walk has seen nothing at a path or below it.
spec fn fresh(walk: WalkView, path: Seq<PartView>) -> bool {
    &&& forall|seen: Seq<PartView>| #[trigger]
        walk.visited.contains(seen) ==> !path::begins_with(seen, path)
    &&& forall|i: int|
        0 <= i < walk.actions.len() ==> !path::begins_with(
            (#[trigger] walk.actions[i]).path,
            path,
        )
}

/// Whether a walk lists a directory.
spec fn lists(
    walk: WalkView,
    directory: Seq<PartView>,
    inside_cargo: bool,
    ground: Ground,
) -> bool {
    &&& walk.platform == ground.platform
    &&& walk.phase is Listing
    &&& walk.frames.len() > 0
    &&& walk.innermost() == (FrameView { directory, inside_cargo })
    &&& path::begins_with(directory, walk.root)
}

/// Whether a walk went on from another one, found some actions, said some
/// lines, and saw nothing new but below a path.
spec fn went_on(
    before: WalkView,
    after: WalkView,
    found: Seq<ActionView>,
    said: Seq<Seq<char>>,
    path: Seq<PartView>,
) -> bool {
    &&& after == (WalkView {
        actions: before.actions + found,
        errors: before.errors + said,
        visited: after.visited,
        ..before
    })
    &&& forall|seen: Seq<PartView>| #[trigger]
        after.visited.contains(seen) ==> before.visited.contains(seen) || path::begins_with(
            seen,
            path,
        )
}

/// Whether all actions are at a path or below it.
spec fn all_below(found: Seq<ActionView>, path: Seq<PartView>) -> bool {
    forall|i: int|
        0 <= i < found.len() ==> path::begins_with((#[trigger] found[i]).path, path)
}

proof fn lemma_called_for_below(
    node: DiskNode,
    directory: Seq<PartView>,
    inside_cargo: bool,
    ground: Ground,
)
    ensures
        all_below(called_for_by(node, directory, inside_cargo, ground), node.place(directory)),
    decreases node, 1int,
{
    let path = node.place(directory);
    assert(path::begins_with(path, path)) by {
        path::lemma_begins_with_alike(path, path);
    }
    match node {
        DiskNode::Directory { name, children } => {
            disk::lemma_child_beneath(path, vstd::utf8::encode_utf8("debug"@), path);
            lemma_called_for_in_below(
                children,
                path,
                inside_cargo || has_manifest(children, path, ground),
                ground,
            );
        },
        _ => {},
    }
}

proof fn lemma_called_for_in_below(
    nodes: Seq<DiskNode>,
    directory: Seq<PartView>,
    inside_cargo: bool,
    ground: Ground,
)
    ensures
        all_below(called_for(nodes, directory, inside_cargo, ground), directory),
    decreases nodes, 0int,
{
    if nodes.len() > 0 {
        lemma_called_for_in_below(nodes.drop_last(), directory, inside_cargo, ground);
        lemma_called_for_below(nodes.last(), directory, inside_cargo, ground);
        let found = called_for_by(nodes.last(), directory, inside_cargo, ground);
        assert(path::begins_with(directory, directory)) by {
            path::lemma_begins_with_alike(directory, directory);
        }
        disk::lemma_child_beneath(directory, nodes.last().name(), directory);
        assert forall|i: int| 0 <= i < found.len() implies path::begins_with(
            (#[trigger] found[i]).path,
            directory,
        ) by {
            disk::lemma_begins_with_all(found[i].path, nodes.last().place(directory), directory);
        }
    }
}

proof fn lemma_fresh_action(walk: WalkView, kind: ActionKind, path: Seq<PartView>)
    requires
        fresh(walk, path),
    ensures
        walk.with_action(kind, path).actions == walk.actions + seq![ActionView { kind, path }],
{
    let action = ActionView { kind, path };
    assert(path::begins_with(path, path)) by {
        path::lemma_begins_with_alike(path, path);
    }
    assert forall|i: int| 0 <= i < walk.actions.len() implies !action::same_action(
        #[trigger] walk.actions[i],
        action,
    ) by {
        if path::alike(walk.actions[i].path, path) {
            path::lemma_begins_with_alike(walk.actions[i].path, path);
        }
    }
    assert(walk.actions.push(action) =~= walk.actions + seq![action]);
}

#[verifier::rlimit(30)]
proof fn lemma_entry(
    walk: WalkView,
    node: DiskNode,
    directory: Seq<PartView>,
    inside_cargo: bool,
    ground: Ground,
)
    requires
        lists(walk, directory, inside_cargo, ground),
        fresh(walk, node.place(directory)),
        disk::well_named(seq![node]),
    ensures
        went_on(
            walk,
            answered(walk, answers_about(node, directory, inside_cargo, ground)),
            called_for_by(node, directory, inside_cargo, ground),
            said_of(node, directory, inside_cargo, ground),
            node.place(directory),
        ),
        apt(walk, answers_about(node, directory, inside_cargo, ground)),
    decreases node, 1int,
{
    let path = node.place(directory);
    let listed = seq![listed_as(node, directory, ground)];
    let found = called_for_by(node, directory, inside_cargo, ground);
    let said = said_of(node, directory, inside_cargo, ground);
    lemma_answered_once(walk, listed[0]);
    match node {
        DiskNode::Directory { name, children } if ground.lists(path) => {
            assert(disk::well_named(children)) by {
                assert(seq![node].last() == node);
            }
            let asked = walk.after(listed[0]);
            let canonical = canonical_of(path, ground);
            lemma_answered_once(asked, canonical);
            lemma_answered_in_turn(walk, listed, seq![canonical]);
            let seen = asked.after(canonical);
            if ground.lost.contains(path) {
                lemma_nothing_found(walk, seen, found, said, path);
            } else {
                lemma_resolved(walk, node, directory, inside_cargo, ground);
                match discover::verdict(text::lossy_text(name), inside_cargo) {
                    Verdict::Reclaim(kind) => {
                        lemma_fresh_action(walk, kind, path);
                        path::lemma_begins_with_alike(path, path);
                        path::lemma_key_begins_with(path, path);
                        assert(walk.errors + said =~= walk.errors);
                        assert(seen.actions == walk.actions + found);
                        assert(seen =~= WalkView {
                            actions: walk.actions + found,
                            errors: walk.errors + said,
                            visited: seen.visited,
                            ..walk
                        });
                    },
                    Verdict::Ignore => {
                        path::lemma_begins_with_alike(path, path);
                        path::lemma_key_begins_with(path, path);
                        assert(walk.errors + said =~= walk.errors);
                        assert(walk.actions + found =~= walk.actions);
                        assert(seen =~= WalkView { visited: seen.visited, ..walk });
                    },
                    Verdict::Orphan => {
                        lemma_orphan(walk, seen, node, directory, inside_cargo, ground);
                    },
                    Verdict::Enter => if ground.closed.contains(path) {
                        lemma_turned_away(walk, seen, node, directory, inside_cargo, ground);
                    } else {
                        lemma_package(walk, seen, node, directory, inside_cargo, ground);
                        let present = has_manifest(children, path, ground);
                        let at = seen.after(WalkReplyView::Found(present)).after(
                            WalkReplyView::Opened,
                        );
                        lemma_entries(at, children, path, inside_cargo || present, ground);
                        lemma_there_and_back(walk, seen, node, directory, inside_cargo, ground);
                    },
                }
            }
        },
        _ => {
            lemma_nothing_found(walk, walk.after(listed[0]), found, said, path);
        },
    }
}

/// An entry that comes to nothing, but for what may be said of it.
proof fn lemma_nothing_found(
    walk: WalkView,
    after: WalkView,
    found: Seq<ActionView>,
    said: Seq<Seq<char>>,
    path: Seq<PartView>,
)
    requires
        found.len() == 0,
        after == (WalkView { errors: after.errors, ..walk }),
        after.errors =~= walk.errors + said,
    ensures
        went_on(walk, after, found, said, path),
{
    assert(walk.actions + found =~= walk.actions);
}

/// A directory that the walk comes to.
proof fn lemma_resolved(
    walk: WalkView,
    node: DiskNode,
    directory: Seq<PartView>,
    inside_cargo: bool,
    ground: Ground,
)
    requires
        lists(walk, directory, inside_cargo, ground),
        fresh(walk, node.place(directory)),
        node is Directory,
    ensures
        ({
            let path = node.place(directory);
            let asked = walk.after(WalkReplyView::Entry { name: node.name(), kind: node.kind() });
            let seen = asked.after(WalkReplyView::Canonical(path));
            let marked = WalkView { visited: walk.visited.insert(path::key(path)), ..walk };
            &&& asked.awaits(WalkReplyView::Canonical(path))
            &&& seen == match discover::verdict(text::lossy_text(node.name()), inside_cargo) {
                Verdict::Reclaim(kind) => marked.with_action(kind, path),
                Verdict::Ignore => marked,
                Verdict::Orphan => marked.waiting(
                    PhaseView::Probing { debug: path::entry(path, "debug"@) },
                ),
                Verdict::Enter => marked.waiting(PhaseView::Checking { directory: path }),
            }
        }),
{
    let path = node.place(directory);
    let asked = walk.after(WalkReplyView::Entry { name: node.name(), kind: node.kind() });
    let seen = asked.after(WalkReplyView::Canonical(path));
    let marked = WalkView { visited: walk.visited.insert(path::key(path)), ..walk };
    disk::lemma_child_beneath(directory, node.name(), walk.root);
    path::lemma_begins_with_alike(path, path);
    path::lemma_key_begins_with(path, path);
    assert(!walk.visited.contains(path::key(path)));
    match discover::verdict(text::lossy_text(node.name()), inside_cargo) {
        Verdict::Reclaim(kind) => {
            assert(seen =~= marked.with_action(kind, path));
        },
        Verdict::Ignore => {
            assert(seen =~= marked);
        },
        _ => {},
    }
}

/// A directory that cannot be opened.
proof fn lemma_turned_away(
    walk: WalkView,
    seen: WalkView,
    node: DiskNode,
    directory: Seq<PartView>,
    inside_cargo: bool,
    ground: Ground,
)
    requires
        lists(walk, directory, inside_cargo, ground),
        fresh(walk, node.place(directory)),
        node is Directory,
        ground.reaches(node.place(directory)),
        ground.closed.contains(node.place(directory)),
        discover::verdict(text::lossy_text(node.name()), inside_cargo) is Enter,
        seen == (WalkView {
            visited: walk.visited.insert(path::key(node.place(directory))),
            phase: (PhaseView::Checking { directory: node.place(directory) }),
            ..walk
        }),
        answered(
            walk,
            seq![WalkReplyView::Entry { name: node.name(), kind: node.kind() }] + seq![
                WalkReplyView::Canonical(node.place(directory)),
            ],
        ) == seen,
        apt(
            walk,
            seq![WalkReplyView::Entry { name: node.name(), kind: node.kind() }] + seq![
                WalkReplyView::Canonical(node.place(directory)),
            ],
        ),
    ensures
        went_on(
            walk,
            answered(walk, answers_about(node, directory, inside_cargo, ground)),
            called_for_by(node, directory, inside_cargo, ground),
            said_of(node, directory, inside_cargo, ground),
            node.place(directory),
        ),
        apt(walk, answers_about(node, directory, inside_cargo, ground)),
{
    let path = node.place(directory);
    let resolved = seq![WalkReplyView::Entry { name: node.name(), kind: node.kind() }] + seq![
        WalkReplyView::Canonical(path),
    ];
    let present = has_manifest(node->children, path, ground);
    let checked = WalkReplyView::Found(present);
    let refused = WalkReplyView::OpenFailed(ground.denial);
    let found = called_for_by(node, directory, inside_cargo, ground);
    let said = said_of(node, directory, inside_cargo, ground);
    lemma_answered_once(seen, checked);
    lemma_answered_in_turn(walk, resolved, seq![checked]);
    let entered = seen.after(checked);
    lemma_answered_once(entered, refused);
    lemma_answered_in_turn(walk, resolved + seq![checked], seq![refused]);
    lemma_fresh_action(
        WalkView { visited: walk.visited, ..seen },
        ActionKind::Cargo,
        path,
    );
    let done = entered.after(refused);
    assert(entered.innermost().directory == path);
    assert(entered.frames.drop_last() =~= walk.frames);
    assert(done.actions =~= walk.actions + found);
    assert(done.errors =~= walk.errors + said);
    path::lemma_begins_with_alike(path, path);
    path::lemma_key_begins_with(path, path);
    assert(done =~= WalkView {
        actions: walk.actions + found,
        errors: walk.errors + said,
        visited: done.visited,
        ..walk
    });
}

/// A target without a package.
proof fn lemma_orphan(
    walk: WalkView,
    seen: WalkView,
    node: DiskNode,
    directory: Seq<PartView>,
    inside_cargo: bool,
    ground: Ground,
)
    requires
        lists(walk, directory, inside_cargo, ground),
        fresh(walk, node.place(directory)),
        node is Directory,
        ground.reaches(node.place(directory)),
        discover::verdict(text::lossy_text(node.name()), inside_cargo) is Orphan,
        seen == (WalkView {
            visited: walk.visited.insert(path::key(node.place(directory))),
            phase: (PhaseView::Probing {
                debug: path::entry(node.place(directory), "debug"@),
            }),
            ..walk
        }),
        answered(
            walk,
            seq![WalkReplyView::Entry { name: node.name(), kind: node.kind() }] + seq![
                WalkReplyView::Canonical(node.place(directory)),
            ],
        ) == seen,
        apt(
            walk,
            seq![WalkReplyView::Entry { name: node.name(), kind: node.kind() }] + seq![
                WalkReplyView::Canonical(node.place(directory)),
            ],
        ),
    ensures
        went_on(
            walk,
            answered(walk, answers_about(node, directory, inside_cargo, ground)),
            called_for_by(node, directory, inside_cargo, ground),
            said_of(node, directory, inside_cargo, ground),
            node.place(directory),
        ),
        apt(walk, answers_about(node, directory, inside_cargo, ground)),
{
    let path = node.place(directory);
    let debug = path::entry(path, "debug"@);
    let resolved = seq![WalkReplyView::Entry { name: node.name(), kind: node.kind() }] + seq![
        WalkReplyView::Canonical(path),
    ];
    let found = called_for_by(node, directory, inside_cargo, ground);
    assert(path::begins_with(path, path)) by {
        path::lemma_begins_with_alike(path, path);
    }
    let said = said_of(node, directory, inside_cargo, ground);
    let present = has_debug(node->children, path, ground);
    let probed = WalkReplyView::Found(present);
    lemma_answered_once(seen, probed);
    lemma_answered_in_turn(walk, resolved, seq![probed]);
    path::lemma_key_begins_with(path, path);
    if present {
        let asked = seen.after(probed);
        let canonical = canonical_of(debug, ground);
        lemma_answered_once(asked, canonical);
        lemma_answered_in_turn(walk, resolved + seq![probed], seq![canonical]);
        disk::lemma_child_beneath(directory, node.name(), walk.root);
        disk::lemma_child_beneath(path, vstd::utf8::encode_utf8("debug"@), walk.root);
        disk::lemma_child_beneath(path, vstd::utf8::encode_utf8("debug"@), path);
        lemma_fresh_below(walk, path, debug);
        lemma_fresh_action(
            WalkView { visited: walk.visited, ..asked },
            ActionKind::Debug,
            debug,
        );
        let done = asked.after(canonical);
        assert(done.actions =~= walk.actions + found);
        assert(done.errors =~= walk.errors + said);
        assert(done =~= WalkView {
            actions: walk.actions + found,
            errors: walk.errors + said,
            visited: done.visited,
            ..walk
        });
    } else {
        let done = seen.after(probed);
        assert(done.actions =~= walk.actions + found);
        assert(done.errors =~= walk.errors + said);
        assert(done =~= WalkView {
            actions: walk.actions + found,
            errors: walk.errors + said,
            visited: done.visited,
            ..walk
        });
    }
}

/// What has not been seen at a path has not been seen below it.
proof fn lemma_fresh_below(walk: WalkView, path: Seq<PartView>, below: Seq<PartView>)
    requires
        fresh(walk, path),
        path::begins_with(below, path),
    ensures
        fresh(walk, below),
{
    assert forall|seen: Seq<PartView>| #[trigger]
        walk.visited.contains(seen) implies !path::begins_with(seen, below) by {
        if path::begins_with(seen, below) {
            disk::lemma_begins_with_all(seen, below, path);
        }
    }
    assert forall|i: int| 0 <= i < walk.actions.len() implies !path::begins_with(
        (#[trigger] walk.actions[i]).path,
        below,
    ) by {
        if path::begins_with(walk.actions[i].path, below) {
            disk::lemma_begins_with_all(walk.actions[i].path, below, path);
        }
    }
}

/// Into a directory that is walked.
proof fn lemma_package(
    walk: WalkView,
    seen: WalkView,
    node: DiskNode,
    directory: Seq<PartView>,
    inside_cargo: bool,
    ground: Ground,
)
    requires
        lists(walk, directory, inside_cargo, ground),
        fresh(walk, node.place(directory)),
        node is Directory,
        seen == (WalkView {
            visited: walk.visited.insert(path::key(node.place(directory))),
            phase: (PhaseView::Checking { directory: node.place(directory) }),
            ..walk
        }),
    ensures
        ({
            let path = node.place(directory);
            let present = has_manifest(node->children, path, ground);
            let inside = inside_cargo || present;
            let opened = seen.after(WalkReplyView::Found(present)).after(WalkReplyView::Opened);
            &&& opened == (WalkView {
                actions: walk.actions + package(path, present && !inside_cargo),
                visited: walk.visited.insert(path::key(path)),
                frames: walk.frames.push(FrameView { directory: path, inside_cargo: inside }),
                ..walk
            })
            &&& lists(opened, path, inside, ground)
            &&& seen.awaits(WalkReplyView::Found(present))
            &&& seen.after(WalkReplyView::Found(present)).awaits(WalkReplyView::Opened)
            &&& forall|i: int|
                0 <= i < node->children.len() ==> fresh(
                    opened,
                    (#[trigger] node->children[i]).place(path),
                )
        }),
{
    let path = node.place(directory);
    let present = has_manifest(node->children, path, ground);
    let inside = inside_cargo || present;
    let opened = seen.after(WalkReplyView::Found(present)).after(WalkReplyView::Opened);
    disk::lemma_child_beneath(directory, node.name(), walk.root);
    lemma_fresh_action(
        WalkView { visited: walk.visited, ..seen },
        ActionKind::Cargo,
        path,
    );
    assert(opened.actions =~= walk.actions + package(path, present && !inside_cargo));
    assert(opened =~= WalkView {
        actions: walk.actions + package(path, present && !inside_cargo),
        visited: walk.visited.insert(path::key(path)),
        frames: walk.frames.push(FrameView { directory: path, inside_cargo: inside }),
        ..walk
    });
    assert forall|i: int| 0 <= i < node->children.len() implies fresh(
        opened,
        (#[trigger] node->children[i]).place(path),
    ) by {
        let below = node->children[i].place(path);
        path::lemma_begins_with_alike(path, path);
        path::lemma_key_begins_with(path, below);
        disk::lemma_child_beneath(path, node->children[i].name(), path);
        disk::lemma_beneath_longer(below, path);
        assert forall|seen: Seq<PartView>| #[trigger]
            opened.visited.contains(seen) implies !path::begins_with(seen, below) by {
            if path::begins_with(seen, below) {
                disk::lemma_begins_with_all(seen, below, path);
            }
        }
        assert forall|j: int| 0 <= j < opened.actions.len() implies !path::begins_with(
            (#[trigger] opened.actions[j]).path,
            below,
        ) by {
            let at = opened.actions[j].path;
            if path::begins_with(at, below) {
                disk::lemma_begins_with_all(at, below, path);
                if j < walk.actions.len() {
                    assert(opened.actions[j] == walk.actions[j]);
                }
            }
        }
    }
}

proof fn lemma_answered_through(
    walk: WalkView,
    resolved: Seq<WalkReplyView>,
    seen: WalkView,
    present: bool,
    inner: Seq<WalkReplyView>,
)
    requires
        answered(walk, resolved) == seen,
        apt(walk, resolved),
        seen.awaits(WalkReplyView::Found(present)),
        seen.after(WalkReplyView::Found(present)).awaits(WalkReplyView::Opened),
        apt(seen.after(WalkReplyView::Found(present)).after(WalkReplyView::Opened), inner),
        answered(
            seen.after(WalkReplyView::Found(present)).after(WalkReplyView::Opened),
            inner,
        ).awaits(WalkReplyView::NoMoreEntries),
    ensures
        ({
            let replies = resolved + seq![WalkReplyView::Found(present)] + seq![
                WalkReplyView::Opened,
            ] + inner + seq![WalkReplyView::NoMoreEntries];
            &&& answered(walk, replies) == answered(
                seen.after(WalkReplyView::Found(present)).after(WalkReplyView::Opened),
                inner,
            ).after(WalkReplyView::NoMoreEntries)
            &&& apt(walk, replies)
        }),
{
    let checked = seq![WalkReplyView::Found(present)];
    let opening = seq![WalkReplyView::Opened];
    let last = seq![WalkReplyView::NoMoreEntries];
    let opened = seen.after(checked[0]).after(opening[0]);
    lemma_answered_once(seen, checked[0]);
    lemma_answered_once(seen.after(checked[0]), opening[0]);
    lemma_answered_once(answered(opened, inner), last[0]);
    lemma_answered_in_turn(walk, resolved, checked);
    lemma_answered_in_turn(walk, resolved + checked, opening);
    lemma_answered_in_turn(walk, resolved + checked + opening, inner);
    lemma_answered_in_turn(walk, resolved + checked + opening + inner, last);
}

/// Into a directory that is walked, and out again.
#[verifier::rlimit(30)]
proof fn lemma_there_and_back(
    walk: WalkView,
    seen: WalkView,
    node: DiskNode,
    directory: Seq<PartView>,
    inside_cargo: bool,
    ground: Ground,
)
    requires
        node is Directory,
        ground.reaches(node.place(directory)),
        !ground.closed.contains(node.place(directory)),
        walk.phase is Listing,
        walk.frames.len() > 0,
        discover::verdict(text::lossy_text(node.name()), inside_cargo) is Enter,
        answered(
            walk,
            seq![WalkReplyView::Entry { name: node.name(), kind: node.kind() }] + seq![
                WalkReplyView::Canonical(node.place(directory)),
            ],
        ) == seen,
        apt(
            walk,
            seq![WalkReplyView::Entry { name: node.name(), kind: node.kind() }] + seq![
                WalkReplyView::Canonical(node.place(directory)),
            ],
        ),
        seen.awaits(
            WalkReplyView::Found(has_manifest(node->children, node.place(directory), ground)),
        ),
        seen.after(
            WalkReplyView::Found(has_manifest(node->children, node.place(directory), ground)),
        ).awaits(WalkReplyView::Opened),
        ({
            let path = node.place(directory);
            let present = has_manifest(node->children, path, ground);
            let inside = inside_cargo || present;
            let opened = seen.after(WalkReplyView::Found(present)).after(WalkReplyView::Opened);
            let inner = answers_in(node->children, path, inside, ground);
            &&& opened == (WalkView {
                actions: walk.actions + package(path, present && !inside_cargo),
                visited: walk.visited.insert(path::key(path)),
                frames: walk.frames.push(FrameView { directory: path, inside_cargo: inside }),
                ..walk
            })
            &&& went_on(
                opened,
                answered(opened, inner),
                called_for(node->children, path, inside, ground),
                said_in(node->children, path, inside, ground),
                path,
            )
            &&& apt(opened, inner)
        }),
    ensures
        went_on(
            walk,
            answered(walk, answers_about(node, directory, inside_cargo, ground)),
            called_for_by(node, directory, inside_cargo, ground),
            said_of(node, directory, inside_cargo, ground),
            node.place(directory),
        ),
        apt(walk, answers_about(node, directory, inside_cargo, ground)),
{
    let path = node.place(directory);
    let present = has_manifest(node->children, path, ground);
    let inside = inside_cargo || present;
    let resolved = seq![WalkReplyView::Entry { name: node.name(), kind: node.kind() }] + seq![
        WalkReplyView::Canonical(path),
    ];
    let inner = answers_in(node->children, path, inside, ground);
    let opened = seen.after(WalkReplyView::Found(present)).after(WalkReplyView::Opened);
    let end = answered(opened, inner);
    lemma_answered_through(walk, resolved, seen, present, inner);
    let done = end.after(WalkReplyView::NoMoreEntries);
    let found = called_for_by(node, directory, inside_cargo, ground);
    assert(end.frames.drop_last() =~= walk.frames);
    let said = said_of(node, directory, inside_cargo, ground);
    assert(done.actions =~= walk.actions + found);
    assert(done.errors =~= walk.errors + said);
    assert(done =~= WalkView {
        actions: walk.actions + found,
        errors: walk.errors + said,
        visited: done.visited,
        ..walk
    });
    path::lemma_begins_with_alike(path, path);
    path::lemma_key_begins_with(path, path);
}

#[verifier::rlimit(30)]
proof fn lemma_entries(
    walk: WalkView,
    nodes: Seq<DiskNode>,
    directory: Seq<PartView>,
    inside_cargo: bool,
    ground: Ground,
)
    requires
        lists(walk, directory, inside_cargo, ground),
        disk::well_named(nodes),
        forall|i: int|
            0 <= i < nodes.len() ==> fresh(walk, (#[trigger] nodes[i]).place(directory)),
    ensures
        went_on(
            walk,
            answered(walk, answers_in(nodes, directory, inside_cargo, ground)),
            called_for(nodes, directory, inside_cargo, ground),
            said_in(nodes, directory, inside_cargo, ground),
            directory,
        ),
        apt(walk, answers_in(nodes, directory, inside_cargo, ground)),
        forall|seen: Seq<PartView>| #[trigger]
            answered(walk, answers_in(nodes, directory, inside_cargo, ground)).visited.contains(
                seen,
            ) ==> {
                ||| walk.visited.contains(seen)
                ||| exists|i: int|
                    0 <= i < nodes.len() && path::begins_with(
                        seen,
                        (#[trigger] nodes[i]).place(directory),
                    )
            },
    decreases nodes, 0int,
{
    if nodes.len() == 0 {
        assert(walk.actions + called_for(nodes, directory, inside_cargo, ground) =~= walk.actions);
        assert(walk.errors + said_in(nodes, directory, inside_cargo, ground) =~= walk.errors);
    } else {
        let earlier = nodes.drop_last();
        let node = nodes.last();
        assert forall|i: int| 0 <= i < earlier.len() implies fresh(
            walk,
            (#[trigger] earlier[i]).place(directory),
        ) by {
            assert(earlier[i] == nodes[i]);
        }
        lemma_entries(walk, earlier, directory, inside_cargo, ground);
        let middle = answered(walk, answers_in(earlier, directory, inside_cargo, ground));
        lemma_still_fresh(walk, middle, nodes, directory, inside_cargo, ground);
        assert(seq![node].drop_last() =~= Seq::<DiskNode>::empty());
        assert(disk::well_named(seq![node].drop_last()));
        assert(seq![node].last() == node);
        assert(disk::well_named(seq![node]));
        lemma_entry(middle, node, directory, inside_cargo, ground);
        lemma_answered_in_turn(
            walk,
            answers_in(earlier, directory, inside_cargo, ground),
            answers_about(node, directory, inside_cargo, ground),
        );
        let end = answered(walk, answers_in(nodes, directory, inside_cargo, ground));
        assert(end.actions =~= walk.actions + called_for(nodes, directory, inside_cargo, ground));
        assert(end.errors =~= walk.errors + said_in(nodes, directory, inside_cargo, ground));
        assert(end =~= WalkView {
            actions: walk.actions + called_for(nodes, directory, inside_cargo, ground),
            errors: walk.errors + said_in(nodes, directory, inside_cargo, ground),
            visited: end.visited,
            ..walk
        });
        lemma_seen_in_turn(walk, middle, end, nodes, directory);
    }
}

/// What is seen in entries one after the other is below one of them.
proof fn lemma_seen_in_turn(
    walk: WalkView,
    middle: WalkView,
    end: WalkView,
    nodes: Seq<DiskNode>,
    directory: Seq<PartView>,
)
    requires
        nodes.len() > 0,
        forall|seen: Seq<PartView>| #[trigger]
            middle.visited.contains(seen) ==> {
                ||| walk.visited.contains(seen)
                ||| exists|i: int|
                    0 <= i < nodes.drop_last().len() && path::begins_with(
                        seen,
                        (#[trigger] nodes.drop_last()[i]).place(directory),
                    )
            },
        forall|seen: Seq<PartView>| #[trigger]
            end.visited.contains(seen) ==> middle.visited.contains(seen) || path::begins_with(
                seen,
                nodes.last().place(directory),
            ),
    ensures
        forall|seen: Seq<PartView>| #[trigger]
            end.visited.contains(seen) ==> {
                ||| walk.visited.contains(seen)
                ||| exists|i: int|
                    0 <= i < nodes.len() && path::begins_with(
                        seen,
                        (#[trigger] nodes[i]).place(directory),
                    )
            },
        forall|seen: Seq<PartView>| #[trigger]
            end.visited.contains(seen) ==> walk.visited.contains(seen) || path::begins_with(
                seen,
                directory,
            ),
{
    let earlier = nodes.drop_last();
    assert forall|seen: Seq<PartView>| #[trigger] end.visited.contains(seen) implies {
        ||| walk.visited.contains(seen)
        ||| exists|i: int|
            0 <= i < nodes.len() && path::begins_with(
                seen,
                (#[trigger] nodes[i]).place(directory),
            )
    } by {
        if middle.visited.contains(seen) {
            if !walk.visited.contains(seen) {
                let i = choose|i: int|
                    0 <= i < earlier.len() && path::begins_with(
                        seen,
                        (#[trigger] earlier[i]).place(directory),
                    );
                assert(earlier[i] == nodes[i]);
            }
        } else {
            assert(nodes[nodes.len() - 1] == nodes.last());
        }
    }
    assert forall|seen: Seq<PartView>| #[trigger]
        end.visited.contains(seen) implies walk.visited.contains(seen) || path::begins_with(
        seen,
        directory,
    ) by {
        if !walk.visited.contains(seen) {
            let i = choose|i: int|
                0 <= i < nodes.len() && path::begins_with(
                    seen,
                    (#[trigger] nodes[i]).place(directory),
                );
            let place = nodes[i].place(directory);
            path::lemma_begins_with_alike(directory, directory);
            disk::lemma_child_beneath(directory, nodes[i].name(), directory);
            disk::lemma_begins_with_all(seen, place, directory);
        }
    }
}

/// The last entry is still to be seen when those before it have been.
proof fn lemma_still_fresh(
    walk: WalkView,
    middle: WalkView,
    nodes: Seq<DiskNode>,
    directory: Seq<PartView>,
    inside_cargo: bool,
    ground: Ground,
)
    requires
        nodes.len() > 0,
        disk::well_named(nodes),
        fresh(walk, nodes.last().place(directory)),
        middle.actions == walk.actions + called_for(nodes.drop_last(), directory, inside_cargo, ground),
        forall|seen: Seq<PartView>| #[trigger]
            middle.visited.contains(seen) ==> {
                ||| walk.visited.contains(seen)
                ||| exists|i: int|
                    0 <= i < nodes.drop_last().len() && path::begins_with(
                        seen,
                        (#[trigger] nodes.drop_last()[i]).place(directory),
                    )
            },
    ensures
        fresh(middle, nodes.last().place(directory)),
{
    let earlier = nodes.drop_last();
    let path = nodes.last().place(directory);
    assert forall|seen: Seq<PartView>| #[trigger]
        middle.visited.contains(seen) implies !path::begins_with(seen, path) by {
        if !walk.visited.contains(seen) {
            let i = choose|i: int|
                0 <= i < earlier.len() && path::begins_with(
                    seen,
                    (#[trigger] earlier[i]).place(directory),
                );
            assert(earlier[i] == nodes[i]);
            disk::lemma_apart(directory, nodes[i].name(), nodes.last().name(), seen);
        }
    }
    lemma_called_for_apart(earlier, nodes.last().name(), directory, inside_cargo, ground);
    let found = called_for(earlier, directory, inside_cargo, ground);
    assert forall|i: int| 0 <= i < middle.actions.len() implies !path::begins_with(
        (#[trigger] middle.actions[i]).path,
        path,
    ) by {
        if i < walk.actions.len() {
            assert(middle.actions[i] == walk.actions[i]);
        } else {
            assert(middle.actions[i] == found[i - walk.actions.len()]);
        }
    }
}

/// What entries call for is not below an entry of another name.
proof fn lemma_called_for_apart(
    nodes: Seq<DiskNode>,
    name: Seq<u8>,
    directory: Seq<PartView>,
    inside_cargo: bool,
    ground: Ground,
)
    requires
        forall|i: int| 0 <= i < nodes.len() ==> (#[trigger] nodes[i]).name() != name,
    ensures
        forall|i: int|
            0 <= i < called_for(nodes, directory, inside_cargo, ground).len() ==> !path::begins_with(
                (#[trigger] called_for(nodes, directory, inside_cargo, ground)[i]).path,
                path::child(directory, name),
            ),
    decreases nodes.len(),
{
    if nodes.len() > 0 {
        let earlier = nodes.drop_last();
        let node = nodes.last();
        assert(nodes[nodes.len() - 1] == node);
        assert forall|i: int| 0 <= i < earlier.len() implies (#[trigger] earlier[i]).name()
            != name by {
            assert(earlier[i] == nodes[i]);
        }
        lemma_called_for_apart(earlier, name, directory, inside_cargo, ground);
        lemma_called_for_below(node, directory, inside_cargo, ground);
        let head = called_for(earlier, directory, inside_cargo, ground);
        let tail = called_for_by(node, directory, inside_cargo, ground);
        let found = called_for(nodes, directory, inside_cargo, ground);
        assert forall|i: int| 0 <= i < found.len() implies !path::begins_with(
            (#[trigger] found[i]).path,
            path::child(directory, name),
        ) by {
            if i < head.len() {
                assert(found[i] == head[i]);
            } else {
                assert(found[i] == tail[i - head.len()]);
                disk::lemma_apart(directory, node.name(), name, found[i].path);
            }
        }
    }
}

/// What a directory tree holds to be reclaimed, as far as can be seen.
pub open spec fn reclaimable(
    nodes: Seq<DiskNode>,
    root: Seq<PartView>,
    ground: Ground,
) -> Seq<ActionView> {
    let present = has_manifest(nodes, root, ground);
    package(root, present) + if ground.closed.contains(root) {
        Seq::empty()
    } else {
        called_for(nodes, root, present, ground)
    }
}

/// What is said of a directory tree when it is walked: one line for each
/// failure.
pub open spec fn said(
    nodes: Seq<DiskNode>,
    root: Seq<PartView>,
    ground: Ground,
) -> Seq<Seq<char>> {
    if ground.closed.contains(root) {
        seq![ground.complaint("cannot read "@, root)]
    } else {
        said_in(nodes, root, has_manifest(nodes, root, ground), ground)
    }
}

/// What the file system answers about a directory tree.
pub open spec fn answers(
    nodes: Seq<DiskNode>,
    root: Seq<PartView>,
    ground: Ground,
) -> Seq<WalkReplyView> {
    if ground.closed.contains(root) {
        seq![WalkReplyView::OpenFailed(ground.denial)]
    } else {
        seq![WalkReplyView::Opened] + answers_in(
            nodes,
            root,
            has_manifest(nodes, root, ground),
            ground,
        ) + seq![WalkReplyView::NoMoreEntries]
    }
}

/// A walk of a directory tree comes to its end and finds all that the tree
/// holds to be reclaimed, and nothing else. A directory that cannot be opened
/// or made canonical, or an entry that cannot be read or inspected, costs what
/// it would have called for and adds one line; the walk goes on behind it.
pub proof fn law_walks_find_what_is_there(
    nodes: Seq<DiskNode>,
    root: Seq<PartView>,
    ground: Ground,
)
    requires
        disk::well_named(nodes),
    ensures
        ({
            let start = discover::begun(root, has_manifest(nodes, root, ground), ground.platform);
            let end = answered(start, answers(nodes, root, ground));
            &&& apt(start, answers(nodes, root, ground))
            &&& end.phase is Finished
            &&& end.actions == reclaimable(nodes, root, ground)
            &&& end.errors == said(nodes, root, ground)
            &&& ground.is_flawless() ==> end.errors.len() == 0
        }),
{
    let present = has_manifest(nodes, root, ground);
    let start = discover::begun(root, present, ground.platform);
    path::lemma_begins_with_alike(root, root);
    if ground.is_flawless() {
        lemma_nothing_said_in(nodes, root, present, ground);
    }
    if ground.closed.contains(root) {
        lemma_answered_once(start, WalkReplyView::OpenFailed(ground.denial));
        let end = start.after(WalkReplyView::OpenFailed(ground.denial));
        assert(end.actions =~= reclaimable(nodes, root, ground));
        assert(end.errors =~= said(nodes, root, ground));
    } else {
        let opened = start.after(WalkReplyView::Opened);
        lemma_answered_once(start, WalkReplyView::Opened);
        assert forall|i: int| 0 <= i < nodes.len() implies fresh(
            opened,
            (#[trigger] nodes[i]).place(root),
        ) by {
            let below = nodes[i].place(root);
            path::lemma_key_begins_with(root, below);
            disk::lemma_child_beneath(root, nodes[i].name(), root);
            disk::lemma_beneath_longer(below, root);
            assert forall|seen: Seq<PartView>| #[trigger]
                opened.visited.contains(seen) implies !path::begins_with(seen, below) by {
                assert(seen == path::key(root));
            }
        }
        lemma_entries(opened, nodes, root, present, ground);
        let inner = answers_in(nodes, root, present, ground);
        let end = answered(opened, inner);
        lemma_answered_once(end, WalkReplyView::NoMoreEntries);
        lemma_answered_in_turn(start, seq![WalkReplyView::Opened], inner);
        lemma_answered_in_turn(
            start,
            seq![WalkReplyView::Opened] + inner,
            seq![WalkReplyView::NoMoreEntries],
        );
        assert(end.after(WalkReplyView::NoMoreEntries).actions =~= reclaimable(
            nodes,
            root,
            ground,
        ));
        assert(end.errors =~= said(nodes, root, ground));
    }
}

proof fn lemma_nothing_said_of(
    node: DiskNode,
    directory: Seq<PartView>,
    inside_cargo: bool,
    ground: Ground,
)
    requires
        ground.is_flawless(),
    ensures
        said_of(node, directory, inside_cargo, ground).len() == 0,
    decreases node, 1int,
{
    match node {
        DiskNode::Directory { name, children } => {
            let path = node.place(directory);
            lemma_nothing_said_in(
                children,
                path,
                inside_cargo || has_manifest(children, path, ground),
                ground,
            );
        },
        _ => {},
    }
}

proof fn lemma_nothing_said_in(
    nodes: Seq<DiskNode>,
    directory: Seq<PartView>,
    inside_cargo: bool,
    ground: Ground,
)
    requires
        ground.is_flawless(),
    ensures
        said_in(nodes, directory, inside_cargo, ground).len() == 0,
    decreases nodes, 0int,
{
    if nodes.len() > 0 {
        lemma_nothing_said_in(nodes.drop_last(), directory, inside_cargo, ground);
        lemma_nothing_said_of(nodes.last(), directory, inside_cargo, ground);
    }
}

/// Whether the same fails on two file systems at a path and below it.
pub open spec fn agree_below(ground: Ground, other: Ground, path: Seq<PartView>) -> bool {
    &&& ground.denial == other.denial
    &&& ground.platform == other.platform
    &&& forall|at: Seq<PartView>|
        path::begins_with(at, path) ==> (#[trigger] ground.unread.contains(at)
            == other.unread.contains(at))
    &&& forall|at: Seq<PartView>|
        path::begins_with(at, path) ==> (#[trigger] ground.blurred.contains(at)
            == other.blurred.contains(at))
    &&& forall|at: Seq<PartView>|
        path::begins_with(at, path) ==> (#[trigger] ground.lost.contains(at)
            == other.lost.contains(at))
    &&& forall|at: Seq<PartView>|
        path::begins_with(at, path) ==> (#[trigger] ground.closed.contains(at)
            == other.closed.contains(at))
}

/// What fails costs only itself and what is below it. An entry that cannot be
/// read or inspected, or a directory that cannot be made canonical, calls for
/// nothing, and a directory that cannot be opened for no more than the package
/// it is; either adds one line. What any other entry calls for and what is said
/// of it is the same as if the failure were not there.
pub proof fn law_failures_cost_only_what_is_below(
    node: DiskNode,
    directory: Seq<PartView>,
    inside_cargo: bool,
    ground: Ground,
    other: Ground,
)
    ensures
        ({
            let path = node.place(directory);
            let found = called_for_by(node, directory, inside_cargo, ground);
            let lines = said_of(node, directory, inside_cargo, ground);
            &&& !ground.lists(path) || (node is Directory && ground.lost.contains(path)) ==> {
                found.len() == 0 && lines.len() == 1
            }
            &&& (node is Directory && ground.reaches(path) && ground.closed.contains(path)
                && discover::verdict(text::lossy_text(node.name()), inside_cargo) is Enter) ==> {
                &&& found == package(
                    path,
                    has_manifest(node->children, path, ground) && !inside_cargo,
                )
                &&& lines.len() == 1
            }
            &&& agree_below(ground, other, path) ==> {
                &&& found == called_for_by(node, directory, inside_cargo, other)
                &&& lines == said_of(node, directory, inside_cargo, other)
            }
        }),
{
    let path = node.place(directory);
    if agree_below(ground, other, path) {
        lemma_local(node, directory, inside_cargo, ground, other);
    }
    if node is Directory {
        let head = package(path, has_manifest(node->children, path, ground) && !inside_cargo);
        assert(head + Seq::<ActionView>::empty() =~= head);
    }
}

proof fn lemma_local(
    node: DiskNode,
    directory: Seq<PartView>,
    inside_cargo: bool,
    ground: Ground,
    other: Ground,
)
    requires
        agree_below(ground, other, node.place(directory)),
    ensures
        called_for_by(node, directory, inside_cargo, ground) == called_for_by(
            node,
            directory,
            inside_cargo,
            other,
        ),
        said_of(node, directory, inside_cargo, ground) == said_of(
            node,
            directory,
            inside_cargo,
            other,
        ),
    decreases node, 1int,
{
    let path = node.place(directory);
    path::lemma_begins_with_alike(path, path);
    match node {
        DiskNode::Directory { name, children } => {
            disk::lemma_child_beneath(path, vstd::utf8::encode_utf8("debug"@), path);
            assert forall|i: int| 0 <= i < children.len() implies ground.blurred.contains(
                (#[trigger] children[i]).place(path),
            ) == other.blurred.contains(children[i].place(path)) by {
                disk::lemma_child_beneath(path, children[i].name(), path);
            }
            assert(has_manifest(children, path, ground) == has_manifest(children, path, other));
            assert(has_debug(children, path, ground) == has_debug(children, path, other));
            lemma_local_in(
                children,
                path,
                inside_cargo || has_manifest(children, path, ground),
                ground,
                other,
            );
        },
        _ => {},
    }
}

proof fn lemma_local_in(
    nodes: Seq<DiskNode>,
    directory: Seq<PartView>,
    inside_cargo: bool,
    ground: Ground,
    other: Ground,
)
    requires
        agree_below(ground, other, directory),
    ensures
        called_for(nodes, directory, inside_cargo, ground) == called_for(
            nodes,
            directory,
            inside_cargo,
            other,
        ),
        said_in(nodes, directory, inside_cargo, ground) == said_in(
            nodes,
            directory,
            inside_cargo,
            other,
        ),
    decreases nodes, 0int,
{
    if nodes.len() > 0 {
        let place = nodes.last().place(directory);
        lemma_local_in(nodes.drop_last(), directory, inside_cargo, ground, other);
        path::lemma_begins_with_alike(directory, directory);
        disk::lemma_child_beneath(directory, nodes.last().name(), directory);
        lemma_agree_below(ground, other, directory, place);
        lemma_local(nodes.last(), directory, inside_cargo, ground, other);
    }
}

proof fn lemma_agree_below(
    ground: Ground,
    other: Ground,
    path: Seq<PartView>,
    below: Seq<PartView>,
)
    requires
        agree_below(ground, other, path),
        path::begins_with(below, path),
    ensures
        agree_below(ground, other, below),
{
    assert forall|at: Seq<PartView>| path::begins_with(at, below) implies path::begins_with(
        at,
        path,
    ) by {
        disk::lemma_begins_with_all(at, below, path);
    }
}

/// Whether an action lies inside another one only where that one is a package
/// and it is none itself.
pub open spec fn nested_in_packages_only(found: Seq<ActionView>) -> bool {
    forall|i: int, j: int|
        0 <= i < found.len() && 0 <= j < found.len() && i != j && path::begins_with(
            (#[trigger] found[j]).path,
            (#[trigger] found[i]).path,
        ) ==> found[i].kind == ActionKind::Cargo && found[j].kind != ActionKind::Cargo
}

/// Whether none of a list of actions is about a package.
spec fn no_packages(found: Seq<ActionView>) -> bool {
    forall|i: int| 0 <= i < found.len() ==> (#[trigger] found[i]).kind != ActionKind::Cargo
}

/// Whether all actions are strictly below a path.
spec fn all_beneath(found: Seq<ActionView>, path: Seq<PartView>) -> bool {
    forall|i: int| 0 <= i < found.len() ==> path::beneath((#[trigger] found[i]).path, path)
}

proof fn lemma_called_for_in_beneath(
    nodes: Seq<DiskNode>,
    directory: Seq<PartView>,
    inside_cargo: bool,
    ground: Ground,
)
    ensures
        all_beneath(called_for(nodes, directory, inside_cargo, ground), directory),
    decreases nodes.len(),
{
    if nodes.len() > 0 {
        lemma_called_for_in_beneath(nodes.drop_last(), directory, inside_cargo, ground);
        lemma_called_for_below(nodes.last(), directory, inside_cargo, ground);
        lemma_called_for_in_below(nodes, directory, inside_cargo, ground);
        let found = called_for_by(nodes.last(), directory, inside_cargo, ground);
        let all = called_for(nodes, directory, inside_cargo, ground);
        let head = called_for(nodes.drop_last(), directory, inside_cargo, ground);
        assert forall|i: int| 0 <= i < all.len() implies path::beneath(
            (#[trigger] all[i]).path,
            directory,
        ) by {
            if i < head.len() {
                assert(all[i] == head[i]);
            } else {
                assert(all[i] == found[i - head.len()]);
                assert(all[i].path.len() > directory.len());
            }
        }
    }
}

proof fn lemma_nesting_of(
    node: DiskNode,
    directory: Seq<PartView>,
    inside_cargo: bool,
    ground: Ground,
)
    requires
        disk::well_named(seq![node]),
    ensures
        nested_in_packages_only(called_for_by(node, directory, inside_cargo, ground)),
        inside_cargo ==> no_packages(called_for_by(node, directory, inside_cargo, ground)),
    decreases node, 1int,
{
    match node {
        DiskNode::Directory { name, children } => {
            assert(seq![node].last() == node);
            assert(disk::well_named(children));
            let path = node.place(directory);
            let present = has_manifest(children, path, ground);
            let inside = inside_cargo || present;
            lemma_nesting_in(children, path, inside, ground);
            lemma_called_for_in_beneath(children, path, inside, ground);
            let inner = called_for(children, path, inside, ground);
            let head = package(path, present && !inside_cargo);
            let found = called_for_by(node, directory, inside_cargo, ground);
            if discover::verdict(text::lossy_text(name), inside_cargo) is Enter {
                assert forall|i: int, j: int|
                    0 <= i < found.len() && 0 <= j < found.len() && i != j && path::begins_with(
                        (#[trigger] found[j]).path,
                        (#[trigger] found[i]).path,
                    ) implies found[i].kind == ActionKind::Cargo && found[j].kind
                    != ActionKind::Cargo by {
                    if i >= head.len() {
                        assert(found[i] == inner[i - head.len()]);
                        disk::lemma_beneath_longer(found[i].path, path);
                    }
                    if j >= head.len() {
                        assert(found[j] == inner[j - head.len()]);
                    }
                }
                assert forall|i: int| 0 <= i < found.len() && inside_cargo implies (
                #[trigger] found[i]).kind != ActionKind::Cargo by {
                    assert(found[i] == inner[i]);
                }
            }
        },
        _ => {},
    }
}

proof fn lemma_nesting_in(
    nodes: Seq<DiskNode>,
    directory: Seq<PartView>,
    inside_cargo: bool,
    ground: Ground,
)
    requires
        disk::well_named(nodes),
    ensures
        nested_in_packages_only(called_for(nodes, directory, inside_cargo, ground)),
        inside_cargo ==> no_packages(called_for(nodes, directory, inside_cargo, ground)),
    decreases nodes, 0int,
{
    if nodes.len() > 0 {
        let node = nodes.last();
        let earlier = nodes.drop_last();
        assert(seq![node].drop_last() =~= Seq::<DiskNode>::empty());
        assert(disk::well_named(seq![node].drop_last()));
        assert(seq![node].last() == node);
        lemma_nesting_in(earlier, directory, inside_cargo, ground);
        lemma_nesting_of(node, directory, inside_cargo, ground);
        assert forall|i: int| 0 <= i < earlier.len() implies (#[trigger] earlier[i]).name()
            != node.name() by {
            assert(earlier[i] == nodes[i]);
        }
        lemma_called_for_apart(earlier, node.name(), directory, inside_cargo, ground);
        lemma_called_for_below(node, directory, inside_cargo, ground);
        let head = called_for(earlier, directory, inside_cargo, ground);
        let tail = called_for_by(node, directory, inside_cargo, ground);
        let found = called_for(nodes, directory, inside_cargo, ground);
        assert forall|i: int, j: int|
            0 <= i < found.len() && 0 <= j < found.len() && i != j && path::begins_with(
                (#[trigger] found[j]).path,
                (#[trigger] found[i]).path,
            ) implies found[i].kind == ActionKind::Cargo && found[j].kind
            != ActionKind::Cargo by {
            let place = node.place(directory);
            if i < head.len() && j < head.len() {
                assert(found[i] == head[i] && found[j] == head[j]);
            } else if i >= head.len() && j >= head.len() {
                assert(found[i] == tail[i - head.len()]);
                assert(found[j] == tail[j - head.len()]);
            } else if i >= head.len() {
                // The inner one is of an earlier entry.
                assert(found[i] == tail[i - head.len()]);
                assert(found[j] == head[j]);
                disk::lemma_begins_with_all(found[j].path, found[i].path, place);
            } else {
                // The outer one is of an earlier entry: both begin with its
                // place, so neither is below the last one.
                assert(found[i] == head[i]);
                assert(found[j] == tail[j - head.len()]);
                lemma_earlier_place(earlier, directory, inside_cargo, i, ground);
                let k = choose|k: int|
                    0 <= k < earlier.len() && path::begins_with(
                        head[i].path,
                        (#[trigger] earlier[k]).place(directory),
                    );
                disk::lemma_begins_with_all(
                    found[j].path,
                    found[i].path,
                    earlier[k].place(directory),
                );
                disk::lemma_apart(directory, earlier[k].name(), node.name(), found[j].path);
            }
        }
        assert forall|i: int| 0 <= i < found.len() && inside_cargo implies (
        #[trigger] found[i]).kind != ActionKind::Cargo by {
            if i < head.len() {
                assert(found[i] == head[i]);
            } else {
                assert(found[i] == tail[i - head.len()]);
            }
        }
    }
}

/// What entries call for is below one of them.
proof fn lemma_earlier_place(
    nodes: Seq<DiskNode>,
    directory: Seq<PartView>,
    inside_cargo: bool,
    i: int,
    ground: Ground,
)
    requires
        0 <= i < called_for(nodes, directory, inside_cargo, ground).len(),
    ensures
        exists|k: int|
            0 <= k < nodes.len() && path::begins_with(
                called_for(nodes, directory, inside_cargo, ground)[i].path,
                (#[trigger] nodes[k]).place(directory),
            ),
    decreases nodes.len(),
{
    let earlier = nodes.drop_last();
    let head = called_for(earlier, directory, inside_cargo, ground);
    if i < head.len() {
        lemma_earlier_place(earlier, directory, inside_cargo, i, ground);
        let k = choose|k: int|
            0 <= k < earlier.len() && path::begins_with(
                head[i].path,
                (#[trigger] earlier[k]).place(directory),
            );
        assert(nodes[k] == earlier[k]);
    } else {
        lemma_called_for_below(nodes.last(), directory, inside_cargo, ground);
        assert(nodes[nodes.len() - 1] == nodes.last());
    }
}

/// One action at the outermost package covers all packages below it, and
/// nothing is looked for inside what is reclaimed as a whole: an action lies
/// inside another one only where that one is a package and it is none itself.
pub proof fn law_actions_nest_in_packages_only(nodes: Seq<DiskNode>, root: Seq<PartView>, ground: Ground)
    requires
        disk::well_named(nodes),
    ensures
        nested_in_packages_only(reclaimable(nodes, root, ground)),
{
    let present = has_manifest(nodes, root, ground);
    lemma_nesting_in(nodes, root, present, ground);
    lemma_called_for_in_beneath(nodes, root, present, ground);
    let head = package(root, present);
    let inner = called_for(nodes, root, present, ground);
    let found = reclaimable(nodes, root, ground);
    assert forall|i: int, j: int|
        0 <= i < found.len() && 0 <= j < found.len() && i != j && path::begins_with(
            (#[trigger] found[j]).path,
            (#[trigger] found[i]).path,
        ) implies found[i].kind == ActionKind::Cargo && found[j].kind != ActionKind::Cargo by {
        if i >= head.len() {
            assert(found[i] == inner[i - head.len()]);
            disk::lemma_beneath_longer(found[i].path, root);
        }
        if j >= head.len() {
            assert(found[j] == inner[j - head.len()]);
        }
    }
}

/// Whether all that a walk holds is inside its root: the directories it is
/// in, those it has seen, and its actions, each of which it holds once. Only
/// a package is the root itself.
pub open spec fn inside_root(walk: WalkView) -> bool {
    &&& walk.coherent()
    &&& forall|i: int|
        0 <= i < walk.frames.len() ==> path::begins_with(
            (#[trigger] walk.frames[i]).directory,
            walk.root,
        )
    &&& forall|i: int|
        0 <= i < walk.actions.len() ==> {
            ||| path::beneath((#[trigger] walk.actions[i]).path, walk.root)
            ||| walk.actions[i] == (ActionView { kind: ActionKind::Cargo, path: walk.root })
        }
    &&& forall|i: int, j: int|
        0 <= i < j < walk.actions.len() ==> !action::same_action(
            #[trigger] walk.actions[i],
            #[trigger] walk.actions[j],
        )
    &&& match walk.phase {
        PhaseView::Checking { directory } => path::beneath(directory, walk.root),
        _ => true,
    }
}

/// Whatever the file system answers, a walk goes nowhere and finds nothing
/// outside its root, and finds nothing twice.
pub proof fn law_walks_stay_inside(
    root: Seq<PartView>,
    root_is_cargo: bool,
    platform: Platform,
    replies: Seq<WalkReplyView>,
)
    requires
        apt(discover::begun(root, root_is_cargo, platform), replies),
    ensures
        inside_root(answered(discover::begun(root, root_is_cargo, platform), replies)),
        answered(discover::begun(root, root_is_cargo, platform), replies).root == root,
    decreases replies.len(),
{
    let start = discover::begun(root, root_is_cargo, platform);
    if replies.len() == 0 {
        assert(path::begins_with(root, root)) by {
            path::lemma_begins_with_alike(root, root);
        }
    } else {
        law_walks_stay_inside(root, root_is_cargo, platform, replies.drop_last());
        lemma_step_inside(answered(start, replies.drop_last()), replies.last());
    }
}

proof fn lemma_step_inside(walk: WalkView, reply: WalkReplyView)
    requires
        inside_root(walk),
        walk.awaits(reply),
    ensures
        inside_root(walk.after(reply)),
        walk.after(reply).root == walk.root,
{
    let after = walk.after(reply);
    assert forall|i: int| 0 <= i < after.frames.len() implies path::begins_with(
        (#[trigger] after.frames[i]).directory,
        after.root,
    ) by {
        if i < walk.frames.len() {
            assert(after.frames[i] == walk.frames[i]);
        }
    }
    assert forall|i: int| 0 <= i < after.actions.len() implies {
        ||| path::beneath((#[trigger] after.actions[i]).path, after.root)
        ||| after.actions[i] == (ActionView { kind: ActionKind::Cargo, path: after.root })
    } by {
        if i < walk.actions.len() {
            assert(after.actions[i] == walk.actions[i]);
        }
    }
    assert forall|i: int, j: int| 0 <= i < j < after.actions.len() implies !action::same_action(
        #[trigger] after.actions[i],
        #[trigger] after.actions[j],
    ) by {
        assert(after.actions[i] == walk.actions[i]);
        if j < walk.actions.len() {
            assert(after.actions[j] == walk.actions[j]);
        }
    }
}

} // verus!
