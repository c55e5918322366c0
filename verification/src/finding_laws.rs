//! What a walk finds, by the names of the directories it comes to.

use crate::action::{ActionKind, ActionView};
use crate::discover;
use crate::discover::{EntryKind, FrameView, PhaseView, WalkReplyView, WalkRequestView, WalkView};
use crate::disk::DiskNode;
use crate::path;
use crate::path::{ComponentView, PartView, Platform};
use crate::text;
use crate::walk_on_disk;
use crate::walk_on_disk::Ground;
use vstd::prelude::*;

verus! {

/// Whether a directory of this name is reclaimed as a whole, and as what.
pub open spec fn calls_for(name: Seq<char>, kind: ActionKind) -> bool {
    match kind {
        ActionKind::Cargo => false,
        ActionKind::Debug => name == "debug"@,
        ActionKind::NodeModules => name == "node_modules"@,
        ActionKind::PythonVenv => name == ".venv"@,
        ActionKind::Scratch => name == "scratch"@ || name == ".scratch"@,
    }
}

/// Whether a name says nothing about a directory.
pub open spec fn is_ordinary(name: Seq<char>) -> bool {
    &&& name != "debug"@
    &&& name != "node_modules"@
    &&& name != ".venv"@
    &&& name != "scratch"@
    &&& name != ".scratch"@
    &&& name != ".git"@
    &&& name != "target"@
}

proof fn lemma_names_differ()
    ensures
        "debug"@ != "node_modules"@,
        "debug"@ != ".venv"@,
        "debug"@ != "scratch"@,
        "debug"@ != ".scratch"@,
        "debug"@ != ".git"@,
        "debug"@ != "target"@,
        "node_modules"@ != ".venv"@,
        "node_modules"@ != "scratch"@,
        "node_modules"@ != ".scratch"@,
        "node_modules"@ != ".git"@,
        "node_modules"@ != "target"@,
        ".venv"@ != "scratch"@,
        ".venv"@ != ".scratch"@,
        ".venv"@ != ".git"@,
        ".venv"@ != "target"@,
        "scratch"@ != ".scratch"@,
        "scratch"@ != ".git"@,
        "scratch"@ != "target"@,
        ".scratch"@ != ".git"@,
        ".scratch"@ != "target"@,
        ".git"@ != "target"@,
{
    reveal_strlit("debug");
    reveal_strlit("node_modules");
    reveal_strlit(".venv");
    reveal_strlit("scratch");
    reveal_strlit(".scratch");
    reveal_strlit(".git");
    reveal_strlit("target");
    assert("debug"@[0] == 'd' && ".venv"@[0] == '.');
    assert("debug"@.len() == 5 && "node_modules"@.len() == 12 && ".venv"@.len() == 5);
    assert("scratch"@.len() == 7 && ".scratch"@.len() == 8 && ".git"@.len() == 4);
    assert("target"@.len() == 6);
}

/// A directory of each of five names is reclaimed as what the name says, one of
/// any other name is not; a repository is left alone, and a target unless it has
/// no package above it.
pub proof fn law_names_say_what_to_do(name: Seq<char>, inside_cargo: bool)
    ensures
        ({
            let judged = discover::verdict(name, inside_cargo);
            &&& discover::named_kind("debug"@) == Some(ActionKind::Debug)
            &&& discover::named_kind("node_modules"@) == Some(ActionKind::NodeModules)
            &&& discover::named_kind(".venv"@) == Some(ActionKind::PythonVenv)
            &&& discover::named_kind("scratch"@) == Some(ActionKind::Scratch)
            &&& discover::named_kind(".scratch"@) == Some(ActionKind::Scratch)
            &&& discover::named_kind(name) is Some ==> name == "debug"@ || name == "node_modules"@
                || name == ".venv"@ || name == "scratch"@ || name == ".scratch"@
            &&& forall|kind: ActionKind|
                judged == discover::Verdict::Reclaim(kind) <==> #[trigger] calls_for(name, kind)
            &&& judged is Ignore <==> name == ".git"@ || (name == "target"@ && inside_cargo)
            &&& judged is Orphan <==> name == "target"@ && !inside_cargo
            &&& judged is Enter <==> is_ordinary(name)
        }),
{
    lemma_names_differ();
    assert forall|kind: ActionKind|
        discover::verdict(name, inside_cargo) == discover::Verdict::Reclaim(kind)
            <==> #[trigger] calls_for(name, kind) by {
        match kind {
            ActionKind::Cargo => {},
            ActionKind::Debug => {},
            ActionKind::NodeModules => {},
            ActionKind::PythonVenv => {},
            ActionKind::Scratch => {},
        }
    }
}

/// Whether one list of actions is another one with an action added, unless that
/// was there already.
pub open spec fn adds(
    before: Seq<ActionView>,
    after: Seq<ActionView>,
    kind: ActionKind,
    at: Seq<PartView>,
) -> bool {
    if exists|i: int|
        0 <= i < before.len() && (#[trigger] before[i]).kind == kind && path::key(before[i].path)
            == path::key(at) {
        after == before
    } else {
        after == before.push(ActionView { kind, path: at })
    }
}

proof fn lemma_adds(walk: WalkView, kind: ActionKind, at: Seq<PartView>)
    ensures
        adds(walk.actions, walk.with_action(kind, at).actions, kind, at),
{
    let action = ActionView { kind, path: at };
    if exists|i: int|
        0 <= i < walk.actions.len() && crate::action::same_action(
            #[trigger] walk.actions[i],
            action,
        ) {
        let i = choose|i: int|
            0 <= i < walk.actions.len() && crate::action::same_action(
                #[trigger] walk.actions[i],
                action,
            );
        assert(walk.actions[i].kind == kind);
    }
    if exists|i: int|
        0 <= i < walk.actions.len() && (#[trigger] walk.actions[i]).kind == kind && path::key(
            walk.actions[i].path,
        ) == path::key(at) {
        let i = choose|i: int|
            0 <= i < walk.actions.len() && (#[trigger] walk.actions[i]).kind == kind && path::key(
                walk.actions[i].path,
            ) == path::key(at);
        assert(crate::action::same_action(walk.actions[i], action));
    }
}

/// Whether a path lies strictly below a directory: it is longer, and agrees with
/// it component by component.
pub open spec fn strictly_below(at: Seq<PartView>, directory: Seq<PartView>) -> bool {
    &&& at.len() > directory.len()
    &&& forall|i: int|
        0 <= i < directory.len() ==> path::part_key(#[trigger] directory[i]) == path::part_key(
            at[i],
        )
}

pub proof fn lemma_strictly_below(at: Seq<PartView>, directory: Seq<PartView>)
    ensures
        path::beneath(at, directory) <==> strictly_below(at, directory),
{
    path::lemma_begins_with(at, directory);
    if at.len() == directory.len() && path::begins_with(at, directory) {
        assert(path::key(at) =~= path::key(directory));
    }
    if at.len() != directory.len() {
        assert(path::key(at).len() != path::key(directory).len());
    }
}

/// What becomes of a directory that a walk comes to for the first time. Each of
/// five names makes it an action of one kind; a repository, and a target below a
/// package, is passed over; of a target without a package only the debug
/// directory is looked at; and a directory of any other name is looked into for
/// a manifest, with no action as yet.
#[verifier::spinoff_prover]
#[verifier::rlimit(50)]
pub proof fn law_directories_are_taken_by_name(walk: WalkView, canonical: Seq<PartView>)
    requires
        walk.phase is Resolving,
        strictly_below(canonical, walk.root),
        !walk.visited.contains(path::key(canonical)),
    ensures
        ({
            let name = text::lossy_text(walk.phase->Resolving_name);
            let inside_cargo = walk.frames.last().inside_cargo;
            let after = walk.after(WalkReplyView::Canonical(canonical));
            &&& name == "debug"@ ==> after.phase is Listing && adds(
                walk.actions,
                after.actions,
                ActionKind::Debug,
                canonical,
            )
            &&& name == "node_modules"@ ==> after.phase is Listing && adds(
                walk.actions,
                after.actions,
                ActionKind::NodeModules,
                canonical,
            )
            &&& name == ".venv"@ ==> after.phase is Listing && adds(
                walk.actions,
                after.actions,
                ActionKind::PythonVenv,
                canonical,
            )
            &&& name == "scratch"@ || name == ".scratch"@ ==> after.phase is Listing && adds(
                walk.actions,
                after.actions,
                ActionKind::Scratch,
                canonical,
            )
            &&& name == ".git"@ || (name == "target"@ && inside_cargo) ==> after.phase is Listing
                && after.actions == walk.actions
            &&& name == "target"@ && !inside_cargo ==> after.phase == PhaseView::Probing {
                debug: path::pushed(
                    canonical,
                    ComponentView::Name(vstd::utf8::encode_utf8("debug"@)),
                ),
            } && after.actions == walk.actions
            &&& is_ordinary(name) ==> after.phase == PhaseView::Checking { directory: canonical }
                && after.actions == walk.actions
            &&& after.visited == walk.visited.insert(path::key(canonical))
            &&& after.errors == walk.errors
            &&& after.frames == walk.frames
        }),
{
    lemma_names_differ();
    lemma_strictly_below(canonical, walk.root);
    let seen = WalkView { visited: walk.visited.insert(path::key(canonical)), ..walk };
    lemma_adds(seen, ActionKind::Debug, canonical);
    lemma_adds(seen, ActionKind::NodeModules, canonical);
    lemma_adds(seen, ActionKind::PythonVenv, canonical);
    lemma_adds(seen, ActionKind::Scratch, canonical);
}

/// A directory that leads outside the root, or to the root, is refused; one that
/// has been seen before is passed over.
pub proof fn law_other_directories_are_refused(walk: WalkView, canonical: Seq<PartView>)
    requires
        walk.phase is Resolving,
    ensures
        ({
            let after = walk.after(WalkReplyView::Canonical(canonical));
            &&& !strictly_below(canonical, walk.root) ==> after == (WalkView {
                errors: walk.errors.push(
                    "refusing directory outside cleanup root: "@ + crate::format::display_text(
                        canonical,
                        walk.platform,
                    ),
                ),
                phase: PhaseView::Listing,
                ..walk
            })
            &&& strictly_below(canonical, walk.root) && walk.visited.contains(path::key(canonical))
                ==> after == (WalkView { phase: PhaseView::Listing, ..walk })
        }),
{
    lemma_strictly_below(canonical, walk.root);
}

/// The debug directory of a target without a package is an action if it is a
/// real directory inside the root, and nothing else in the target is.
pub proof fn law_orphans_give_their_debug_directory(walk: WalkView, canonical: Seq<PartView>)
    requires
        walk.phase is Probing || walk.phase is ResolvingDebug,
    ensures
        walk.phase matches PhaseView::Probing { debug } ==> {
            &&& walk.request() == WalkRequestView::IsRealDirectory(debug)
            &&& walk.after(WalkReplyView::Found(false)) == (WalkView {
                phase: PhaseView::Listing,
                ..walk
            })
            &&& walk.after(WalkReplyView::Found(true)) == (WalkView {
                phase: (PhaseView::ResolvingDebug { debug }),
                ..walk
            })
        },
        walk.phase matches PhaseView::ResolvingDebug { debug } ==> {
            let after = walk.after(WalkReplyView::Canonical(canonical));
            &&& walk.request() == WalkRequestView::Canonicalize(debug)
            &&& after.phase is Listing
            &&& strictly_below(canonical, walk.root) ==> adds(
                walk.actions,
                after.actions,
                ActionKind::Debug,
                canonical,
            ) && after.errors == walk.errors
            &&& !strictly_below(canonical, walk.root) ==> after.actions == walk.actions
                && after.errors == walk.errors.push(
                "refusing debug directory outside cleanup root: "@ + crate::format::display_text(
                    canonical,
                    walk.platform,
                ),
            )
        },
{
    lemma_strictly_below(canonical, walk.root);
    lemma_adds(walk, ActionKind::Debug, canonical);
}

/// A directory is a package if it has a file `Cargo.toml`. The outermost package
/// is an action, and no package inside one is; either way the directory is
/// walked, and what is in it is inside a package from there on.
pub proof fn law_the_outermost_package_counts(walk: WalkView, found: bool)
    requires
        walk.phase is Checking,
    ensures
        ({
            let directory = walk.phase->Checking_directory;
            let inside_cargo = walk.frames.last().inside_cargo;
            let after = walk.after(WalkReplyView::Found(found));
            &&& walk.request() == WalkRequestView::IsFile(
                path::pushed(
                    directory,
                    ComponentView::Name(vstd::utf8::encode_utf8("Cargo.toml"@)),
                ),
            )
            &&& found && !inside_cargo ==> adds(
                walk.actions,
                after.actions,
                ActionKind::Cargo,
                directory,
            )
            &&& !found || inside_cargo ==> after.actions == walk.actions
            &&& after.frames == walk.frames.push(
                FrameView { directory, inside_cargo: inside_cargo || found },
            )
            &&& after.phase is Opening
            &&& after.request() == WalkRequestView::Open(directory)
        }),
{
    lemma_adds(walk, ActionKind::Cargo, walk.phase->Checking_directory);
}

/// Only directories are looked at: a link or a file changes nothing, and a
/// directory is made canonical before anything else.
pub proof fn law_only_directories_are_looked_at(walk: WalkView, name: Seq<u8>, kind: EntryKind)
    requires
        walk.phase is Listing,
    ensures
        kind != EntryKind::Directory ==> walk.after(WalkReplyView::Entry { name, kind }) == walk,
        kind == EntryKind::Directory ==> {
            let after = walk.after(WalkReplyView::Entry { name, kind });
            let at = path::pushed(walk.frames.last().directory, ComponentView::Name(name));
            &&& after == (WalkView { phase: (PhaseView::Resolving { path: at, name }), ..walk })
            &&& after.request() == WalkRequestView::Canonicalize(at)
        },
{
}

/// A failure adds one line that names what failed, and the walk goes on with the
/// next entry, or behind the directory that could not be opened.
#[verifier::spinoff_prover]
#[verifier::rlimit(50)]
pub proof fn law_failures_to_read_are_told(walk: WalkView, error: Seq<char>, name: Seq<u8>)
    ensures
        ({
            let directory = walk.frames.last().directory;
            let shown = crate::format::display_text(directory, walk.platform);
            let entry = crate::format::display_text(
                path::pushed(directory, ComponentView::Name(name)),
                walk.platform,
            );
            let outer = walk.frames.drop_last();
            let left = if outer.len() == 0 {
                PhaseView::Finished
            } else {
                PhaseView::Listing
            };
            &&& walk.after(WalkReplyView::OpenFailed(error)) == (WalkView {
                errors: walk.errors.push("cannot read "@ + shown + ": "@ + error),
                frames: outer,
                phase: left,
                ..walk
            })
            &&& walk.after(WalkReplyView::NoMoreEntries) == (WalkView {
                frames: outer,
                phase: left,
                ..walk
            })
            &&& walk.after(WalkReplyView::EntryFailed(error)) == (WalkView {
                errors: walk.errors.push("cannot read an entry in "@ + shown + ": "@ + error),
                ..walk
            })
            &&& walk.after(WalkReplyView::EntryUnknown { name, error }) == (WalkView {
                errors: walk.errors.push("cannot inspect "@ + entry + ": "@ + error),
                ..walk
            })
            &&& walk.phase matches PhaseView::Resolving { path: at, name: _ } ==> walk.after(
                WalkReplyView::CanonicalFailed(error),
            ) == (WalkView {
                errors: walk.errors.push(
                    "cannot canonicalize "@ + crate::format::display_text(at, walk.platform)
                        + ": "@ + error,
                ),
                phase: PhaseView::Listing,
                ..walk
            })
            &&& walk.phase matches PhaseView::ResolvingDebug { debug } ==> walk.after(
                WalkReplyView::CanonicalFailed(error),
            ) == (WalkView {
                errors: walk.errors.push(
                    "cannot canonicalize "@ + crate::format::display_text(debug, walk.platform)
                        + ": "@ + error,
                ),
                phase: PhaseView::Listing,
                ..walk
            })
        }),
{
}

/// A walk begins by opening its root, which is an action exactly if it is a
/// package.
pub proof fn law_walks_begin_at_their_root(
    root: Seq<PartView>,
    root_is_cargo: bool,
    platform: Platform,
)
    ensures
        ({
            let walk = discover::begun(root, root_is_cargo, platform);
            &&& walk.request() == WalkRequestView::Open(root)
            &&& walk.frames == seq![FrameView { directory: root, inside_cargo: root_is_cargo }]
            &&& root_is_cargo ==> walk.actions == seq![
                ActionView { kind: ActionKind::Cargo, path: root },
            ]
            &&& !root_is_cargo ==> walk.actions.len() == 0
            &&& walk.errors.len() == 0
            &&& walk.visited == Set::<Seq<PartView>>::empty().insert(path::key(root))
            &&& walk.root == root
            &&& walk.platform == platform
        }),
{
}

/// Whether the answer at a place of a course of answers is about a directory of
/// which the name is known from the answer before it.
pub open spec fn named_directory(replies: Seq<WalkReplyView>, i: int, at: Seq<PartView>) -> bool {
    &&& 1 <= i < replies.len()
    &&& replies[i] == WalkReplyView::Canonical(at)
    &&& replies[i - 1] matches WalkReplyView::Entry { name: _, kind: EntryKind::Directory }
}

/// The name of the directory that an answer is about.
pub open spec fn name_before(replies: Seq<WalkReplyView>, i: int) -> Seq<char> {
    text::lossy_text(replies[i - 1]->Entry_name)
}

/// Whether there is a reason for an action among the answers up to a place: the
/// name of its directory, a manifest in a directory of an ordinary name, or a
/// debug directory in a target.
pub open spec fn is_reason(
    action: ActionView,
    replies: Seq<WalkReplyView>,
    i: int,
) -> bool {
    ||| named_directory(replies, i, action.path) && calls_for(name_before(replies, i), action.kind)
    ||| {
        &&& action.kind == ActionKind::Cargo
        &&& i + 1 < replies.len()
        &&& replies[i + 1] == WalkReplyView::Found(true)
        &&& named_directory(replies, i, action.path)
        &&& is_ordinary(name_before(replies, i))
    }
    ||| {
        &&& action.kind == ActionKind::Debug
        &&& i + 2 < replies.len()
        &&& replies[i + 1] == WalkReplyView::Found(true)
        &&& replies[i + 2] == WalkReplyView::Canonical(action.path)
        &&& replies[i] is Canonical
        &&& named_directory(replies, i, replies[i]->Canonical_0)
        &&& name_before(replies, i) == "target"@
    }
}

/// What the phase of a walk says about the last answers.
spec fn recalls(walk: WalkView, replies: Seq<WalkReplyView>) -> bool {
    let last = replies.len() - 1;
    match walk.phase {
        PhaseView::Resolving { path: at, name } => {
            &&& last >= 0
            &&& replies[last] == (WalkReplyView::Entry { name, kind: EntryKind::Directory })
        },
        PhaseView::Probing { debug } => {
            &&& last >= 1
            &&& replies[last] is Canonical
            &&& named_directory(replies, last, replies[last]->Canonical_0)
            &&& name_before(replies, last) == "target"@
        },
        PhaseView::ResolvingDebug { debug } => {
            &&& last >= 2
            &&& replies[last] == WalkReplyView::Found(true)
            &&& replies[last - 1] is Canonical
            &&& named_directory(replies, last - 1, replies[last - 1]->Canonical_0)
            &&& name_before(replies, last - 1) == "target"@
        },
        PhaseView::Checking { directory } => {
            &&& named_directory(replies, last, directory)
            &&& is_ordinary(name_before(replies, last))
        },
        _ => true,
    }
}

proof fn lemma_reason_stays(
    action: ActionView,
    replies: Seq<WalkReplyView>,
    reply: WalkReplyView,
    i: int,
)
    requires
        is_reason(action, replies, i),
    ensures
        is_reason(action, replies.push(reply), i),
{
    let longer = replies.push(reply);
    assert(0 <= i < replies.len());
    assert(longer[i] == replies[i]);
    if i >= 1 {
        assert(longer[i - 1] == replies[i - 1]);
    }
    if i + 1 < replies.len() {
        assert(longer[i + 1] == replies[i + 1]);
    }
    if i + 2 < replies.len() {
        assert(longer[i + 2] == replies[i + 2]);
    }
}

/// Nothing is found without a reason: an action other than a package is found
/// only for a directory of one of the five names, or for a debug directory in a
/// target, and a package only where there is a manifest in a directory of an
/// ordinary name, or in the root.
#[verifier::spinoff_prover]
#[verifier::rlimit(50)]
pub proof fn law_actions_have_reasons(
    root: Seq<PartView>,
    root_is_cargo: bool,
    platform: Platform,
    replies: Seq<WalkReplyView>,
)
    requires
        walk_on_disk::apt(discover::begun(root, root_is_cargo, platform), replies),
    ensures
        ({
            let found = walk_on_disk::answered(
                discover::begun(root, root_is_cargo, platform),
                replies,
            ).actions;
            forall|k: int|
                0 <= k < found.len() ==> {
                    ||| root_is_cargo && (#[trigger] found[k]) == (ActionView {
                        kind: ActionKind::Cargo,
                        path: root,
                    })
                    ||| exists|i: int| #[trigger] is_reason(found[k], replies, i)
                }
        }),
{
    lemma_reasons(root, root_is_cargo, platform, replies);
}

spec fn reasoned(
    found: Seq<ActionView>,
    root: Seq<PartView>,
    root_is_cargo: bool,
    replies: Seq<WalkReplyView>,
) -> bool {
    forall|k: int|
        0 <= k < found.len() ==> {
            ||| root_is_cargo && (#[trigger] found[k]) == (ActionView {
                kind: ActionKind::Cargo,
                path: root,
            })
            ||| exists|i: int| #[trigger] is_reason(found[k], replies, i)
        }
}

#[verifier::spinoff_prover]
#[verifier::rlimit(50)]
proof fn lemma_reasons(
    root: Seq<PartView>,
    root_is_cargo: bool,
    platform: Platform,
    replies: Seq<WalkReplyView>,
)
    requires
        walk_on_disk::apt(discover::begun(root, root_is_cargo, platform), replies),
    ensures
        ({
            let walk = walk_on_disk::answered(
                discover::begun(root, root_is_cargo, platform),
                replies,
            );
            reasoned(walk.actions, root, root_is_cargo, replies) && recalls(walk, replies)
        }),
    decreases replies.len(),
{
    let start = discover::begun(root, root_is_cargo, platform);
    if replies.len() > 0 {
        let earlier = replies.drop_last();
        let reply = replies.last();
        let before = walk_on_disk::answered(start, earlier);
        let after = before.after(reply);
        lemma_reasons(root, root_is_cargo, platform, earlier);
        assert(replies =~= earlier.push(reply));
        lemma_recalls(before, earlier, reply);
        assert forall|k: int| 0 <= k < after.actions.len() implies {
            ||| root_is_cargo && (#[trigger] after.actions[k]) == (ActionView {
                kind: ActionKind::Cargo,
                path: root,
            })
            ||| exists|i: int| #[trigger] is_reason(after.actions[k], replies, i)
        } by {
            if k < before.actions.len() {
                assert(after.actions[k] == before.actions[k]);
                if !(root_is_cargo && before.actions[k] == (ActionView {
                    kind: ActionKind::Cargo,
                    path: root,
                })) {
                    let i = choose|i: int| #[trigger] is_reason(before.actions[k], earlier, i);
                    lemma_reason_stays(before.actions[k], earlier, reply, i);
                }
            } else {
                lemma_new_reason(before, earlier, reply);
            }
        }
    }
}

proof fn lemma_recalls(before: WalkView, earlier: Seq<WalkReplyView>, reply: WalkReplyView)
    requires
        recalls(before, earlier),
        before.awaits(reply),
    ensures
        recalls(before.after(reply), earlier.push(reply)),
        before.after(reply).actions.len() <= before.actions.len() + 1,
        forall|k: int|
            0 <= k < before.actions.len() ==> #[trigger] before.after(reply).actions[k]
                == before.actions[k],
{
    lemma_names_differ();
    let replies = earlier.push(reply);
    assert(replies[replies.len() - 1] == reply);
    assert(forall|i: int| 0 <= i < earlier.len() ==> replies[i] == earlier[i]);
}

proof fn lemma_new_reason(before: WalkView, earlier: Seq<WalkReplyView>, reply: WalkReplyView)
    requires
        recalls(before, earlier),
        before.awaits(reply),
        before.after(reply).actions.len() > before.actions.len(),
    ensures
        exists|i: int| #[trigger]
            is_reason(before.after(reply).actions.last(), earlier.push(reply), i),
{
    lemma_names_differ();
    let replies = earlier.push(reply);
    let last = replies.len() - 1;
    let action = before.after(reply).actions.last();
    assert(replies[last] == reply);
    assert(forall|i: int| 0 <= i < earlier.len() ==> replies[i] == earlier[i]);
    match before.phase {
        PhaseView::Resolving { path: at, name } => {
            assert(is_reason(action, replies, last));
        },
        PhaseView::ResolvingDebug { debug } => {
            assert(is_reason(action, replies, last - 2));
        },
        PhaseView::Checking { directory } => {
            assert(is_reason(action, replies, last - 1));
        },
        _ => {},
    }
}

/// Whether a directory is come to when the entries of a directory are walked:
/// it is one of them, or is come to in one of them that has an ordinary name and
/// can be read. With it goes whether it is inside a package.
pub open spec fn comes_to(
    nodes: Seq<DiskNode>,
    directory: Seq<PartView>,
    inside_cargo: bool,
    ground: Ground,
    node: DiskNode,
    around: Seq<PartView>,
    inside: bool,
) -> bool
    decreases nodes,
{
    nodes.len() > 0 && {
        ||| comes_to(nodes.drop_last(), directory, inside_cargo, ground, node, around, inside)
        ||| {
            let here = nodes.last().place(directory);
            match nodes.last() {
                DiskNode::Directory { name, children } => {
                    &&& ground.reaches(here)
                    &&& {
                        ||| node == nodes.last() && around == directory && inside == inside_cargo
                        ||| {
                            &&& is_ordinary(text::lossy_text(name))
                            &&& !ground.closed.contains(here)
                            &&& comes_to(
                                children,
                                here,
                                inside_cargo || walk_on_disk::has_manifest(children, here, ground),
                                ground,
                                node,
                                around,
                                inside,
                            )
                        }
                    }
                },
                _ => false,
            }
        }
    }
}

/// What a directory that is come to adds to what is found.
pub open spec fn is_found(
    action: ActionView,
    node: DiskNode,
    around: Seq<PartView>,
    inside: bool,
    ground: Ground,
) -> bool {
    let here = node.place(around);
    let name = text::lossy_text(node.name());
    let debug = path::pushed(here, ComponentView::Name(vstd::utf8::encode_utf8("debug"@)));
    ||| calls_for(name, action.kind) && action.path == here
    ||| {
        &&& is_ordinary(name)
        &&& node is Directory
        &&& walk_on_disk::has_manifest(node->children, here, ground)
        &&& !inside
        &&& action == (ActionView { kind: ActionKind::Cargo, path: here })
    }
    ||| {
        &&& name == "target"@
        &&& !inside
        &&& node is Directory
        &&& walk_on_disk::has_debug(node->children, here, ground)
        &&& !ground.lost.contains(debug)
        &&& action == (ActionView { kind: ActionKind::Debug, path: debug })
    }
}

/// Whether an action is found for a directory that is come to.
pub open spec fn some_name_calls_for(
    nodes: Seq<DiskNode>,
    directory: Seq<PartView>,
    inside_cargo: bool,
    ground: Ground,
    action: ActionView,
) -> bool {
    exists|node: DiskNode, around: Seq<PartView>, inside: bool|
        #[trigger] comes_to(nodes, directory, inside_cargo, ground, node, around, inside)
            && is_found(action, node, around, inside, ground)
}

/// All that is found in a directory tree, and nothing else, comes from the names
/// of the directories that are come to: an action of its kind for each of five
/// names, one for the outermost package, and one for the debug directory of a
/// target without a package.
#[verifier::spinoff_prover]
#[verifier::rlimit(50)]
pub proof fn law_walks_find_by_name(
    nodes: Seq<DiskNode>,
    directory: Seq<PartView>,
    inside_cargo: bool,
    ground: Ground,
    action: ActionView,
)
    ensures
        walk_on_disk::called_for(nodes, directory, inside_cargo, ground).contains(action)
            <==> some_name_calls_for(nodes, directory, inside_cargo, ground, action),
    decreases nodes,
{
    let found = walk_on_disk::called_for(nodes, directory, inside_cargo, ground);
    if nodes.len() > 0 {
        let earlier = nodes.drop_last();
        let head = walk_on_disk::called_for(earlier, directory, inside_cargo, ground);
        let tail = walk_on_disk::called_for_by(nodes.last(), directory, inside_cargo, ground);
        law_walks_find_by_name(earlier, directory, inside_cargo, ground, action);
        lemma_contains_either(head, tail, action);
        assert(found == head + tail);
        let last = nodes.last();
        let here = last.place(directory);
        lemma_names_differ();
        match last {
            DiskNode::Directory { name, children } => {
                let present = walk_on_disk::has_manifest(children, here, ground);
                let inner = walk_on_disk::called_for(
                    children,
                    here,
                    inside_cargo || present,
                    ground,
                );
                let front = walk_on_disk::package(here, present && !inside_cargo);
                law_walks_find_by_name(children, here, inside_cargo || present, ground, action);
                law_names_say_what_to_do(text::lossy_text(name), inside_cargo);
                lemma_contains_either(front, inner, action);
                lemma_contains_either(front, Seq::empty(), action);
                lemma_one(front, action, here, present && !inside_cargo);
                lemma_last_found(nodes, directory, inside_cargo, ground, action);
            },
            _ => {
                lemma_last_found(nodes, directory, inside_cargo, ground, action);
            },
        }
        if head.contains(action) {
            let (node, around, inside) = choose|
                node: DiskNode,
                around: Seq<PartView>,
                inside: bool,
            |
                #[trigger] comes_to(earlier, directory, inside_cargo, ground, node, around, inside)
                    && is_found(action, node, around, inside, ground);
            assert(comes_to(nodes, directory, inside_cargo, ground, node, around, inside));
        }
        if exists|node: DiskNode, around: Seq<PartView>, inside: bool|
            #[trigger] comes_to(nodes, directory, inside_cargo, ground, node, around, inside)
                && is_found(action, node, around, inside, ground) {
            let (node, around, inside) = choose|
                node: DiskNode,
                around: Seq<PartView>,
                inside: bool,
            |
                #[trigger] comes_to(nodes, directory, inside_cargo, ground, node, around, inside)
                    && is_found(action, node, around, inside, ground);
            if !comes_to(earlier, directory, inside_cargo, ground, node, around, inside) {
                assert(comes_to_last(nodes, directory, inside_cargo, ground, node, around, inside));
            }
        }
    }
}

/// Whether a directory is come to in the last entry.
spec fn comes_to_last(
    nodes: Seq<DiskNode>,
    directory: Seq<PartView>,
    inside_cargo: bool,
    ground: Ground,
    node: DiskNode,
    around: Seq<PartView>,
    inside: bool,
) -> bool {
    let here = nodes.last().place(directory);
    match nodes.last() {
        DiskNode::Directory { name, children } => {
            &&& ground.reaches(here)
            &&& {
                ||| node == nodes.last() && around == directory && inside == inside_cargo
                ||| {
                    &&& is_ordinary(text::lossy_text(name))
                    &&& !ground.closed.contains(here)
                    &&& comes_to(
                        children,
                        here,
                        inside_cargo || walk_on_disk::has_manifest(children, here, ground),
                        ground,
                        node,
                        around,
                        inside,
                    )
                }
            }
        },
        _ => false,
    }
}

proof fn lemma_contains_either(head: Seq<ActionView>, tail: Seq<ActionView>, action: ActionView)
    ensures
        (head + tail).contains(action) <==> head.contains(action) || tail.contains(action),
{
    let both = head + tail;
    if head.contains(action) {
        let i = choose|i: int| 0 <= i < head.len() && head[i] == action;
        assert(both[i] == action);
    }
    if tail.contains(action) {
        let i = choose|i: int| 0 <= i < tail.len() && tail[i] == action;
        assert(both[head.len() + i] == action);
    }
    if both.contains(action) {
        let i = choose|i: int| 0 <= i < both.len() && both[i] == action;
        if i < head.len() {
            assert(head[i] == action);
        } else {
            assert(tail[i - head.len()] == action);
        }
    }
}

proof fn lemma_one(
    front: Seq<ActionView>,
    action: ActionView,
    here: Seq<PartView>,
    present: bool,
)
    requires
        front == walk_on_disk::package(here, present),
    ensures
        front.contains(action) <==> present && action == (ActionView {
            kind: ActionKind::Cargo,
            path: here,
        }),
{
    if present {
        assert(front[0] == (ActionView { kind: ActionKind::Cargo, path: here }));
    }
}

/// The law for the last entry of a directory, given the one for what is in it.
proof fn lemma_last_found(
    nodes: Seq<DiskNode>,
    directory: Seq<PartView>,
    inside_cargo: bool,
    ground: Ground,
    action: ActionView,
)
    requires
        nodes.len() > 0,
        nodes.last() matches DiskNode::Directory { name, children } ==> {
            let here = nodes.last().place(directory);
            let deeper = inside_cargo || walk_on_disk::has_manifest(children, here, ground);
            walk_on_disk::called_for(children, here, deeper, ground).contains(action)
                <==> some_name_calls_for(children, here, deeper, ground, action)
        },
    ensures
        walk_on_disk::called_for_by(nodes.last(), directory, inside_cargo, ground).contains(action)
            <==> exists|node: DiskNode, around: Seq<PartView>, inside: bool|
            #[trigger] comes_to_last(nodes, directory, inside_cargo, ground, node, around, inside)
                && is_found(action, node, around, inside, ground),
        forall|node: DiskNode, around: Seq<PartView>, inside: bool|
            #[trigger] comes_to_last(nodes, directory, inside_cargo, ground, node, around, inside)
                ==> comes_to(nodes, directory, inside_cargo, ground, node, around, inside),
{
    let last = nodes.last();
    let here = last.place(directory);
    let tail = walk_on_disk::called_for_by(last, directory, inside_cargo, ground);
    lemma_names_differ();
    match last {
        DiskNode::Directory { name, children } => {
            let title = text::lossy_text(name);
            let present = walk_on_disk::has_manifest(children, here, ground);
            let deeper = inside_cargo || present;
            let inner = walk_on_disk::called_for(children, here, deeper, ground);
            let front = walk_on_disk::package(here, present && !inside_cargo);
            law_names_say_what_to_do(title, inside_cargo);
            lemma_contains_either(front, inner, action);
            lemma_contains_either(front, Seq::empty(), action);
            lemma_one(front, action, here, present && !inside_cargo);
            if ground.reaches(here) {
                assert(comes_to_last(
                    nodes,
                    directory,
                    inside_cargo,
                    ground,
                    last,
                    directory,
                    inside_cargo,
                ));
                lemma_itself_found(last, directory, inside_cargo, ground, action);
                if is_ordinary(title) && !ground.closed.contains(here) {
                    lemma_deeper_found(nodes, directory, inside_cargo, ground, action, deeper);
                }
            }
        },
        _ => {},
    }
}

/// What is come to in the last entry, or below it.
proof fn lemma_deeper_found(
    nodes: Seq<DiskNode>,
    directory: Seq<PartView>,
    inside_cargo: bool,
    ground: Ground,
    action: ActionView,
    deeper: bool,
)
    requires
        nodes.len() > 0,
        nodes.last() is Directory,
        ground.reaches(nodes.last().place(directory)),
        is_ordinary(text::lossy_text(nodes.last().name())),
        !ground.closed.contains(nodes.last().place(directory)),
        deeper == (inside_cargo || walk_on_disk::has_manifest(
            nodes.last()->children,
            nodes.last().place(directory),
            ground,
        )),
    ensures
        (is_found(action, nodes.last(), directory, inside_cargo, ground) || some_name_calls_for(
            nodes.last()->children,
            nodes.last().place(directory),
            deeper,
            ground,
            action,
        )) <==> exists|node: DiskNode, around: Seq<PartView>, inside: bool|
            #[trigger] comes_to_last(nodes, directory, inside_cargo, ground, node, around, inside)
                && is_found(action, node, around, inside, ground),
{
    let last = nodes.last();
    let here = last.place(directory);
    let children = last->children;
    assert(comes_to_last(nodes, directory, inside_cargo, ground, last, directory, inside_cargo));
    if some_name_calls_for(children, here, deeper, ground, action) {
        let (node, around, inside) = choose|
            node: DiskNode,
            around: Seq<PartView>,
            inside: bool,
        |
            #[trigger] comes_to(children, here, deeper, ground, node, around, inside)
                && is_found(action, node, around, inside, ground);
        assert(comes_to_last(nodes, directory, inside_cargo, ground, node, around, inside));
    }
    if exists|node: DiskNode, around: Seq<PartView>, inside: bool|
        #[trigger] comes_to_last(nodes, directory, inside_cargo, ground, node, around, inside)
            && is_found(action, node, around, inside, ground) {
        let (node, around, inside) = choose|
            node: DiskNode,
            around: Seq<PartView>,
            inside: bool,
        |
            #[trigger] comes_to_last(nodes, directory, inside_cargo, ground, node, around, inside)
                && is_found(action, node, around, inside, ground);
        if !(node == last && around == directory && inside == inside_cargo) {
            assert(comes_to(children, here, deeper, ground, node, around, inside));
        }
    }
}

/// What a directory that is reached adds by itself, and what is found in it.
proof fn lemma_itself_found(
    node: DiskNode,
    directory: Seq<PartView>,
    inside_cargo: bool,
    ground: Ground,
    action: ActionView,
)
    requires
        node is Directory,
        ground.reaches(node.place(directory)),
    ensures
        ({
            let here = node.place(directory);
            let deeper = inside_cargo || walk_on_disk::has_manifest(node->children, here, ground);
            walk_on_disk::called_for_by(node, directory, inside_cargo, ground).contains(action)
                <==> {
                ||| is_found(action, node, directory, inside_cargo, ground)
                ||| {
                    &&& is_ordinary(text::lossy_text(node.name()))
                    &&& !ground.closed.contains(here)
                    &&& walk_on_disk::called_for(
                        node->children,
                        here,
                        deeper,
                        ground,
                    ).contains(action)
                }
            }
        }),
{
    let here = node.place(directory);
    let title = text::lossy_text(node.name());
    let present = walk_on_disk::has_manifest(node->children, here, ground);
    let inner = walk_on_disk::called_for(node->children, here, inside_cargo || present, ground);
    let front = walk_on_disk::package(here, present && !inside_cargo);
    let tail = walk_on_disk::called_for_by(node, directory, inside_cargo, ground);
    let debug = path::entry(here, "debug"@);
    lemma_names_differ();
    law_names_say_what_to_do(title, inside_cargo);
    lemma_contains_either(front, inner, action);
    lemma_contains_either(front, Seq::empty(), action);
    lemma_one(front, action, here, present && !inside_cargo);
    if tail.len() == 1 {
        assert(tail.contains(action) <==> tail[0] == action) by {
            if tail[0] == action {
                assert(tail.contains(action));
            }
        }
    }
    match discover::verdict(title, inside_cargo) {
        discover::Verdict::Reclaim(kind) => {
            assert(tail == seq![ActionView { kind, path: here }]);
            assert(calls_for(title, kind));
            assert(calls_for(title, action.kind) <==> action.kind == kind) by {
                assert(discover::verdict(title, inside_cargo) == discover::Verdict::Reclaim(
                    action.kind,
                ) <==> calls_for(title, action.kind));
            }
        },
        _ => {
            assert(!calls_for(title, action.kind)) by {
                assert(discover::verdict(title, inside_cargo) == discover::Verdict::Reclaim(
                    action.kind,
                ) <==> calls_for(title, action.kind));
            }
        },
    }
}

/// A walk takes exactly the answers to what it asks for.
pub proof fn law_walks_take_answers(walk: WalkView, reply: WalkReplyView)
    ensures
        walk.awaits(reply) <==> match walk.request() {
            WalkRequestView::Open(_) => reply is Opened || reply is OpenFailed,
            WalkRequestView::NextEntry => reply is Entry || reply is EntryUnknown
                || reply is EntryFailed || reply is NoMoreEntries,
            WalkRequestView::Canonicalize(_) => reply is Canonical || reply is CanonicalFailed,
            WalkRequestView::IsRealDirectory(_) => reply is Found,
            WalkRequestView::IsFile(_) => reply is Found,
            WalkRequestView::Finished => false,
        },
{
}

} // verus!
