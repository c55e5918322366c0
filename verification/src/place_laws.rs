//! How paths are compared, put together and written.

use crate::action;
use crate::action::ActionView;
use crate::execute;
use crate::execute::{ListedEntry, NearestView};
use crate::path;
use crate::path::{
    ComponentView, PartView, Place, Platform, PrefixView, TreePath, VolumeView,
};
use crate::path_lock;
use crate::text;
use vstd::prelude::*;

verus! {

/// Whether two letters are the same but for their case.
pub open spec fn same_letter(left: u8, right: u8) -> bool {
    ||| left == right
    ||| 'a' as u8 <= left <= 'z' as u8 && left == right + 32
    ||| 'a' as u8 <= right <= 'z' as u8 && right == left + 32
}

/// Whether two prefixes name the same volume. Only drive letters are compared
/// without their case.
pub open spec fn same_volume(left: VolumeView, right: VolumeView) -> bool {
    match (left, right) {
        (VolumeView::Verbatim(one), VolumeView::Verbatim(other)) => one == other,
        (
            VolumeView::VerbatimShare(server, share),
            VolumeView::VerbatimShare(other, also),
        ) => server == other && share == also,
        (VolumeView::VerbatimDrive(one), VolumeView::VerbatimDrive(other)) => same_letter(
            one,
            other,
        ),
        (VolumeView::Device(one), VolumeView::Device(other)) => one == other,
        (VolumeView::Share(server, share), VolumeView::Share(other, also)) => server == other
            && share == also,
        (VolumeView::Drive(one), VolumeView::Drive(other)) => same_letter(one, other),
        _ => false,
    }
}

/// Whether two parts mean the same, however they are written.
pub open spec fn same_part(left: PartView, right: PartView) -> bool {
    match (left.component, right.component) {
        (ComponentView::Prefix(one), ComponentView::Prefix(other)) => same_volume(
            one.volume,
            other.volume,
        ),
        (ComponentView::Root(_), ComponentView::Root(_)) => true,
        (ComponentView::Current, ComponentView::Current) => true,
        (ComponentView::Parent, ComponentView::Parent) => true,
        (ComponentView::Name(one), ComponentView::Name(other)) => one == other,
        _ => false,
    }
}

/// Whether two paths have the same first parts.
pub open spec fn agree(left: Seq<PartView>, right: Seq<PartView>, count: int) -> bool {
    forall|i: int| 0 <= i < count ==> same_part(#[trigger] left[i], right[i])
}

proof fn lemma_upper(left: u8, right: u8)
    ensures
        path::upper(left) == path::upper(right) <==> same_letter(left, right),
{
}

#[verifier::spinoff_prover]
#[verifier::rlimit(50)]
proof fn lemma_same_part(left: PartView, right: PartView)
    ensures
        path::part_key(left) == path::part_key(right) <==> same_part(left, right),
{
    match (left.component, right.component) {
        (ComponentView::Prefix(one), ComponentView::Prefix(other)) => {
            match (one.volume, other.volume) {
                (VolumeView::VerbatimDrive(a), VolumeView::VerbatimDrive(b)) => lemma_upper(a, b),
                (VolumeView::Drive(a), VolumeView::Drive(b)) => lemma_upper(a, b),
                _ => {},
            }
            let a = PrefixView { shown: Seq::empty(), volume: path::folded(one.volume) };
            let b = PrefixView { shown: Seq::empty(), volume: path::folded(other.volume) };
            assert(path::part_key(left).component == ComponentView::Prefix(a));
            assert(path::part_key(right).component == ComponentView::Prefix(b));
            if same_volume(one.volume, other.volume) {
                assert(a == b);
            } else {
                assert(a.volume != b.volume);
            }
        },
        _ => {},
    }
}

proof fn lemma_agree(left: Seq<PartView>, right: Seq<PartView>)
    ensures
        path::begins_with(left, right) <==> right.len() <= left.len() && agree(
            left,
            right,
            right.len() as int,
        ),
{
    path::lemma_begins_with(left, right);
    assert forall|i: int| 0 <= i < right.len() implies (path::part_key(#[trigger] right[i])
        == path::part_key(left[i])) == same_part(left[i], right[i]) by {
        lemma_same_part(left[i], right[i]);
    }
    if right.len() <= left.len() && agree(left, right, right.len() as int) {
        assert forall|i: int| 0 <= i < right.len() implies path::part_key(#[trigger] right[i])
            == path::part_key(left[i]) by {
            assert(same_part(left[i], right[i]));
        }
    }
    if path::begins_with(left, right) {
        assert forall|i: int| 0 <= i < right.len() implies same_part(
            #[trigger] left[i],
            right[i],
        ) by {
            assert(path::part_key(right[i]) == path::part_key(left[i]));
        }
    }
}

proof fn lemma_agree_back(left: Seq<PartView>, right: Seq<PartView>, count: int)
    requires
        agree(left, right, count),
    ensures
        agree(right, left, count),
{
    assert forall|i: int| 0 <= i < count implies same_part(#[trigger] right[i], left[i]) by {
        assert(same_part(left[i], right[i]));
    }
}

proof fn lemma_alike(left: Seq<PartView>, right: Seq<PartView>)
    ensures
        path::alike(left, right) <==> left.len() == right.len() && path::begins_with(left, right),
{
    assert(path::key(left).len() == left.len() && path::key(right).len() == right.len());
    if left.len() == right.len() && path::begins_with(left, right) {
        assert(path::key(left).subrange(0, left.len() as int) =~= path::key(left));
    }
    if path::alike(left, right) {
        path::lemma_begins_with_alike(left, right);
    }
}

/// Paths are compared part by part: one is another if they have the same parts,
/// lies at or below one whose parts it begins with, strictly if it has more, and
/// overlaps one with which it agrees as far as both go.
pub proof fn law_paths_are_compared_by_parts(left: Seq<PartView>, right: Seq<PartView>)
    ensures
        ({
            let shared = if left.len() < right.len() {
                left.len() as int
            } else {
                right.len() as int
            };
            &&& path::alike(left, right) <==> left.len() == right.len() && agree(
                left,
                right,
                shared,
            )
            &&& path::begins_with(left, right) <==> left.len() >= right.len() && agree(
                left,
                right,
                shared,
            )
            &&& path::beneath(left, right) <==> left.len() > right.len() && agree(
                left,
                right,
                shared,
            )
            &&& path::overlap(left, right) <==> agree(left, right, shared)
        }),
{
    lemma_agree(left, right);
    lemma_agree(right, left);
    lemma_alike(left, right);
    if left.len() < right.len() {
        if agree(left, right, left.len() as int) {
            lemma_agree_back(left, right, left.len() as int);
        }
        if agree(right, left, left.len() as int) {
            lemma_agree_back(right, left, left.len() as int);
        }
    }
    if left.len() == right.len() && path::begins_with(right, left) {
        lemma_agree_back(right, left, left.len() as int);
    }
}

/// Two actions are the same if they are of one kind and at one place.
pub proof fn law_actions_are_told_apart(left: ActionView, right: ActionView)
    ensures
        action::same_action(left, right) <==> {
            &&& left.kind == right.kind
            &&& left.path.len() == right.path.len()
            &&& agree(left.path, right.path, left.path.len() as int)
        },
{
    law_paths_are_compared_by_parts(left.path, right.path);
}

/// An entry of a directory has the name it was given, one part more than the
/// directory, and the directory for its parent.
pub proof fn law_entries_are_below_their_directory(directory: Seq<PartView>, name: Seq<u8>)
    ensures
        ({
            let child = path::child(directory, name);
            &&& child.len() == directory.len() + 1
            &&& path::name_of(child) == Some(name)
            &&& child.last() == (PartView {
                component: ComponentView::Name(name),
                gap: Seq::empty(),
            })
            &&& path::beneath(child, directory)
            &&& !path::begins_with(directory, child)
            &&& path::parent_of(child) matches Some(parent) && path::alike(parent, directory)
        }),
{
    let child = path::child(directory, name);
    path::lemma_key_pushed(directory, ComponentView::Name(name));
    assert(path::key(child).drop_last() =~= path::key(directory));
    assert(path::key(child.drop_last()) =~= path::key(child).drop_last());
    path::lemma_key_trimmed(child.drop_last());
    assert(path::key(child).subrange(0, directory.len() as int) =~= path::key(directory));
    assert(path::key(child).len() != path::key(directory).len());
}

/// A directory whose prefix is not verbatim is kept as it is written when an
/// entry is put behind it; one whose prefix is verbatim keeps its parts.
pub proof fn law_directories_are_kept_as_written(directory: Seq<PartView>, name: Seq<u8>)
    ensures
        ({
            let child = path::child(directory, name);
            let first = directory[0].component;
            &&& directory.len() == 0 || !(first is Prefix) ==> child.drop_last() == directory
            &&& directory.len() > 0 && first is Prefix && (first->Prefix_0.volume is Device
                || first->Prefix_0.volume is Share || first->Prefix_0.volume is Drive)
                ==> child.drop_last() == directory
            &&& forall|i: int|
                0 <= i < directory.len() ==> same_part(#[trigger] child[i], directory[i])
            &&& forall|i: int|
                0 <= i < directory.len() && !(directory[i].component is Root) ==> (
                #[trigger] child[i]).component == directory[i].component
        }),
{
    let child = path::child(directory, name);
    assert(!path::verbatim(directory) ==> child.drop_last() =~= directory);
    assert forall|i: int| 0 <= i < directory.len() implies same_part(
        #[trigger] child[i],
        directory[i],
    ) by {
        lemma_same_part(child[i], directory[i]);
    }
}

/// A directory whose prefix is verbatim is written anew when an entry is put
/// behind it: its root as a backslash, every other part as it was, and nothing
/// behind any of them.
pub proof fn law_verbatim_directories_are_written_anew(directory: Seq<PartView>, name: Seq<u8>)
    requires
        directory.len() > 0,
        directory[0].component is Prefix,
        directory[0].component->Prefix_0.volume is Verbatim
            || directory[0].component->Prefix_0.volume is VerbatimShare
            || directory[0].component->Prefix_0.volume is VerbatimDrive,
    ensures
        forall|i: int|
            0 <= i < directory.len() ==> (#[trigger] path::child(directory, name)[i]).gap.len() == 0,
        forall|i: int|
            0 <= i < directory.len() ==> (#[trigger] path::child(directory, name)[i]).component
                == (if directory[i].component is Root {
                ComponentView::Root(seq!['\\' as u8])
            } else {
                directory[i].component
            }),
{
}

/// Trimming a path takes away what stands behind its last part, and nothing else.
pub proof fn law_ends_are_trimmed(place: Seq<PartView>)
    ensures
        path::trimmed(place).len() == place.len(),
        forall|i: int|
            0 <= i < place.len() - 1 ==> #[trigger] path::trimmed(place)[i] == place[i],
        place.len() > 0 ==> path::trimmed(place).last().component == place.last().component
            && path::trimmed(place).last().gap.len() == 0,
        path::parent_of(place) matches Some(parent) ==> {
            &&& forall|i: int| 0 <= i < parent.len() - 1 ==> #[trigger] parent[i] == place[i]
            &&& parent.len() > 0 ==> parent.last().gap.len() == 0
        },
{
}

/// Components that are put behind a path follow it, part by part.
pub proof fn law_paths_are_put_together(base: Seq<PartView>, rest: Seq<PartView>)
    ensures
        path::extended(base, rest).len() == base.len() + rest.len(),
        agree(path::extended(base, rest), base + rest, (base.len() + rest.len()) as int),
{
    path::lemma_key_extended(base, rest);
    let whole = path::extended(base, rest);
    assert(path::key(whole).len() == whole.len());
    assert(path::key(base + rest) =~= path::key(base) + path::key(rest));
    law_paths_are_compared_by_parts(whole, base + rest);
}

/// Everything but a root, a prefix and nothing has a parent: itself without its
/// last part.
pub proof fn law_parents_lack_the_last_part(place: Seq<PartView>)
    ensures
        ({
            let last = place.last().component;
            &&& place.len() == 0 || last is Root || last is Prefix ==> path::parent_of(place) is None
            &&& place.len() > 0 && (last is Name || last is Current || last is Parent)
                ==> path::parent_of(place) is Some
            &&& path::parent_of(place) matches Some(parent) ==> {
                &&& parent.len() == place.len() - 1
                &&& forall|i: int|
                    0 <= i < parent.len() ==> (#[trigger] parent[i]).component
                        == place[i].component
                &&& path::beneath(place, parent)
            }
            &&& place.len() > 0 && last is Name ==> path::name_of(place) == Some(last->Name_0)
            &&& place.len() == 0 || !(last is Name) ==> path::name_of(place) is None
        }),
{
    if let Some(parent) = path::parent_of(place) {
        assert forall|i: int| 0 <= i < parent.len() implies same_part(
            #[trigger] place[i],
            parent[i],
        ) by {
            lemma_same_part(place[i], parent[i]);
        }
        law_paths_are_compared_by_parts(place, parent);
    }
}

/// Texts are put in order by their first bytes that differ; what another begins
/// with comes before it.
pub proof fn law_bytes_are_put_in_order(left: Seq<u8>, right: Seq<u8>, shared: nat)
    requires
        shared <= left.len(),
        shared <= right.len(),
        forall|i: int| 0 <= i < shared ==> #[trigger] left[i] == right[i],
    ensures
        shared < left.len() && shared < right.len() && left[shared as int] < right[shared as int]
            ==> path::bytes_place(left, right) == Place::Before,
        shared < left.len() && shared < right.len() && left[shared as int] > right[shared as int]
            ==> path::bytes_place(left, right) == Place::After,
        shared == left.len() && shared < right.len() ==> path::bytes_place(left, right)
            == Place::Before,
        shared < left.len() && shared == right.len() ==> path::bytes_place(left, right)
            == Place::After,
        shared == left.len() && shared == right.len() ==> path::bytes_place(left, right)
            == Place::Same,
    decreases shared,
{
    if shared > 0 {
        assert(left[0] == right[0]);
        let (a, b) = (left.drop_first(), right.drop_first());
        assert forall|i: int| 0 <= i < shared - 1 implies #[trigger] a[i] == b[i] by {
            assert(left[i + 1] == right[i + 1]);
        }
        law_bytes_are_put_in_order(a, b, (shared - 1) as nat);
    }
}

/// Paths are put in order by their first parts that differ; what another begins
/// with comes before it.
pub proof fn law_paths_are_put_in_order(left: Seq<PartView>, right: Seq<PartView>, shared: nat)
    requires
        shared <= left.len(),
        shared <= right.len(),
        agree(left, right, shared as int),
    ensures
        shared < left.len() && shared < right.len() && !same_part(
            left[shared as int],
            right[shared as int],
        ) ==> path::path_place(left, right) == path::part_place(
            left[shared as int],
            right[shared as int],
        ),
        shared == left.len() && shared < right.len() ==> path::path_place(left, right)
            == Place::Before,
        shared < left.len() && shared == right.len() ==> path::path_place(left, right)
            == Place::After,
        shared == left.len() && shared == right.len() ==> path::path_place(left, right)
            == Place::Same,
    decreases shared,
{
    if shared > 0 {
        assert(same_part(left[0], right[0]));
        lemma_same_part(left[0], right[0]);
        lemma_part_place(left[0], right[0]);
        let (a, b) = (left.drop_first(), right.drop_first());
        assert forall|i: int| 0 <= i < shared - 1 implies same_part(#[trigger] a[i], b[i]) by {
            assert(same_part(left[i + 1], right[i + 1]));
        }
        law_paths_are_put_in_order(a, b, (shared - 1) as nat);
    } else if left.len() > 0 && right.len() > 0 {
        lemma_same_part(left[0], right[0]);
        lemma_part_place(left[0], right[0]);
    }
}

proof fn lemma_part_place(left: PartView, right: PartView)
    ensures
        path::part_place(left, right) == Place::Same <==> path::part_key(left) == path::part_key(
            right,
        ),
{
    assert(seq![left].drop_first() =~= Seq::empty());
    assert(seq![right].drop_first() =~= Seq::empty());
    path::lemma_path_place_same(seq![left], seq![right]);
    assert(path::path_place(seq![left].drop_first(), seq![right].drop_first()) == Place::Same);
    assert(path::path_place(seq![left], seq![right]) == path::part_place(left, right));
    assert(path::key(seq![left]) =~= seq![path::part_key(left)]);
    assert(path::key(seq![right]) =~= seq![path::part_key(right)]);
    assert(seq![path::part_key(left)][0] == path::part_key(left));
    assert(seq![path::part_key(right)][0] == path::part_key(right));
}

/// Prefixes come first, then roots, then the directory itself, then its parent,
/// then names, which are put in order by their bytes.
pub proof fn law_parts_are_put_in_order(left: PartView, right: PartView)
    ensures
        left.component is Prefix && !(right.component is Prefix) ==> path::part_place(left, right)
            == Place::Before,
        left.component is Root && (right.component is Current || right.component is Parent
            || right.component is Name) ==> path::part_place(left, right) == Place::Before,
        left.component is Current && (right.component is Parent || right.component is Name)
            ==> path::part_place(left, right) == Place::Before,
        left.component is Parent && right.component is Name ==> path::part_place(left, right)
            == Place::Before,
        left.component is Name && right.component is Name ==> path::part_place(left, right)
            == path::bytes_place(left.component->Name_0, right.component->Name_0),
{
}

/// The place of a kind of volume among the others.
pub open spec fn kind_of_volume(volume: VolumeView) -> int {
    match volume {
        VolumeView::Verbatim(_) => 1,
        VolumeView::VerbatimShare(_, _) => 2,
        VolumeView::VerbatimDrive(_) => 3,
        VolumeView::Device(_) => 4,
        VolumeView::Share(_, _) => 5,
        VolumeView::Drive(_) => 6,
    }
}

/// Prefixes are put in order by the kind of their volumes, those of one kind by
/// their names, shares by their servers first, and drives by their letters
/// without regard to case.
pub proof fn law_prefixes_are_put_in_order(left: PartView, right: PartView)
    requires
        left.component is Prefix,
        right.component is Prefix,
    ensures
        ({
            let one = left.component->Prefix_0.volume;
            let other = right.component->Prefix_0.volume;
            let place = path::part_place(left, right);
            &&& kind_of_volume(one) < kind_of_volume(other) ==> place == Place::Before
            &&& kind_of_volume(one) > kind_of_volume(other) ==> place == Place::After
            &&& one is Verbatim && other is Verbatim ==> place == path::bytes_place(
                one->Verbatim_0,
                other->Verbatim_0,
            )
            &&& one is Device && other is Device ==> place == path::bytes_place(
                one->Device_0,
                other->Device_0,
            )
            &&& one is Share && other is Share ==> place == (if one->Share_0 == other->Share_0 {
                path::bytes_place(one->Share_1, other->Share_1)
            } else {
                path::bytes_place(one->Share_0, other->Share_0)
            })
            &&& one is VerbatimShare && other is VerbatimShare ==> place == (
            if one->VerbatimShare_0 == other->VerbatimShare_0 {
                path::bytes_place(one->VerbatimShare_1, other->VerbatimShare_1)
            } else {
                path::bytes_place(one->VerbatimShare_0, other->VerbatimShare_0)
            })
            &&& one is Drive && other is Drive && 'A' as u8 <= one->Drive_0 < other->Drive_0
                <= 'Z' as u8 ==> place == Place::Before
            &&& one is Drive && other is Drive && same_letter(one->Drive_0, other->Drive_0)
                ==> place == Place::Same
            &&& one is VerbatimDrive && other is VerbatimDrive && same_letter(
                one->VerbatimDrive_0,
                other->VerbatimDrive_0,
            ) ==> place == Place::Same
        }),
{
    let none = Seq::<u8>::empty();
    path::lemma_bytes_place_same(none, none);
    let a = path::part_texts(left);
    let b = path::part_texts(right);
    path::lemma_bytes_place_same(a.0, b.0);
    if left.component->Prefix_0.volume is Drive && right.component->Prefix_0.volume is Drive {
        law_bytes_are_put_in_order(a.0, b.0, 0);
    }
    lemma_same_part(left, right);
    lemma_part_place(left, right);
}

/// Components are put behind a path one after the other, as entries are.
pub proof fn law_components_are_put_behind_in_turn(
    base: Seq<PartView>,
    rest: Seq<PartView>,
    part: PartView,
)
    ensures
        path::extended(base, Seq::empty()) == base,
        path::extended(base, rest.push(part)) == path::pushed(
            path::extended(base, rest),
            part.component,
        ),
{
    assert(rest.push(part).drop_last() =~= rest);
}

/// A path is contended exactly if it agrees with one that is being worked on as
/// far as both go: if one lies at or below the other.
pub proof fn law_overlapping_paths_wait(active: Seq<Seq<PartView>>, place: Seq<PartView>)
    ensures
        path_lock::contended(active, place) <==> exists|i: int|
            0 <= i < active.len() && {
                ||| path::begins_with(#[trigger] active[i], place)
                ||| path::begins_with(place, active[i])
            },
{
}

/// Giving a path back takes it out of those that are being worked on, and no
/// other.
pub proof fn law_only_what_is_given_back_goes(
    active: Seq<Seq<PartView>>,
    place: Seq<PartView>,
    other: Seq<PartView>,
)
    ensures
        path_lock::without(active, place).contains(other) <==> active.contains(other)
            && !path::alike(other, place),
    decreases active.len(),
{
    reveal(Seq::filter);
    let kept = path_lock::without(active, place);
    if active.len() > 0 {
        let less = active.drop_last();
        law_only_what_is_given_back_goes(less, place, other);
        let before = path_lock::without(less, place);
        assert(active.contains(other) <==> less.contains(other) || active.last() == other) by {
            if less.contains(other) {
                let i = choose|i: int| 0 <= i < less.len() && less[i] == other;
                assert(active[i] == other);
            }
            if active.last() == other {
                assert(active[active.len() - 1] == other);
            }
            if active.contains(other) && active.last() != other {
                let i = choose|i: int| 0 <= i < active.len() && active[i] == other;
                assert(less[i] == other);
            }
        }
        if !path::alike(active.last(), place) {
            assert(kept =~= before.push(active.last()));
            if before.contains(other) {
                let i = choose|i: int| 0 <= i < before.len() && before[i] == other;
                assert(kept[i] == other);
            }
            assert(kept[kept.len() - 1] == active.last());
            if kept.contains(other) && active.last() != other {
                let i = choose|i: int| 0 <= i < kept.len() && kept[i] == other;
                assert(before[i] == other);
            }
        } else {
            assert(kept =~= before);
        }
    }
}

/// An entry is written behind its directory: with the separator of the platform
/// between the two where the directory ends in a name, and with nothing between
/// them where it is a root that ends in a separator, or nothing at all.
#[verifier::spinoff_prover]
#[verifier::rlimit(50)]
pub proof fn law_entries_are_written_behind_their_directory(
    directory: Seq<PartView>,
    name: Seq<u8>,
    platform: Platform,
)
    requires
        directory.len() > 0 ==> !(directory[0].component is Prefix),
        directory.len() > 0 ==> directory.last().gap.len() == 0,
    ensures
        ({
            let written = crate::format::path_bytes(path::child(directory, name), platform);
            let before = crate::format::path_bytes(directory, platform);
            let last = directory.last().component;
            &&& directory.len() == 0 ==> written == name
            &&& directory.len() > 0 && last is Name ==> written == before + seq![
                if platform == Platform::Windows {
                    '\\' as u8
                } else {
                    '/' as u8
                },
            ] + name
            &&& directory == seq![
                PartView {
                    component: ComponentView::Root(seq!['/' as u8]),
                    gap: Seq::empty(),
                },
            ] ==> written == seq!['/' as u8] + name
        }),
{
    let child = path::child(directory, name);
    let before = crate::format::path_bytes(directory, platform);
    let written = crate::format::path_bytes(child, platform);
    assert(child.drop_last() =~= directory);
    assert(child.last().gap =~= Seq::empty());
    if directory.len() == 0 {
        assert(written =~= name);
    } else {
        let joint = seq![path::separator(platform)];
        if directory.last().component is Name {
            assert(written =~= before + joint + name);
        }
        let root = PartView {
            component: ComponentView::Root(seq!['/' as u8]),
            gap: Seq::empty(),
        };
        if directory == seq![root] {
            assert(directory.drop_last() =~= Seq::empty());
            assert(crate::format::path_bytes(directory.drop_last(), platform) =~= Seq::empty());
            assert(before =~= seq!['/' as u8]);
            assert(written =~= seq!['/' as u8] + name);
        }
    }
}

/// Each part is written as what it is: a name, a root and a prefix as they are
/// given, the directory itself as one dot and its parent as two.
pub proof fn law_parts_are_written_as_they_are(name: Seq<u8>, prefix: PrefixView)
    ensures
        crate::format::component_bytes(ComponentView::Name(name)) == name,
        crate::format::component_bytes(ComponentView::Root(name)) == name,
        crate::format::component_bytes(ComponentView::Prefix(prefix)) == prefix.shown,
        crate::format::component_bytes(ComponentView::Current) == seq!['.' as u8],
        crate::format::component_bytes(ComponentView::Parent) == seq!['.' as u8, '.' as u8],
        path::separator(Platform::Unix) == '/' as u8,
        path::separator(Platform::Windows) == '\\' as u8,
{
}

/// Whether a separator is wanted behind a part that has nothing behind it yet:
/// behind a name and dots always, behind a drive never, and behind a root and
/// another prefix unless they end in one.
pub open spec fn wants_separator(
    part: PartView,
    written: Seq<u8>,
    platform: Platform,
) -> bool {
    let ended = written.len() == 0 || written.last() == '/' as u8 || (platform == Platform::Windows
        && written.last() == '\\' as u8);
    match part.component {
        ComponentView::Name(_) => true,
        ComponentView::Current => true,
        ComponentView::Parent => true,
        ComponentView::Root(_) => !ended,
        ComponentView::Prefix(prefix) => !ended && !(prefix.volume is Drive),
    }
}

/// A path is written part by part, each with what is to stand behind it. Between
/// two parts there is a separator where one is wanted and none stands, but never
/// before a root.
pub proof fn law_paths_are_written_part_by_part(place: Seq<PartView>, platform: Platform)
    requires
        place.len() > 0,
    ensures
        ({
            let written = crate::format::path_bytes(place, platform);
            let before = place.drop_last();
            let start = crate::format::path_bytes(before, platform);
            let part = crate::format::component_bytes(place.last().component) + place.last().gap;
            let gap = before.last().gap;
            let separated = start + seq![path::separator(platform)] + part;
            &&& written == start + part || written == separated
            &&& before.len() == 0 || place.last().component is Root ==> written == start + part
            &&& before.len() > 0 && !(place.last().component is Root) && gap.len() == 0
                && wants_separator(before.last(), start, platform) ==> written == separated
            &&& before.len() > 0 && gap.len() == 0 && !wants_separator(
                before.last(),
                start,
                platform,
            ) ==> written == start + part
            &&& before.len() > 0 && gap.len() > 0 && (gap.last() == '/' as u8 || (platform
                == Platform::Windows && gap.last() == '\\' as u8)) ==> written == start + part
            &&& before.len() > 0 && !(place.last().component is Root) && gap.len() > 0
                && gap.last() != '/' as u8 && gap.last() != '\\' as u8 ==> written == separated
        }),
{
    let written = crate::format::path_bytes(place, platform);
    let start = crate::format::path_bytes(place.drop_last(), platform);
    let part = crate::format::component_bytes(place.last().component);
    let gap = place.last().gap;
    assert(start + Seq::<u8>::empty() + part + gap =~= start + (part + gap));
    assert(start + seq![path::separator(platform)] + part + gap =~= start + seq![
        path::separator(platform),
    ] + (part + gap));
}

/// Actions that are in order have no later place before an earlier one.
pub proof fn law_ordered_actions_have_ordered_places(actions: Seq<ActionView>, i: int, j: int)
    requires
        crate::discover::ordered_by_path(actions),
        0 <= i < j < actions.len(),
    ensures
        path::path_place(actions[i].path, actions[j].path) == Place::Before || path::path_place(
            actions[i].path,
            actions[j].path,
        ) == Place::Same,
{
}

/// Lists are taken as they are, item by item.
pub proof fn law_lists_are_taken_as_they_are(
    paths: Seq<TreePath>,
    entries: Seq<ListedEntry>,
    lines: Seq<String>,
)
    ensures
        execute::paths(paths).len() == paths.len(),
        execute::listing_of(entries).len() == entries.len(),
        text::texts(lines).len() == lines.len(),
        forall|i: int|
            0 <= i < paths.len() ==> #[trigger] execute::paths(paths)[i] == paths[i]@,
        forall|i: int|
            0 <= i < entries.len() ==> #[trigger] execute::listing_of(entries)[i] == (
                entries[i].0@,
                entries[i].1,
            ),
        forall|i: int| 0 <= i < lines.len() ==> #[trigger] text::texts(lines)[i] == lines[i]@,
{
}

/// An ancestor of a path has its first parts: all of them at first, and one less
/// with each step, as long as the last one is a name.
pub proof fn law_ancestors_have_the_first_parts(nearest: NearestView)
    requires
        nearest.within(),
    ensures
        nearest.current().len() == nearest.kept,
        agree(nearest.current(), nearest.path, nearest.kept as int),
        nearest.kept == nearest.path.len() ==> nearest.current() == nearest.path,
        nearest.can_shorten() <==> nearest.kept > 0 && nearest.path[nearest.kept
            - 1].component is Name,
        nearest.can_shorten() ==> nearest.shortened().kept == nearest.kept - 1
            && nearest.shortened().path == nearest.path,
{
    let current = nearest.current();
    assert forall|i: int| 0 <= i < nearest.kept implies same_part(
        #[trigger] current[i],
        nearest.path[i],
    ) by {
        lemma_same_part(current[i], nearest.path[i]);
    }
}

/// The marks of verbatim paths are not shown: that of a share leaves two
/// backslashes, any other nothing; a text without them stays as it is.
#[verifier::spinoff_prover]
#[verifier::rlimit(50)]
pub proof fn law_verbatim_marks_are_not_shown(rest: Seq<char>)
    ensures
        crate::format::without_verbatim("\\\\?\\UNC\\"@ + rest) == "\\\\"@ + rest,
        !"UNC\\"@.is_prefix_of(rest) ==> crate::format::without_verbatim("\\\\?\\"@ + rest) == rest,
        !"\\\\?\\"@.is_prefix_of(rest) ==> crate::format::without_verbatim(rest) == rest,
{
    reveal_strlit("\\\\?\\UNC\\");
    reveal_strlit("\\\\?\\");
    reveal_strlit("UNC\\");
    let share = "\\\\?\\UNC\\"@;
    let mark = "\\\\?\\"@;
    assert((share + rest).subrange(0, share.len() as int) =~= share);
    assert((share + rest).skip(share.len() as int) =~= rest);
    assert((mark + rest).subrange(0, mark.len() as int) =~= mark);
    assert((mark + rest).skip(mark.len() as int) =~= rest);
    if share.is_prefix_of(mark + rest) {
        assert("UNC\\"@ =~= rest.subrange(0, 4)) by {
            assert forall|i: int| 0 <= i < 4 implies "UNC\\"@[i] == rest[i] by {
                assert(share[i + 4] == (mark + rest)[i + 4]);
            }
        }
    }
    if share.is_prefix_of(rest) {
        assert(mark =~= rest.subrange(0, 4)) by {
            assert forall|i: int| 0 <= i < 4 implies mark[i] == rest[i] by {
                assert(share[i] == rest[i]);
            }
        }
    }
}

/// On Unix a path is shown as it is written; on Windows without the marks of
/// verbatim paths, and with halves of characters replaced.
pub proof fn law_paths_are_shown_as_written(place: Seq<PartView>)
    ensures
        crate::format::display_text(place, Platform::Unix) == text::lossy_text(
            crate::format::path_bytes(place, Platform::Unix),
        ),
        crate::format::display_text(place, Platform::Windows) == crate::format::without_verbatim(
            text::lossy_text(
                text::without_halves(crate::format::path_bytes(place, Platform::Windows)),
            ),
        ),
{
}

/// Whether half a character begins at a place among bytes.
pub open spec fn half_at(bytes: Seq<u8>, at: int) -> bool {
    &&& at + 3 <= bytes.len()
    &&& bytes[at] == 0xed
    &&& 0xa0 <= bytes[at + 1] <= 0xbf
    &&& 0x80 <= bytes[at + 2] <= 0xbf
}

/// Half a character is replaced by the replacement character, and everything
/// before the first one stays as it is.
pub proof fn law_halves_are_replaced(bytes: Seq<u8>, at: nat)
    requires
        at <= bytes.len(),
        forall|i: int| 0 <= i < at ==> !(#[trigger] half_at(bytes, i)),
    ensures
        at == bytes.len() ==> text::without_halves(bytes) == bytes,
        half_at(bytes, at as int) ==> text::without_halves(bytes) == bytes.take(at as int) + seq![
            0xefu8,
            0xbfu8,
            0xbdu8,
        ] + text::without_halves(bytes.skip(at as int + 3)),
    decreases at,
{
    if at == 0 {
        assert(half_at(bytes, 0) == text::begins_with_half(bytes));
        assert(bytes.take(0) + seq![0xefu8, 0xbfu8, 0xbdu8] =~= seq![0xefu8, 0xbfu8, 0xbdu8]);
    } else {
        let rest = bytes.skip(1);
        assert(!half_at(bytes, 0));
        assert forall|i: int| 0 <= i < at - 1 implies !(#[trigger] half_at(rest, i)) by {
            assert(!half_at(bytes, i + 1));
        }
        law_halves_are_replaced(rest, (at - 1) as nat);
        assert(half_at(bytes, at as int) == half_at(rest, at - 1));
        assert(text::without_halves(bytes) == seq![bytes[0]] + text::without_halves(rest));
        if at == bytes.len() {
            assert(seq![bytes[0]] + rest =~= bytes);
        }
        if half_at(bytes, at as int) {
            assert(rest.skip(at as int + 2) =~= bytes.skip(at as int + 3));
            assert(seq![bytes[0]] + rest.take(at - 1) =~= bytes.take(at as int));
            assert(text::without_halves(bytes) =~= bytes.take(at as int) + seq![
                0xefu8,
                0xbfu8,
                0xbdu8,
            ] + text::without_halves(bytes.skip(at as int + 3)));
        }
    }
}

/// What lies below the root is shown by its parts beyond those of the root;
/// anything else, and the root itself, is shown whole.
pub proof fn law_places_are_shown_from_the_root(
    place: Seq<PartView>,
    root: Seq<PartView>,
    platform: Platform,
)
    ensures
        ({
            let shown = crate::format::relative_text(place, root, platform);
            let rest = path::trimmed(place.skip(root.len() as int));
            &&& !path::begins_with(place, root) ==> shown == crate::format::display_text(
                place,
                platform,
            )
            &&& path::alike(place, root) ==> shown == crate::format::display_text(place, platform)
            &&& path::beneath(place, root) && crate::format::path_bytes(rest, platform).len() > 0
                ==> shown == crate::format::display_text(rest, platform)
            &&& crate::format::path_bytes(rest, platform).len() == 0 ==> shown
                == crate::format::display_text(place, platform)
        }),
{
    if path::alike(place, root) {
        assert(path::key(place).len() == path::key(root).len());
        let rest = path::trimmed(place.skip(root.len() as int));
        assert(rest =~= Seq::empty());
        assert(crate::format::path_bytes(rest, platform) =~= Seq::empty());
    }
}

} // verus!
