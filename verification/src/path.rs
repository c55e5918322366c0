//! Paths as the cleaner reads them: sequences of components.

use vstd::prelude::*;

verus! {

/// The kind of system whose paths are read and shown.
#[derive(Clone, Copy, Debug, PartialEq, Eq, Structural)]
pub enum Platform {
    Windows,
    Unix,
}

/// What a prefix names. The letter of a drive may be in either case.
#[derive(Debug, PartialEq, Eq, Hash)]
pub enum Volume {
    /// `\\?\name`
    Verbatim(Vec<u8>),
    /// `\\?\UNC\server\share`
    VerbatimShare(Vec<u8>, Vec<u8>),
    /// `\\?\C:`
    VerbatimDrive(u8),
    /// `\\.\NS`
    Device(Vec<u8>),
    /// `\\server\share`
    Share(Vec<u8>, Vec<u8>),
    /// `C:`
    Drive(u8),
}

/// What a prefix names, as a value.
pub enum VolumeView {
    Verbatim(Seq<u8>),
    VerbatimShare(Seq<u8>, Seq<u8>),
    VerbatimDrive(u8),
    Device(Seq<u8>),
    Share(Seq<u8>, Seq<u8>),
    Drive(u8),
}

impl View for Volume {
    type V = VolumeView;

    open spec fn view(&self) -> VolumeView {
        match self {
            Volume::Verbatim(name) => VolumeView::Verbatim(name@),
            Volume::VerbatimShare(server, share) => VolumeView::VerbatimShare(server@, share@),
            Volume::VerbatimDrive(letter) => VolumeView::VerbatimDrive(*letter),
            Volume::Device(name) => VolumeView::Device(name@),
            Volume::Share(server, share) => VolumeView::Share(server@, share@),
            Volume::Drive(letter) => VolumeView::Drive(*letter),
        }
    }
}

/// What stands before the root: how it is written, and what it names. Paths are
/// shown by the one and compared by the other.
#[derive(Debug, PartialEq, Eq, Hash)]
pub struct Prefix {
    pub shown: Vec<u8>,
    pub volume: Volume,
}

/// What stands before the root, as a value.
pub struct PrefixView {
    pub shown: Seq<u8>,
    pub volume: VolumeView,
}

impl View for Prefix {
    type V = PrefixView;

    open spec fn view(&self) -> PrefixView {
        PrefixView { shown: self.shown@, volume: self.volume@ }
    }
}

/// What a component of a path is.
#[derive(Debug, PartialEq, Eq, Hash)]
pub enum Component {
    /// What stands before the root, such as a drive.
    Prefix(Prefix),
    /// The root directory, as it is written: by a separator, or not at all
    /// where the prefix implies it.
    Root(Vec<u8>),
    /// `.`
    Current,
    /// `..`
    Parent,
    /// The name of an entry, in the bytes that the system gives it.
    Name(Vec<u8>),
}

/// What a component of a path is, as a value.
pub enum ComponentView {
    Prefix(PrefixView),
    Root(Seq<u8>),
    Current,
    Parent,
    Name(Seq<u8>),
}

impl View for Component {
    type V = ComponentView;

    open spec fn view(&self) -> ComponentView {
        match self {
            Component::Prefix(prefix) => ComponentView::Prefix(prefix@),
            Component::Root(text) => ComponentView::Root(text@),
            Component::Current => ComponentView::Current,
            Component::Parent => ComponentView::Parent,
            Component::Name(text) => ComponentView::Name(text@),
        }
    }
}

/// A component as it stands in a path. The derived equality also tells apart
/// how it is written; `compare` does not.
#[derive(Debug, PartialEq, Eq, Hash)]
pub struct Part {
    pub component: Component,
    /// What is written behind the component without changing what the path
    /// means: separators, and `.` between them. Where nothing is, a separator
    /// goes before the next component by itself.
    pub gap: Vec<u8>,
}

/// A component as it stands in a path, as a value.
pub struct PartView {
    pub component: ComponentView,
    pub gap: Seq<u8>,
}

impl View for Part {
    type V = PartView;

    open spec fn view(&self) -> PartView {
        PartView { component: self.component@, gap: self.gap@ }
    }
}

/// A component with nothing odd behind it.
pub open spec fn plain(component: ComponentView) -> PartView {
    PartView { component, gap: Seq::empty() }
}

/// A path: its components, from the root down. The derived equality also tells
/// apart how they are written; `same` does not.
#[derive(Debug, PartialEq, Eq, Hash)]
pub struct TreePath {
    pub parts: Vec<Part>,
}

impl View for TreePath {
    type V = Seq<PartView>;

    open spec fn view(&self) -> Seq<PartView> {
        self.parts@.map_values(|part: Part| part@)
    }
}

/// Where one value stands with respect to another.
#[derive(Clone, Copy, Debug, PartialEq, Eq, Structural)]
pub enum Place {
    Before,
    Same,
    After,
}

/// The lexicographic order of byte strings.
pub open spec fn bytes_place(left: Seq<u8>, right: Seq<u8>) -> Place
    decreases left.len(),
{
    if left.len() == 0 {
        if right.len() == 0 {
            Place::Same
        } else {
            Place::Before
        }
    } else if right.len() == 0 {
        Place::After
    } else if left[0] < right[0] {
        Place::Before
    } else if left[0] > right[0] {
        Place::After
    } else {
        bytes_place(left.drop_first(), right.drop_first())
    }
}

/// An ASCII letter in upper case, and any other byte as it is.
pub open spec fn upper(letter: u8) -> u8 {
    if 0x61 <= letter <= 0x7a {
        (letter - 0x20) as u8
    } else {
        letter
    }
}

/// What a prefix names, with the letter of a drive in upper case.
pub open spec fn folded(volume: VolumeView) -> VolumeView {
    match volume {
        VolumeView::VerbatimDrive(letter) => VolumeView::VerbatimDrive(upper(letter)),
        VolumeView::Drive(letter) => VolumeView::Drive(upper(letter)),
        _ => volume,
    }
}

/// What a component is compared by: not how it is written, and of a prefix,
/// what it names.
pub open spec fn part_key(part: PartView) -> PartView {
    plain(
        match part.component {
            ComponentView::Prefix(prefix) => ComponentView::Prefix(
                PrefixView { shown: Seq::empty(), volume: folded(prefix.volume) },
            ),
            ComponentView::Root(_) => ComponentView::Root(Seq::empty()),
            _ => part.component,
        },
    )
}

/// What a path is compared by.
pub open spec fn key(path: Seq<PartView>) -> Seq<PartView> {
    path.map_values(|part: PartView| part_key(part))
}

/// Whether two paths are equal, however they are written.
pub open spec fn alike(left: Seq<PartView>, right: Seq<PartView>) -> bool {
    key(left) == key(right)
}

/// The rank of what a prefix names.
pub open spec fn volume_rank(volume: VolumeView) -> nat {
    match volume {
        VolumeView::Verbatim(_) => 0,
        VolumeView::VerbatimShare(_, _) => 1,
        VolumeView::VerbatimDrive(_) => 2,
        VolumeView::Device(_) => 3,
        VolumeView::Share(_, _) => 4,
        VolumeView::Drive(_) => 5,
    }
}

/// The texts by which two prefixes of one rank are ordered.
pub open spec fn volume_texts(volume: VolumeView) -> (Seq<u8>, Seq<u8>) {
    match volume {
        VolumeView::Verbatim(name) => (name, Seq::empty()),
        VolumeView::VerbatimShare(server, share) => (server, share),
        VolumeView::VerbatimDrive(letter) => (seq![upper(letter)], Seq::empty()),
        VolumeView::Device(name) => (name, Seq::empty()),
        VolumeView::Share(server, share) => (server, share),
        VolumeView::Drive(letter) => (seq![upper(letter)], Seq::empty()),
    }
}

/// The rank of a kind of component: prefixes come first, names last.
pub open spec fn part_rank(part: PartView) -> nat {
    match part.component {
        ComponentView::Prefix(prefix) => volume_rank(prefix.volume),
        ComponentView::Root(_) => 6,
        ComponentView::Current => 7,
        ComponentView::Parent => 8,
        ComponentView::Name(_) => 9,
    }
}

/// The texts by which two components of one rank are ordered.
pub open spec fn part_texts(part: PartView) -> (Seq<u8>, Seq<u8>) {
    match part.component {
        ComponentView::Prefix(prefix) => volume_texts(prefix.volume),
        ComponentView::Name(text) => (text, Seq::empty()),
        _ => (Seq::empty(), Seq::empty()),
    }
}

/// The order of pairs of texts: by the first, then by the second.
pub open spec fn texts_place(left: (Seq<u8>, Seq<u8>), right: (Seq<u8>, Seq<u8>)) -> Place {
    if bytes_place(left.0, right.0) != Place::Same {
        bytes_place(left.0, right.0)
    } else {
        bytes_place(left.1, right.1)
    }
}

/// The order of components: by kind, then by text.
pub open spec fn part_place(left: PartView, right: PartView) -> Place {
    if part_rank(left) < part_rank(right) {
        Place::Before
    } else if part_rank(left) > part_rank(right) {
        Place::After
    } else {
        texts_place(part_texts(left), part_texts(right))
    }
}

/// The order of paths: lexicographic, by component.
pub open spec fn path_place(left: Seq<PartView>, right: Seq<PartView>) -> Place
    decreases left.len(),
{
    if left.len() == 0 {
        if right.len() == 0 {
            Place::Same
        } else {
            Place::Before
        }
    } else if right.len() == 0 {
        Place::After
    } else if part_place(left[0], right[0]) != Place::Same {
        part_place(left[0], right[0])
    } else {
        path_place(left.drop_first(), right.drop_first())
    }
}

/// The opposite of a place.
pub open spec fn opposite(place: Place) -> Place {
    match place {
        Place::Before => Place::After,
        Place::Same => Place::Same,
        Place::After => Place::Before,
    }
}

/// Two byte strings take the same place exactly when they are equal, and seen
/// from the other side a place is its opposite.
pub proof fn lemma_bytes_place_same(left: Seq<u8>, right: Seq<u8>)
    ensures
        bytes_place(left, right) == Place::Same <==> left == right,
        bytes_place(right, left) == opposite(bytes_place(left, right)),
    decreases left.len(),
{
    if left.len() > 0 && right.len() > 0 {
        lemma_bytes_place_same(left.drop_first(), right.drop_first());
        if left[0] == right[0] && left.drop_first() == right.drop_first() {
            assert(left =~= seq![left[0]] + left.drop_first());
            assert(right =~= seq![right[0]] + right.drop_first());
        }
    } else if left.len() == 0 && right.len() == 0 {
        assert(left =~= right);
    }
}

proof fn lemma_bytes_place_transitive(a: Seq<u8>, b: Seq<u8>, c: Seq<u8>)
    requires
        bytes_place(a, b) == Place::Before,
        bytes_place(b, c) == Place::Before,
    ensures
        bytes_place(a, c) == Place::Before,
    decreases a.len(),
{
    if a.len() > 0 && b.len() > 0 && c.len() > 0 {
        if a[0] == b[0] && b[0] == c[0] {
            lemma_bytes_place_transitive(a.drop_first(), b.drop_first(), c.drop_first());
        }
    }
}

proof fn lemma_part_place_same(left: PartView, right: PartView)
    ensures
        part_place(left, right) == Place::Same <==> part_key(left) == part_key(right),
        part_place(right, left) == opposite(part_place(left, right)),
{
    let (a, b) = (part_texts(left), part_texts(right));
    lemma_bytes_place_same(a.0, b.0);
    lemma_bytes_place_same(a.1, b.1);
    assert(part_key(left) == part_key(right) ==> a == b);
    if part_rank(left) == part_rank(right) && a == b {
        assert(a.0.len() > 0 ==> a.0[0] == b.0[0]);
        assert(part_key(left) == part_key(right));
    }
}

proof fn lemma_part_place_transitive(a: PartView, b: PartView, c: PartView)
    requires
        part_place(a, b) == Place::Before,
        part_place(b, c) == Place::Before,
    ensures
        part_place(a, c) == Place::Before,
{
    if part_rank(a) == part_rank(b) && part_rank(b) == part_rank(c) {
        let (p, q, r) = (part_texts(a), part_texts(b), part_texts(c));
        lemma_bytes_place_same(p.0, q.0);
        lemma_bytes_place_same(q.0, r.0);
        if p.0 == q.0 && q.0 == r.0 {
            lemma_bytes_place_same(p.0, r.0);
            lemma_bytes_place_transitive(p.1, q.1, r.1);
        } else if p.0 != q.0 && q.0 != r.0 {
            lemma_bytes_place_transitive(p.0, q.0, r.0);
        }
    }
}

/// The place of a component depends on its key alone.
proof fn lemma_part_place_by_key(a: PartView, b: PartView, c: PartView)
    requires
        part_key(a) == part_key(b),
    ensures
        part_place(a, c) == part_place(b, c),
        part_place(c, a) == part_place(c, b),
{
    lemma_part_place_same(a, b);
    lemma_bytes_place_same(part_texts(a).0, part_texts(b).0);
    lemma_bytes_place_same(part_texts(a).1, part_texts(b).1);
}

/// Two paths take the same place exactly when they are equal, and seen from
/// the other side a place is its opposite.
pub proof fn lemma_path_place_same(left: Seq<PartView>, right: Seq<PartView>)
    ensures
        path_place(left, right) == Place::Same <==> alike(left, right),
        path_place(right, left) == opposite(path_place(left, right)),
    decreases left.len(),
{
    if left.len() > 0 && right.len() > 0 {
        lemma_part_place_same(left[0], right[0]);
        lemma_path_place_same(left.drop_first(), right.drop_first());
        assert(key(left) =~= seq![part_key(left[0])] + key(left.drop_first()));
        assert(key(right) =~= seq![part_key(right[0])] + key(right.drop_first()));
        if alike(left, right) {
            assert(key(left)[0] == key(right)[0]);
            assert(key(left).drop_first() =~= key(left.drop_first()));
            assert(key(right).drop_first() =~= key(right.drop_first()));
        }
    } else if left.len() == 0 && right.len() == 0 {
        assert(key(left) =~= key(right));
    } else {
        assert(key(left).len() != key(right).len());
    }
}

/// The order of paths is transitive.
pub proof fn lemma_path_place_transitive(
    a: Seq<PartView>,
    b: Seq<PartView>,
    c: Seq<PartView>,
)
    requires
        path_place(a, b) == Place::Before,
        path_place(b, c) == Place::Before,
    ensures
        path_place(a, c) == Place::Before,
    decreases a.len(),
{
    if a.len() > 0 && b.len() > 0 && c.len() > 0 {
        lemma_part_place_same(a[0], b[0]);
        lemma_part_place_same(b[0], c[0]);
        lemma_part_place_same(a[0], c[0]);
        if part_key(a[0]) == part_key(b[0]) {
            lemma_part_place_by_key(a[0], b[0], c[0]);
            if part_key(b[0]) == part_key(c[0]) {
                lemma_path_place_transitive(a.drop_first(), b.drop_first(), c.drop_first());
            }
        } else if part_key(b[0]) == part_key(c[0]) {
            lemma_part_place_by_key(b[0], c[0], a[0]);
        } else {
            lemma_part_place_transitive(a[0], b[0], c[0]);
        }
    }
}

/// The place of a path depends on its key alone.
pub proof fn lemma_path_place_by_key(a: Seq<PartView>, b: Seq<PartView>, c: Seq<PartView>)
    requires
        alike(a, b),
    ensures
        path_place(a, c) == path_place(b, c),
        path_place(c, a) == path_place(c, b),
    decreases a.len(),
{
    assert(a.len() == key(a).len() && b.len() == key(b).len());
    if a.len() > 0 && c.len() > 0 {
        assert(key(a)[0] == key(b)[0]);
        assert(key(a).drop_first() =~= key(a.drop_first()));
        assert(key(b).drop_first() =~= key(b.drop_first()));
        lemma_part_place_by_key(a[0], b[0], c[0]);
        lemma_path_place_by_key(a.drop_first(), b.drop_first(), c.drop_first());
    }
}

/// Not to come after is transitive.
pub proof fn lemma_path_place_not_after(
    a: Seq<PartView>,
    b: Seq<PartView>,
    c: Seq<PartView>,
)
    requires
        path_place(a, b) != Place::After,
        path_place(b, c) != Place::After,
    ensures
        path_place(a, c) != Place::After,
{
    lemma_path_place_same(a, b);
    lemma_path_place_same(b, c);
    if alike(a, b) {
        lemma_path_place_by_key(a, b, c);
    } else if alike(b, c) {
        lemma_path_place_by_key(b, c, a);
    } else {
        lemma_path_place_transitive(a, b, c);
    }
}

/// A path begins with another exactly when it is no shorter and agrees with it
/// component by component.
pub proof fn lemma_begins_with(path: Seq<PartView>, base: Seq<PartView>)
    ensures
        begins_with(path, base) <==> {
            &&& base.len() <= path.len()
            &&& forall|i: int| 0 <= i < base.len() ==> part_key(#[trigger] base[i]) == part_key(path[i])
        },
{
    if begins_with(path, base) {
        assert forall|i: int| 0 <= i < base.len() implies part_key(#[trigger] base[i]) == part_key(
            path[i],
        ) by {
            assert(key(base)[i] == key(path).subrange(0, base.len() as int)[i]);
        }
    }
    if base.len() <= path.len() && forall|i: int|
        0 <= i < base.len() ==> part_key(#[trigger] base[i]) == part_key(path[i]) {
        assert(key(base) =~= key(path).subrange(0, base.len() as int));
    }
}

/// Every path begins with itself, and with whatever is alike.
pub proof fn lemma_begins_with_alike(path: Seq<PartView>, base: Seq<PartView>)
    requires
        alike(path, base),
    ensures
        begins_with(path, base),
{
    assert(key(base) =~= key(path).subrange(0, key(base).len() as int));
}

/// A key begins with whatever its path begins with.
pub proof fn lemma_key_begins_with(path: Seq<PartView>, base: Seq<PartView>)
    ensures
        begins_with(key(path), base) == begins_with(path, base),
{
    assert(key(key(path)) =~= key(path));
}

/// Putting a component behind a path does the same to its key.
pub proof fn lemma_key_pushed(path: Seq<PartView>, component: ComponentView)
    ensures
        key(pushed(path, component)) == key(path).push(part_key(plain(component))),
{
    assert(key(respelled(path)) =~= key(path));
    assert(key(pushed(path, component)) =~= key(path).push(part_key(plain(component))));
}

/// Putting components behind a path does the same to its key.
pub proof fn lemma_key_extended(path: Seq<PartView>, rest: Seq<PartView>)
    ensures
        key(extended(path, rest)) == key(path) + key(rest),
    decreases rest.len(),
{
    if rest.len() == 0 {
        assert(key(path) + key(rest) =~= key(path));
    } else {
        lemma_key_extended(path, rest.drop_last());
        lemma_key_pushed(extended(path, rest.drop_last()), rest.last().component);
        assert(key(rest) =~= key(rest.drop_last()).push(part_key(rest.last())));
        assert(key(path) + key(rest) =~= (key(path) + key(rest.drop_last())).push(
            part_key(rest.last()),
        ));
    }
}

/// What is written behind a path is not part of its key.
pub proof fn lemma_key_trimmed(path: Seq<PartView>)
    ensures
        key(trimmed(path)) == key(path),
{
    assert(key(trimmed(path)) =~= key(path));
}

/// Orders two byte strings.
pub fn compare_bytes(left: &Vec<u8>, right: &Vec<u8>) -> (place: Place)
    ensures
        place == bytes_place(left@, right@),
{
    let mut index: usize = 0;
    assert(left@.skip(0) =~= left@);
    assert(right@.skip(0) =~= right@);
    while index < left.len() && index < right.len()
        invariant
            index <= left.len(),
            index <= right.len(),
            bytes_place(left@, right@) == bytes_place(
                left@.skip(index as int),
                right@.skip(index as int),
            ),
        decreases left.len() - index,
    {
        let ghost rest_left = left@.skip(index as int);
        let ghost rest_right = right@.skip(index as int);
        if left[index] < right[index] {
            return Place::Before;
        }
        if left[index] > right[index] {
            return Place::After;
        }
        assert(rest_left.drop_first() =~= left@.skip(index + 1));
        assert(rest_right.drop_first() =~= right@.skip(index + 1));
        index = index + 1;
    }
    if index < right.len() {
        Place::Before
    } else if index < left.len() {
        Place::After
    } else {
        Place::Same
    }
}

/// Whether a letter comes before another, once both are in upper case.
fn compare_letters(left: u8, right: u8) -> (place: Place)
    ensures
        place == bytes_place(seq![upper(left)], seq![upper(right)]),
{
    let a: u8 = upper_letter(left);
    let b: u8 = upper_letter(right);
    let ghost rest = seq![a].drop_first();
    assert(rest =~= Seq::<u8>::empty());
    assert(seq![b].drop_first() =~= Seq::<u8>::empty());
    assert(bytes_place(rest, rest) == Place::Same);
    if a < b {
        Place::Before
    } else if a > b {
        Place::After
    } else {
        Place::Same
    }
}

fn upper_letter(letter: u8) -> (raised: u8)
    ensures
        raised == upper(letter),
{
    if 0x61 <= letter && letter <= 0x7a {
        letter - 0x20
    } else {
        letter
    }
}

fn compare_pairs(
    left: &Vec<u8>,
    left_second: &Vec<u8>,
    right: &Vec<u8>,
    right_second: &Vec<u8>,
) -> (place: Place)
    ensures
        place == texts_place((left@, left_second@), (right@, right_second@)),
{
    let place = compare_bytes(left, right);
    if place != Place::Same {
        place
    } else {
        compare_bytes(left_second, right_second)
    }
}

impl Volume {
    fn rank(&self) -> (rank: u8)
        ensures
            rank == volume_rank(self@),
    {
        match self {
            Volume::Verbatim(_) => 0,
            Volume::VerbatimShare(_, _) => 1,
            Volume::VerbatimDrive(_) => 2,
            Volume::Device(_) => 3,
            Volume::Share(_, _) => 4,
            Volume::Drive(_) => 5,
        }
    }

    /// Orders two volumes of one rank.
    fn compare_texts(&self, other: &Volume) -> (place: Place)
        requires
            volume_rank(self@) == volume_rank(other@),
        ensures
            place == texts_place(volume_texts(self@), volume_texts(other@)),
    {
        match (self, other) {
            (Volume::Verbatim(a), Volume::Verbatim(b)) => compare_bytes(a, b),
            (Volume::VerbatimShare(a, c), Volume::VerbatimShare(b, d)) => compare_pairs(a, c, b, d),
            (Volume::VerbatimDrive(a), Volume::VerbatimDrive(b)) => compare_letters(*a, *b),
            (Volume::Device(a), Volume::Device(b)) => compare_bytes(a, b),
            (Volume::Share(a, c), Volume::Share(b, d)) => compare_pairs(a, c, b, d),
            (Volume::Drive(a), Volume::Drive(b)) => compare_letters(*a, *b),
            _ => Place::Same,
        }
    }

    /// Another volume with the same value.
    pub fn copy(&self) -> (copy: Volume)
        ensures
            copy@ == self@,
    {
        match self {
            Volume::Verbatim(name) => Volume::Verbatim(copy_bytes(name)),
            Volume::VerbatimShare(server, share) => {
                Volume::VerbatimShare(copy_bytes(server), copy_bytes(share))
            },
            Volume::VerbatimDrive(letter) => Volume::VerbatimDrive(*letter),
            Volume::Device(name) => Volume::Device(copy_bytes(name)),
            Volume::Share(server, share) => Volume::Share(copy_bytes(server), copy_bytes(share)),
            Volume::Drive(letter) => Volume::Drive(*letter),
        }
    }
}

impl Part {
    fn rank(&self) -> (rank: u8)
        ensures
            rank == part_rank(self@),
    {
        match &self.component {
            Component::Prefix(prefix) => prefix.volume.rank(),
            Component::Root(_) => 6,
            Component::Current => 7,
            Component::Parent => 8,
            Component::Name(_) => 9,
        }
    }

    /// Orders two components.
    pub fn compare(&self, other: &Part) -> (place: Place)
        ensures
            place == part_place(self@, other@),
    {
        let left: u8 = self.rank();
        let right: u8 = other.rank();
        if left < right {
            Place::Before
        } else if left > right {
            Place::After
        } else {
            match (&self.component, &other.component) {
                (Component::Prefix(a), Component::Prefix(b)) => a.volume.compare_texts(&b.volume),
                (Component::Name(a), Component::Name(b)) => compare_bytes(a, b),
                _ => Place::Same,
            }
        }
    }

    /// Another component with the same value.
    pub fn copy(&self) -> (copy: Part)
        ensures
            copy@ == self@,
    {
        Part { component: self.component.copy(), gap: copy_bytes(&self.gap) }
    }

    /// A component with nothing odd behind it.
    pub fn plain(component: Component) -> (part: Part)
        ensures
            part@ == plain(component@),
    {
        let part = Part { component, gap: Vec::new() };
        assert(part@.gap =~= Seq::<u8>::empty());
        part
    }

    /// The name of an entry.
    pub fn name(name: Vec<u8>) -> (part: Part)
        ensures
            part@ == plain(ComponentView::Name(name@)),
    {
        Part::plain(Component::Name(name))
    }

    /// The root, written by the separator of a platform.
    pub fn root(platform: Platform) -> (part: Part)
        ensures
            part@ == plain(ComponentView::Root(seq![separator(platform)])),
    {
        let mut text: Vec<u8> = Vec::new();
        text.push(
            match platform {
                Platform::Windows => 0x5c,
                Platform::Unix => 0x2f,
            },
        );
        assert(text@ =~= seq![separator(platform)]);
        Part::plain(Component::Root(text))
    }
}

impl Component {
    /// Another component with the same value.
    pub fn copy(&self) -> (copy: Component)
        ensures
            copy@ == self@,
    {
        match self {
            Component::Prefix(prefix) => Component::Prefix(
                Prefix { shown: copy_bytes(&prefix.shown), volume: prefix.volume.copy() },
            ),
            Component::Root(text) => Component::Root(copy_bytes(text)),
            Component::Current => Component::Current,
            Component::Parent => Component::Parent,
            Component::Name(text) => Component::Name(copy_bytes(text)),
        }
    }
}

fn copy_bytes(bytes: &Vec<u8>) -> (copy: Vec<u8>)
    ensures
        copy@ == bytes@,
{
    let copy = bytes.clone();
    assert(copy@ =~= bytes@);
    copy
}

/// Whether a path begins with all components of another.
pub open spec fn begins_with(path: Seq<PartView>, base: Seq<PartView>) -> bool {
    key(base).is_prefix_of(key(path))
}

/// Whether a path lies strictly below another.
pub open spec fn beneath(path: Seq<PartView>, base: Seq<PartView>) -> bool {
    !alike(path, base) && begins_with(path, base)
}

/// Whether one of two paths begins with the other.
pub open spec fn overlap(left: Seq<PartView>, right: Seq<PartView>) -> bool {
    begins_with(left, right) || begins_with(right, left)
}

/// The byte between two components.
pub open spec fn separator(platform: Platform) -> u8 {
    match platform {
        Platform::Windows => 0x5c,
        Platform::Unix => 0x2f,
    }
}

/// Whether a path is taken to the letter by the system.
pub open spec fn verbatim(path: Seq<PartView>) -> bool {
    path.len() > 0 && match path[0].component {
        ComponentView::Prefix(prefix) => match prefix.volume {
            VolumeView::Verbatim(_) => true,
            VolumeView::VerbatimShare(_, _) => true,
            VolumeView::VerbatimDrive(_) => true,
            _ => false,
        },
        _ => false,
    }
}

/// A component of a path that is taken to the letter, as it is best written.
pub open spec fn respelled_part(part: PartView) -> PartView {
    plain(
        match part.component {
            ComponentView::Root(_) => ComponentView::Root(seq![separator(Platform::Windows)]),
            _ => part.component,
        },
    )
}

/// A path that is taken to the letter, as it is best written.
pub open spec fn respelled(path: Seq<PartView>) -> Seq<PartView> {
    path.map_values(|part: PartView| respelled_part(part))
}

/// A path with one component more. What is there already stays as it is
/// written, unless it is taken to the letter.
pub open spec fn pushed(path: Seq<PartView>, component: ComponentView) -> Seq<PartView> {
    (if verbatim(path) {
        respelled(path)
    } else {
        path
    }).push(plain(component))
}

/// A path with the components of another behind its own.
pub open spec fn extended(path: Seq<PartView>, rest: Seq<PartView>) -> Seq<PartView>
    decreases rest.len(),
{
    if rest.len() == 0 {
        path
    } else {
        pushed(extended(path, rest.drop_last()), rest.last().component)
    }
}

/// A path without what is written behind its last component.
pub open spec fn trimmed(path: Seq<PartView>) -> Seq<PartView> {
    if path.len() == 0 {
        path
    } else {
        path.drop_last().push(plain(path.last().component))
    }
}

/// The path of an entry of a directory.
pub open spec fn child(path: Seq<PartView>, name: Seq<u8>) -> Seq<PartView> {
    pushed(path, ComponentView::Name(name))
}

/// The path of an entry of a directory whose name is given as text.
pub open spec fn entry(path: Seq<PartView>, name: Seq<char>) -> Seq<PartView> {
    child(path, vstd::utf8::encode_utf8(name))
}

/// The path without its last component; none for a root or for nothing.
pub open spec fn parent_of(path: Seq<PartView>) -> Option<Seq<PartView>> {
    if path.len() == 0 || path.last().component is Root || path.last().component is Prefix {
        None
    } else {
        Some(trimmed(path.drop_last()))
    }
}

/// The name that a path ends in, if it ends in one.
pub open spec fn name_of(path: Seq<PartView>) -> Option<Seq<u8>> {
    if path.len() == 0 {
        None
    } else {
        match path.last().component {
            ComponentView::Name(name) => Some(name),
            _ => None,
        }
    }
}

impl TreePath {
    /// Orders two paths.
    pub fn compare(&self, other: &TreePath) -> (place: Place)
        ensures
            place == path_place(self@, other@),
    {
        let mut index: usize = 0;
        assert(self@.skip(0) =~= self@);
        assert(other@.skip(0) =~= other@);
        while index < self.parts.len() && index < other.parts.len()
            invariant
                index <= self.parts.len(),
                index <= other.parts.len(),
                path_place(self@, other@) == path_place(
                    self@.skip(index as int),
                    other@.skip(index as int),
                ),
            decreases self.parts.len() - index,
        {
            let ghost rest_left = self@.skip(index as int);
            let ghost rest_right = other@.skip(index as int);
            let place = self.parts[index].compare(&other.parts[index]);
            if place != Place::Same {
                return place;
            }
            assert(rest_left.drop_first() =~= self@.skip(index + 1));
            assert(rest_right.drop_first() =~= other@.skip(index + 1));
            index = index + 1;
        }
        if index < other.parts.len() {
            Place::Before
        } else if index < self.parts.len() {
            Place::After
        } else {
            Place::Same
        }
    }

    /// Whether two paths are equal.
    pub fn same(&self, other: &TreePath) -> (same: bool)
        ensures
            same == alike(self@, other@),
    {
        proof {
            lemma_path_place_same(self@, other@);
        }
        self.compare(other) == Place::Same
    }

    /// Whether this path begins with all components of `base`.
    pub fn starts_with(&self, base: &TreePath) -> (inside: bool)
        ensures
            inside == begins_with(self@, base@),
    {
        proof {
            lemma_begins_with(self@, base@);
        }
        if base.parts.len() > self.parts.len() {
            return false;
        }
        let mut index: usize = 0;
        while index < base.parts.len()
            invariant
                index <= base.parts.len() <= self.parts.len(),
                begins_with(self@, base@) <==> {
                    &&& base@.len() <= self@.len()
                    &&& forall|i: int|
                        0 <= i < base@.len() ==> part_key(#[trigger] base@[i]) == part_key(self@[i])
                },
                forall|i: int| 0 <= i < index ==> part_key(#[trigger] base@[i]) == part_key(self@[i]),
            decreases base.parts.len() - index,
        {
            proof {
                lemma_part_place_same(self@[index as int], base@[index as int]);
            }
            if self.parts[index].compare(&base.parts[index]) != Place::Same {
                return false;
            }
            index = index + 1;
        }
        true
    }

    /// The path of the entry `name` of this directory.
    pub fn join(&self, name: &str) -> (joined: TreePath)
        ensures
            joined@ == entry(self@, name@),
    {
        let bytes = name.as_bytes_vec();
        self.join_bytes(bytes)
    }

    /// The path of the entry with these bytes as its name.
    pub fn join_bytes(&self, name: Vec<u8>) -> (joined: TreePath)
        ensures
            joined@ == child(self@, name@),
    {
        let mut joined = self.copy();
        joined.push(Component::Name(name));
        joined
    }

    /// Whether this path is taken to the letter by the system.
    fn is_verbatim(&self) -> (literal: bool)
        ensures
            literal == verbatim(self@),
    {
        if self.parts.len() == 0 {
            return false;
        }
        match &self.parts[0].component {
            Component::Prefix(prefix) => match prefix.volume {
                Volume::Verbatim(_) | Volume::VerbatimShare(_, _) | Volume::VerbatimDrive(_) => true,
                _ => false,
            },
            _ => false,
        }
    }

    /// This path, as it is best written when it is taken to the letter.
    fn respell(&self) -> (path: TreePath)
        ensures
            path@ == respelled(self@),
    {
        let mut parts: Vec<Part> = Vec::new();
        let mut index: usize = 0;
        while index < self.parts.len()
            invariant
                index <= self.parts.len(),
                parts@.len() == index,
                forall|i: int|
                    0 <= i < parts@.len() ==> (#[trigger] parts@[i])@ == respelled_part(self@[i]),
            decreases self.parts.len() - index,
        {
            parts.push(
                match &self.parts[index].component {
                    Component::Root(_) => Part::root(Platform::Windows),
                    component => Part::plain(component.copy()),
                },
            );
            index = index + 1;
        }
        let path = TreePath { parts };
        assert(path@ =~= respelled(self@));
        path
    }

    /// Puts a component behind this path.
    fn push(&mut self, component: Component)
        ensures
            final(self)@ == pushed(old(self)@, component@),
    {
        if self.is_verbatim() {
            let path = self.respell();
            self.parts = path.parts;
        }
        let ghost before = self@;
        self.parts.push(Part::plain(component));
        assert(self@ =~= before.push(plain(component@)));
    }

    /// This path without what is written behind its last component.
    pub fn trimmed(self) -> (path: TreePath)
        ensures
            path@ == trimmed(self@),
    {
        let mut parts = self.parts;
        match parts.pop() {
            Some(part) => {
                parts.push(Part::plain(part.component));
            },
            None => {},
        }
        let path = TreePath { parts };
        assert(path@ =~= trimmed(self@));
        path
    }

    /// The path without its last component.
    pub fn parent(&self) -> (parent: Option<TreePath>)
        ensures
            match parent {
                Some(path) => parent_of(self@) == Some(path@),
                None => parent_of(self@) is None,
            },
    {
        if self.parts.len() == 0 {
            return None;
        }
        match self.parts[self.parts.len() - 1].component {
            Component::Root(_) | Component::Prefix(_) => None,
            _ => {
                let mut path = self.copy();
                let _ = path.parts.pop();
                assert(path@ =~= self@.drop_last());
                Some(path.trimmed())
            },
        }
    }

    /// The name that this path ends in.
    pub fn file_name(&self) -> (name: Option<Vec<u8>>)
        ensures
            match name {
                Some(bytes) => name_of(self@) == Some(bytes@),
                None => name_of(self@) is None,
            },
    {
        if self.parts.len() == 0 {
            return None;
        }
        match &self.parts[self.parts.len() - 1].component {
            Component::Name(name) => Some(copy_bytes(name)),
            _ => None,
        }
    }

    /// Another path with the same value.
    pub fn copy(&self) -> (copy: TreePath)
        ensures
            copy@ == self@,
    {
        self.suffix(0)
    }

    /// The first `count` components.
    pub fn prefix(&self, count: usize) -> (start: TreePath)
        requires
            count <= self@.len(),
        ensures
            start@ == self@.take(count as int),
    {
        let mut parts: Vec<Part> = Vec::new();
        let mut index: usize = 0;
        while index < count
            invariant
                index <= count <= self.parts.len(),
                parts@.len() == index,
                forall|i: int| 0 <= i < parts@.len() ==> #[trigger] parts@[i]@ == self@[i],
            decreases count - index,
        {
            parts.push(self.parts[index].copy());
            index = index + 1;
        }
        let start = TreePath { parts };
        assert(start@ =~= self@.take(count as int));
        start
    }

    /// This path, with the components of another behind its own.
    pub fn extended(&self, rest: &TreePath) -> (longer: TreePath)
        ensures
            longer@ == extended(self@, rest@),
    {
        let mut longer = self.copy();
        let mut index: usize = 0;
        assert(rest@.take(0) =~= Seq::empty());
        while index < rest.parts.len()
            invariant
                index <= rest.parts.len(),
                longer@ == extended(self@, rest@.take(index as int)),
            decreases rest.parts.len() - index,
        {
            assert(rest@.take(index + 1).drop_last() =~= rest@.take(index as int));
            longer.push(rest.parts[index].component.copy());
            index = index + 1;
        }
        assert(rest@.take(rest@.len() as int) =~= rest@);
        longer
    }

    /// The components from `start` on.
    pub fn suffix(&self, start: usize) -> (rest: TreePath)
        requires
            start <= self@.len(),
        ensures
            rest@ == self@.skip(start as int),
    {
        let mut parts: Vec<Part> = Vec::new();
        let mut index: usize = start;
        while index < self.parts.len()
            invariant
                start <= index <= self.parts.len(),
                parts@.len() == index - start,
                forall|i: int| 0 <= i < parts@.len() ==> #[trigger] parts@[i]@ == self@[start + i],
            decreases self.parts.len() - index,
        {
            parts.push(self.parts[index].copy());
            index = index + 1;
        }
        let rest = TreePath { parts };
        assert(rest@ =~= self@.skip(start as int));
        rest
    }
}

impl Clone for Part {
    fn clone(&self) -> (copy: Part)
        ensures
            copy@ == self@,
    {
        self.copy()
    }
}

impl Clone for TreePath {
    fn clone(&self) -> (copy: TreePath)
        ensures
            copy@ == self@,
    {
        self.copy()
    }
}

} // verus!
