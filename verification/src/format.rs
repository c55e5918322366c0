//! How sizes, durations, rates and paths are shown to a person.

use crate::binary;
use crate::binary::Binary;
use crate::path;
use crate::path::{Component, ComponentView, Part, PartView, Platform, TreePath, Volume};
use crate::text;
use vstd::prelude::*;

verus! {

/// A length of time.
#[derive(Clone, Copy, Debug, PartialEq, Eq)]
pub struct Span {
    secs: u64,
    nanos: u32,
}

impl Span {
    #[verifier::type_invariant]
    spec fn normal(self) -> bool {
        self.nanos < 1_000_000_000
    }

    /// Its whole seconds.
    pub closed spec fn secs(self) -> nat {
        self.secs as nat
    }

    /// The nanoseconds beyond its whole seconds.
    pub closed spec fn nanos(self) -> nat {
        self.nanos as nat
    }

    /// Whether it is shorter than half a second.
    pub fn is_below_half_a_second(&self) -> (below: bool)
        ensures
            below == (self.secs() == 0 && self.nanos() < 500_000_000),
    {
        self.secs == 0 && self.nanos < 500_000_000
    }

    /// The length of time of so many seconds and nanoseconds.
    pub fn new(secs: u64, nanos: u32) -> (span: Span)
        requires
            nanos < 1_000_000_000,
        ensures
            span.secs() == secs,
            span.nanos() == nanos,
    {
        Span { secs, nanos }
    }
}

/// The text for a number of bytes: in the largest binary unit of which there
/// is at least one, up to the tebibyte.
pub open spec fn size_text(bytes: nat) -> Seq<char> {
    let value = binary::rounded(bytes);
    if value < 0x400 {
        text::decimal(value) + " B"@
    } else if value < 0x10_0000 {
        binary::one_place((binary::Fraction { num: value, den: 0x400 })) + " KiB"@
    } else if value < 0x4000_0000 {
        binary::one_place((binary::Fraction { num: value, den: 0x10_0000 })) + " MiB"@
    } else if value < 0x100_0000_0000 {
        binary::one_place((binary::Fraction { num: value, den: 0x4000_0000 })) + " GiB"@
    } else {
        binary::one_place((binary::Fraction { num: value, den: 0x100_0000_0000 })) + " TiB"@
    }
}

/// Writes a number of bytes.
pub fn human_size(bytes: u64) -> (shown: String)
    ensures
        shown@ == size_text(bytes as nat),
{
    let value: u128 = binary::round_whole(bytes);
    if value < 0x400 {
        let mut shown = text::decimal_text(value);
        shown.append(" B");
        shown
    } else if value < 0x10_0000 {
        let mut shown = binary::one_place_text(value, 0x400);
        shown.append(" KiB");
        shown
    } else if value < 0x4000_0000 {
        let mut shown = binary::one_place_text(value, 0x10_0000);
        shown.append(" MiB");
        shown
    } else if value < 0x100_0000_0000 {
        let mut shown = binary::one_place_text(value, 0x4000_0000);
        shown.append(" GiB");
        shown
    } else {
        let mut shown = binary::one_place_text(value, 0x100_0000_0000);
        shown.append(" TiB");
        shown
    }
}

/// The text for a length of time: minutes from one minute on, seconds from
/// one second on, milliseconds below.
pub open spec fn duration_text(secs: nat, nanos: nat) -> Seq<char> {
    if secs >= 60 {
        binary::one_place(binary::minutes(secs, nanos)) + "m"@
    } else if secs >= 1 {
        binary::two_places(binary::seconds(secs, nanos)) + "s"@
    } else {
        text::decimal(nanos / 1_000_000) + "ms"@
    }
}

/// Writes a length of time.
pub fn human_duration(duration: Span) -> (shown: String)
    ensures
        shown@ == duration_text(duration.secs(), duration.nanos()),
{
    proof {
        use_type_invariant(&duration);
    }
    if duration.secs >= 60 {
        let mut shown = Binary::minutes(duration.secs, duration.nanos).one_place();
        shown.append("m");
        shown
    } else if duration.secs >= 1 {
        let mut shown = Binary::seconds(duration.secs, duration.nanos).two_places();
        shown.append("s");
        shown
    } else {
        let mut shown = text::decimal_text((duration.nanos / 1_000_000) as u128);
        shown.append("ms");
        shown
    }
}

/// The text for a rate, whole bytes per second; a dash where there is none.
pub open spec fn rate_text(bytes_per_second: Option<u64>) -> Seq<char> {
    match bytes_per_second {
        Some(bytes) => size_text(bytes as nat) + "/s"@,
        None => "—"@,
    }
}

/// Writes a rate.
pub fn human_rate(bytes_per_second: Option<u64>) -> (shown: String)
    ensures
        shown@ == rate_text(bytes_per_second),
{
    match bytes_per_second {
        Some(bytes) => {
            let mut shown = human_size(bytes);
            shown.append("/s");
            shown
        },
        None => "—".to_owned(),
    }
}

/// Whether a byte stands between components.
pub open spec fn is_separator(byte: u8, platform: Platform) -> bool {
    byte == 0x2f || (platform == Platform::Windows && byte == 0x5c)
}

/// The bytes of one component.
pub open spec fn component_bytes(component: ComponentView) -> Seq<u8> {
    match component {
        ComponentView::Prefix(prefix) => prefix.shown,
        ComponentView::Root(text) => text,
        ComponentView::Current => seq![0x2e],
        ComponentView::Parent => seq![0x2e, 0x2e],
        ComponentView::Name(text) => text,
    }
}

/// Whether bytes end in a separator, or there are none.
pub open spec fn is_closed(bytes: Seq<u8>, platform: Platform) -> bool {
    bytes.len() == 0 || is_separator(bytes.last(), platform)
}

/// Whether a separator goes behind a component, before one that is not the
/// root. The bytes are those of the path up to there. Behind the letter of a
/// drive there is none: what follows is relative to a directory of the drive.
pub open spec fn is_open(part: PartView, bytes: Seq<u8>, platform: Platform) -> bool {
    if part.gap.len() > 0 {
        !is_closed(part.gap, platform)
    } else {
        match part.component {
            ComponentView::Prefix(prefix) => !(prefix.volume is Drive) && !is_closed(bytes, platform),
            ComponentView::Root(_) => !is_closed(bytes, platform),
            _ => true,
        }
    }
}

/// A path in bytes, as it is written.
pub open spec fn path_bytes(path: Seq<PartView>, platform: Platform) -> Seq<u8>
    decreases path.len(),
{
    if path.len() == 0 {
        Seq::empty()
    } else {
        let before = path.drop_last();
        let bytes = path_bytes(before, platform);
        let joint = if before.len() > 0 && !(path.last().component is Root) && is_open(
            before.last(),
            bytes,
            platform,
        ) {
            seq![path::separator(platform)]
        } else {
            Seq::empty()
        };
        bytes + joint + component_bytes(path.last().component) + path.last().gap
    }
}

fn append_bytes(bytes: &mut Vec<u8>, more: &Vec<u8>)
    ensures
        final(bytes)@ == old(bytes)@ + more@,
{
    bytes.extend_from_slice(more.as_slice());
    assert(bytes@ =~= old(bytes)@ + more@);
}

fn append_component(bytes: &mut Vec<u8>, component: &Component)
    ensures
        final(bytes)@ == old(bytes)@ + component_bytes(component@),
{
    match component {
        Component::Prefix(prefix) => append_bytes(bytes, &prefix.shown),
        Component::Root(text) => append_bytes(bytes, text),
        Component::Name(text) => append_bytes(bytes, text),
        Component::Current => {
            bytes.push(0x2e);
            assert(bytes@ =~= old(bytes)@ + seq![0x2eu8]);
        },
        Component::Parent => {
            bytes.push(0x2e);
            bytes.push(0x2e);
            assert(bytes@ =~= old(bytes)@ + seq![0x2eu8, 0x2eu8]);
        },
    }
}

fn append_separator(bytes: &mut Vec<u8>, platform: Platform)
    ensures
        final(bytes)@ == old(bytes)@ + seq![path::separator(platform)],
{
    match platform {
        Platform::Windows => bytes.push(0x5c),
        Platform::Unix => bytes.push(0x2f),
    }
    assert(bytes@ =~= old(bytes)@ + seq![path::separator(platform)]);
}

fn ends_closed(bytes: &Vec<u8>, platform: Platform) -> (closed: bool)
    ensures
        closed == is_closed(bytes@, platform),
{
    if bytes.len() == 0 {
        return true;
    }
    let last: u8 = bytes[bytes.len() - 1];
    last == 0x2f || (platform == Platform::Windows && last == 0x5c)
}

fn stays_open(part: &Part, bytes: &Vec<u8>, platform: Platform) -> (open: bool)
    ensures
        open == is_open(part@, bytes@, platform),
{
    if part.gap.len() > 0 {
        return !ends_closed(&part.gap, platform);
    }
    match &part.component {
        Component::Prefix(prefix) => {
            let drive: bool = match prefix.volume {
                Volume::Drive(_) => true,
                _ => false,
            };
            !drive && !ends_closed(bytes, platform)
        },
        Component::Root(_) => !ends_closed(bytes, platform),
        _ => true,
    }
}

/// Writes a path in bytes.
pub fn write_path(path: &TreePath, platform: Platform) -> (bytes: Vec<u8>)
    ensures
        bytes@ == path_bytes(path@, platform),
{
    let mut bytes: Vec<u8> = Vec::new();
    let mut index: usize = 0;
    assert(path@.take(0) =~= Seq::empty());
    while index < path.parts.len()
        invariant
            index <= path.parts.len(),
            bytes@ == path_bytes(path@.take(index as int), platform),
        decreases path.parts.len() - index,
    {
        let ghost before = path@.take(index as int);
        let ghost longer = path@.take(index + 1);
        let ghost done = bytes@;
        assert(longer.drop_last() =~= before);
        assert(longer.last() == path.parts@[index as int]@);
        let begins: bool = match path.parts[index].component {
            Component::Root(_) => true,
            _ => false,
        };
        if index > 0 && !begins && stays_open(&path.parts[index - 1], &bytes, platform) {
            assert(before.last() == path.parts@[index - 1]@);
            append_separator(&mut bytes, platform);
        } else {
            assert(index > 0 ==> before.last() == path.parts@[index - 1]@);
            assert(bytes@ =~= done + Seq::<u8>::empty());
        }
        append_component(&mut bytes, &path.parts[index].component);
        append_bytes(&mut bytes, &path.parts[index].gap);
        index = index + 1;
    }
    assert(path@.take(path@.len() as int) =~= path@);
    bytes
}

/// What of a text is shown on Windows, whose canonical paths carry a verbatim
/// prefix that is noisy to read.
pub open spec fn without_verbatim(shown: Seq<char>) -> Seq<char> {
    let share = "\\\\?\\UNC\\"@;
    let plain = "\\\\?\\"@;
    if share.is_prefix_of(shown) {
        "\\\\"@ + shown.skip(share.len() as int)
    } else if plain.is_prefix_of(shown) {
        shown.skip(plain.len() as int)
    } else {
        shown
    }
}

/// A path as text. On Windows, half of a surrogate pair in a name is shown as
/// one replacement character.
pub open spec fn plain_text(path: Seq<PartView>, platform: Platform) -> Seq<char> {
    let bytes = path_bytes(path, platform);
    match platform {
        Platform::Windows => text::lossy_text(text::without_halves(bytes)),
        Platform::Unix => text::lossy_text(bytes),
    }
}

/// Writes a path as text.
pub fn plain_path(path: &TreePath, platform: Platform) -> (shown: String)
    ensures
        shown@ == plain_text(path@, platform),
{
    let bytes = write_path(path, platform);
    match platform {
        Platform::Windows => text::decode_lossy(text::replace_halves(&bytes).as_slice()),
        Platform::Unix => text::decode_lossy(bytes.as_slice()),
    }
}

/// How a path is shown.
pub open spec fn display_text(path: Seq<PartView>, platform: Platform) -> Seq<char> {
    let shown = plain_text(path, platform);
    match platform {
        Platform::Windows => without_verbatim(shown),
        Platform::Unix => shown,
    }
}

/// Shows a path.
pub fn display_path(path: &TreePath, platform: Platform) -> (shown: String)
    ensures
        shown@ == display_text(path@, platform),
{
    let shown = plain_path(path, platform);
    match platform {
        Platform::Windows => strip_verbatim(shown.as_str()),
        Platform::Unix => shown,
    }
}

/// Takes the verbatim prefix off a text.
pub fn strip_verbatim(shown: &str) -> (stripped: String)
    ensures
        stripped@ == without_verbatim(shown@),
{
    match text::strip_start(shown, "\\\\?\\UNC\\") {
        Some(rest) => {
            let mut stripped = "\\\\".to_owned();
            stripped.append(rest.as_str());
            stripped
        },
        None => match text::strip_start(shown, "\\\\?\\") {
            Some(rest) => rest,
            None => shown.to_owned(),
        },
    }
}

/// How a path is shown to someone who knows the root: without it, unless
/// nothing would be left.
pub open spec fn relative_text(
    path: Seq<PartView>,
    root: Seq<PartView>,
    platform: Platform,
) -> Seq<char> {
    let rest = path::trimmed(path.skip(root.len() as int));
    if path::begins_with(path, root) && path_bytes(rest, platform).len() > 0 {
        display_text(rest, platform)
    } else {
        display_text(path, platform)
    }
}

/// Shows a path relative to the root.
pub fn relative_display(path: &TreePath, root: &TreePath, platform: Platform) -> (shown: String)
    ensures
        shown@ == relative_text(path@, root@, platform),
{
    proof {
        path::lemma_begins_with(path@, root@);
    }
    if path.starts_with(root) {
        let rest = path.suffix(root.parts.len()).trimmed();
        if write_path(&rest, platform).len() > 0 {
            return display_path(&rest, platform);
        }
    }
    display_path(path, platform)
}

} // verus!
