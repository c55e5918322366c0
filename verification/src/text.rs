//! Text that is shown to a person: numbers, padding, and bytes read as text.

use vstd::prelude::*;

verus! {

/// What the lines of a list say.
pub open spec fn texts(lines: Seq<String>) -> Seq<Seq<char>> {
    lines.map_values(|line: String| line@)
}

/// Adding a line adds its text.
pub broadcast proof fn lemma_texts_push(lines: Seq<String>, line: String)
    ensures
        #[trigger] texts(lines.push(line)) == texts(lines).push(line@),
{
    assert(texts(lines.push(line)) =~= texts(lines).push(line@));
}

/// Joining two lists joins their texts.
pub broadcast proof fn lemma_texts_add(left: Seq<String>, right: Seq<String>)
    ensures
        #[trigger] texts(left + right) == texts(left) + texts(right),
{
    assert(texts(left + right) =~= texts(left) + texts(right));
}

/// No lines, no texts.
pub broadcast proof fn lemma_texts_empty()
    ensures
        #[trigger] texts(Seq::<String>::empty()) == Seq::<Seq<char>>::empty(),
{
    assert(texts(Seq::<String>::empty()) =~= Seq::<Seq<char>>::empty());
}

pub broadcast group group_texts {
    lemma_texts_push,
    lemma_texts_add,
    lemma_texts_empty,
}

/// The decimal digit of a number below ten.
pub open spec fn digit(value: nat) -> char {
    (48 + value) as char
}

/// A number in decimal, without leading zeros.
pub open spec fn decimal(value: nat) -> Seq<char>
    decreases value,
{
    if value < 10 {
        seq![digit(value)]
    } else {
        decimal(value / 10).push(digit(value % 10))
    }
}

fn digit_text(value: u128) -> (text: &'static str)
    requires
        value < 10,
    ensures
        text@ == seq![digit(value as nat)],
{
    proof {
        reveal_strlit("0");
        reveal_strlit("1");
        reveal_strlit("2");
        reveal_strlit("3");
        reveal_strlit("4");
        reveal_strlit("5");
        reveal_strlit("6");
        reveal_strlit("7");
        reveal_strlit("8");
        reveal_strlit("9");
    }
    match value {
        0 => "0",
        1 => "1",
        2 => "2",
        3 => "3",
        4 => "4",
        5 => "5",
        6 => "6",
        7 => "7",
        8 => "8",
        _ => "9",
    }
}

/// Writes a number in decimal.
pub fn decimal_text(value: u128) -> (text: String)
    ensures
        text@ == decimal(value as nat),
    decreases value,
{
    if value < 10 {
        digit_text(value).to_owned()
    } else {
        let mut text = decimal_text(value / 10);
        text.append(digit_text(value % 10));
        text
    }
}

/// `count` copies of one character.
pub open spec fn repeated(unit: char, count: nat) -> Seq<char> {
    Seq::new(count, |i: int| unit)
}

/// Appends `count` copies of a one-character text.
pub fn append_repeated(text: &mut String, unit: &str, count: usize)
    requires
        unit@.len() == 1,
    ensures
        final(text)@ == old(text)@ + repeated(unit@[0], count as nat),
{
    let ghost before = text@;
    let mut done: usize = 0;
    assert(text@ =~= before + repeated(unit@[0], 0));
    while done < count
        invariant
            done <= count,
            unit@.len() == 1,
            text@ == before + repeated(unit@[0], done as nat),
        decreases count - done,
    {
        text.append(unit);
        done = done + 1;
        assert(text@ =~= before + repeated(unit@[0], done as nat));
    }
}

/// Spaces that bring a text to a width.
pub open spec fn fill(text: Seq<char>, width: nat) -> Seq<char> {
    repeated(' ', if text.len() < width { (width - text.len()) as nat } else { 0 })
}

/// A text aligned to the left of a column.
pub open spec fn aligned_left(text: Seq<char>, width: nat) -> Seq<char> {
    text + fill(text, width)
}

/// A text aligned to the right of a column.
pub open spec fn aligned_right(text: Seq<char>, width: nat) -> Seq<char> {
    fill(text, width) + text
}

fn missing_width(text: &str, width: usize) -> (missing: usize)
    ensures
        missing == (if text@.len() < width { width - text@.len() } else { 0 }),
{
    let length: usize = text.unicode_len();
    if length < width {
        width - length
    } else {
        0
    }
}

/// Aligns a text to the left of a column.
pub fn align_left(text: &str, width: usize) -> (aligned: String)
    ensures
        aligned@ == aligned_left(text@, width as nat),
{
    proof {
        reveal_strlit(" ");
    }
    let mut aligned = text.to_owned();
    append_repeated(&mut aligned, " ", missing_width(text, width));
    aligned
}

/// Aligns a text to the right of a column.
pub fn align_right(text: &str, width: usize) -> (aligned: String)
    ensures
        aligned@ == aligned_right(text@, width as nat),
{
    proof {
        reveal_strlit(" ");
    }
    let mut aligned = String::new();
    append_repeated(&mut aligned, " ", missing_width(text, width));
    assert(aligned@ =~= fill(text@, width as nat));
    aligned.append(text);
    aligned
}

/// Whether a text says what another one does.
pub fn same_text(left: &str, right: &str) -> (same: bool)
    ensures
        same == (left@ == right@),
{
    let left = left.to_owned();
    let right = right.to_owned();
    left == right
}

/// The rest of a text after its start, if it starts so.
pub fn strip_start(text: &str, start: &str) -> (rest: Option<String>)
    ensures
        match rest {
            Some(rest) => start@.is_prefix_of(text@) && rest@ == text@.skip(start@.len() as int),
            None => !start@.is_prefix_of(text@),
        },
{
    let length: usize = text.unicode_len();
    let count: usize = start.unicode_len();
    if count > length {
        return None;
    }
    if same_text(text.substring_char(0, count), start) {
        Some(text.substring_char(count, length).to_owned())
    } else {
        None
    }
}

/// Copies a list of lines.
pub fn copy_lines(lines: &Vec<String>) -> (copy: Vec<String>)
    ensures
        copy@ == lines@,
{
    let mut copy: Vec<String> = Vec::new();
    let mut index: usize = 0;
    while index < lines.len()
        invariant
            index <= lines.len(),
            copy@ == lines@.take(index as int),
        decreases lines.len() - index,
    {
        copy.push(lines[index].clone());
        index = index + 1;
        assert(copy@ =~= lines@.take(index as int));
    }
    assert(copy@ =~= lines@);
    copy
}

/// Whether bytes begin with those for half of a surrogate pair. A name on
/// Windows can hold one, and its bytes are then no UTF-8.
pub open spec fn begins_with_half(bytes: Seq<u8>) -> bool {
    &&& bytes.len() >= 3
    &&& bytes[0] == 0xed
    &&& 0xa0 <= bytes[1] <= 0xbf
    &&& 0x80 <= bytes[2] <= 0xbf
}

/// Bytes with a replacement character for each half of a surrogate pair.
pub open spec fn without_halves(bytes: Seq<u8>) -> Seq<u8>
    decreases bytes.len(),
{
    if bytes.len() == 0 {
        bytes
    } else if begins_with_half(bytes) {
        seq![0xefu8, 0xbfu8, 0xbdu8] + without_halves(bytes.skip(3))
    } else {
        seq![bytes[0]] + without_halves(bytes.skip(1))
    }
}

/// Puts a replacement character for each half of a surrogate pair.
pub fn replace_halves(bytes: &Vec<u8>) -> (replaced: Vec<u8>)
    ensures
        replaced@ == without_halves(bytes@),
{
    let mut replaced: Vec<u8> = Vec::new();
    let mut index: usize = 0;
    assert(bytes@.skip(0) =~= bytes@);
    assert(replaced@ + without_halves(bytes@) =~= without_halves(bytes@));
    while index < bytes.len()
        invariant
            index <= bytes.len(),
            replaced@ + without_halves(bytes@.skip(index as int)) == without_halves(bytes@),
        decreases bytes.len() - index,
    {
        let ghost rest = bytes@.skip(index as int);
        let ghost before = replaced@;
        if bytes.len() - index >= 3 && bytes[index] == 0xed && 0xa0 <= bytes[index + 1]
            && bytes[index + 1] <= 0xbf && 0x80 <= bytes[index + 2] && bytes[index + 2] <= 0xbf {
            assert(begins_with_half(rest));
            replaced.push(0xef);
            replaced.push(0xbf);
            replaced.push(0xbd);
            index = index + 3;
            assert(rest.skip(3) =~= bytes@.skip(index as int));
            assert(replaced@ + without_halves(bytes@.skip(index as int)) =~= before
                + without_halves(rest));
        } else {
            assert(!begins_with_half(rest));
            replaced.push(bytes[index]);
            index = index + 1;
            assert(rest.skip(1) =~= bytes@.skip(index as int));
            assert(replaced@ + without_halves(bytes@.skip(index as int)) =~= before
                + without_halves(rest));
        }
    }
    assert(bytes@.skip(bytes@.len() as int) =~= Seq::empty());
    assert(replaced@ + Seq::<u8>::empty() =~= replaced@);
    replaced
}

/// What `String::from_utf8_lossy` makes of a sequence of bytes.
pub uninterp spec fn lossy_text(bytes: Seq<u8>) -> Seq<char>;

/// Calls `String::from_utf8_lossy`: bytes as text, with replacement characters
/// where they are not UTF-8. Claimed of it: the text depends on the bytes
/// alone, and bytes that are UTF-8 give the characters they encode.
#[verifier::external_body]
pub(crate) fn decode_lossy(bytes: &[u8]) -> (text: String)
    ensures
        text@ == lossy_text(bytes@),
        vstd::utf8::valid_utf8(bytes@) ==> text@ == vstd::utf8::decode_utf8(bytes@),
{
    String::from_utf8_lossy(bytes).into_owned()
}

/// The characters with the Unicode property `White_Space`.
pub open spec fn is_white_space(c: char) -> bool {
    let code = c as u32;
    ||| 0x9 <= code <= 0xd
    ||| code == 0x20
    ||| code == 0x85
    ||| code == 0xa0
    ||| code == 0x1680
    ||| 0x2000 <= code <= 0x200a
    ||| code == 0x2028
    ||| code == 0x2029
    ||| code == 0x202f
    ||| code == 0x205f
    ||| code == 0x3000
}

/// A text without the white space at its two ends.
pub open spec fn trimmed(text: Seq<char>) -> Seq<char>
    decreases text.len(),
{
    if text.len() == 0 {
        text
    } else if is_white_space(text.first()) {
        trimmed(text.drop_first())
    } else if is_white_space(text.last()) {
        trimmed(text.drop_last())
    } else {
        text
    }
}

fn is_space(c: char) -> (space: bool)
    ensures
        space == is_white_space(c),
{
    let code: u32 = c as u32;
    (0x9 <= code && code <= 0xd) || code == 0x20 || code == 0x85 || code == 0xa0 || code == 0x1680
        || (0x2000 <= code && code <= 0x200a) || code == 0x2028 || code == 0x2029 || code == 0x202f
        || code == 0x205f || code == 0x3000
}

/// Takes the white space away at the two ends of a text.
pub(crate) fn trim_text(text: &str) -> (shown: String)
    ensures
        shown@ == trimmed(text@),
{
    let mut letters: Vec<char> = Vec::new();
    for letter in iter: text.chars()
        invariant
            iter.seq() == text@,
            letters@ == text@.take(iter.index() as int),
    {
        letters.push(letter);
        assert(letters@ =~= text@.take(iter.index() + 1));
    }
    assert(letters@ =~= text@);
    let mut start: usize = 0;
    let mut end: usize = letters.len();
    assert(text@.subrange(0, end as int) =~= text@);
    while start < end && is_space(letters[start])
        invariant
            start <= end == letters.len(),
            letters@ == text@,
            trimmed(text@) == trimmed(text@.subrange(start as int, end as int)),
        decreases end - start,
    {
        assert(text@.subrange(start as int, end as int).drop_first() =~= text@.subrange(
            start + 1,
            end as int,
        ));
        start = start + 1;
    }
    while start < end && is_space(letters[end - 1])
        invariant
            start <= end <= letters.len(),
            letters@ == text@,
            start < end ==> !is_white_space(text@[start as int]),
            trimmed(text@) == trimmed(text@.subrange(start as int, end as int)),
        decreases end - start,
    {
        assert(text@.subrange(start as int, end as int).drop_last() =~= text@.subrange(
            start as int,
            end - 1,
        ));
        end = end - 1;
    }
    text.substring_char(start, end).to_owned()
}

} // verus!
