//! The input cursor: what it means to match at a byte offset of the input, and the
//! functions that do it.
//!
//! The input is a sequence of bytes, the UTF-8 encoding of a string; a position is an
//! offset into it. Every function leaves the input alone and returns the new offset.

use vstd::prelude::*;
use vstd::utf8::*;
use vstd::string::*;

verus! {

broadcast use vstd::utf8::group_utf8_lib;

/// `text` stands in `input` at offset `at`.
pub open spec fn occurs_at(input: Seq<u8>, at: int, text: Seq<u8>) -> bool {
    &&& 0 <= at
    &&& at + text.len() <= input.len()
    &&& input.subrange(at, at + text.len()) == text
}

/// Matching `text` at `pos`: the offset behind it where it stands there.
pub open spec fn match_string(input: Seq<u8>, pos: int, text: Seq<u8>) -> Option<int> {
    if occurs_at(input, pos, text) {
        Some(pos + text.len())
    } else {
        None
    }
}

/// The byte with an ASCII capital letter turned into the small one.
pub open spec fn fold_ascii(byte: u8) -> u8 {
    if 0x41 <= byte <= 0x5a {
        (byte + 0x20) as u8
    } else {
        byte
    }
}

/// `text` stands in `input` at offset `at`, ASCII letters compared without regard to case.
pub open spec fn occurs_insensitive_at(input: Seq<u8>, at: int, text: Seq<u8>) -> bool {
    &&& 0 <= at
    &&& at + text.len() <= input.len()
    &&& forall|i: int|
        0 <= i < text.len() ==> fold_ascii(input[at + i]) == fold_ascii(#[trigger] text[i])
}

/// Matching `text` at `pos` without regard to ASCII case: the offset behind it.
pub open spec fn match_insensitive(input: Seq<u8>, pos: int, text: Seq<u8>) -> Option<int> {
    if occurs_insensitive_at(input, pos, text) {
        Some(pos + text.len())
    } else {
        None
    }
}

/// The code point whose encoding starts at `pos`, and the number of bytes of that
/// encoding. `None` at the end of the input, and where the input ends inside the encoding.
pub open spec fn scalar_at(input: Seq<u8>, pos: int) -> Option<(u32, int)> {
    if 0 <= pos < input.len() && pos + length_of_first_codepoint(input.skip(pos))
        <= input.len() {
        Some((decode_first_codepoint(input.skip(pos)), length_of_first_codepoint(input.skip(pos))))
    } else {
        None
    }
}

/// Advancing over one code point: the offset behind the code point at `pos`.
pub open spec fn advance(input: Seq<u8>, pos: int) -> Option<int> {
    match scalar_at(input, pos) {
        Some((_, width)) => Some(pos + width),
        None => None,
    }
}

/// Matching one character between `low` and `high`, both included: the offset behind the
/// code point at `pos` where it lies in that range.
pub open spec fn match_range(input: Seq<u8>, pos: int, low: char, high: char) -> Option<int> {
    match scalar_at(input, pos) {
        Some((value, width)) => if low as u32 <= value <= high as u32 {
            Some(pos + width)
        } else {
            None
        },
        None => None,
    }
}

/// One of `texts` stands in `input` at offset `at`.
pub open spec fn occurs_any_at(input: Seq<u8>, at: int, texts: Seq<Seq<u8>>) -> bool {
    exists|i: int| 0 <= i < texts.len() && occurs_at(input, at, #[trigger] texts[i])
}

/// Scanning for `texts`: the first offset at or behind `pos` at which one of them stands.
pub open spec fn scan_to_any(input: Seq<u8>, pos: int, texts: Seq<Seq<u8>>) -> Option<int>
    decreases input.len() - pos,
{
    if pos < 0 || pos > input.len() {
        None
    } else if occurs_any_at(input, pos, texts) {
        Some(pos)
    } else if pos == input.len() {
        None
    } else {
        scan_to_any(input, pos + 1, texts)
    }
}

/// The UTF-8 encoding of each of `texts`.
pub open spec fn encodings(texts: Seq<Seq<char>>) -> Seq<Seq<u8>> {
    Seq::new(texts.len(), |i: int| encode_utf8(texts[i]))
}

/// An offset, or none, as the exec functions return it.
pub open spec fn offset_is(found: Option<usize>, model: Option<int>) -> bool {
    match found {
        Some(end) => model == Some(end as int),
        None => model is None,
    }
}

/// Whether `text` stands in `input` at offset `at`.
pub fn starts_with_at(input: &[u8], at: usize, text: &[u8]) -> (found: bool)
    requires
        at <= input@.len(),
    ensures
        found == occurs_at(input@, at as int, text@),
{
    if text.len() > input.len() - at {
        return false;
    }
    let mut i: usize = 0;
    while i < text.len()
        invariant
            at + text@.len() <= input@.len() <= usize::MAX,
            i <= text@.len(),
            forall|j: int| 0 <= j < i ==> input@[at + j] == text@[j],
        decreases text@.len() - i,
    {
        if input[at + i] != text[i] {
            assert(input@.subrange(at as int, at + text@.len())[i as int] == input@[at + i]);
            return false;
        }
        i += 1;
    }
    assert(input@.subrange(at as int, at + text@.len()) =~= text@);
    true
}

/// Matches `text` at `pos`.
pub fn match_string_at(input: &[u8], pos: usize, text: &[u8]) -> (end: Option<usize>)
    requires
        pos <= input@.len(),
    ensures
        offset_is(end, match_string(input@, pos as int, text@)),
        end matches Some(e) ==> pos <= e <= input@.len(),
{
    if text.len() <= input.len() - pos && starts_with_at(input, pos, text) {
        Some(pos + text.len())
    } else {
        None
    }
}

/// The byte with an ASCII capital letter turned into the small one.
fn fold_byte(byte: u8) -> (folded: u8)
    ensures
        folded == fold_ascii(byte),
{
    if 0x41 <= byte && byte <= 0x5a {
        byte + 0x20
    } else {
        byte
    }
}

/// Matches `text` at `pos` without regard to ASCII case.
pub fn match_insensitive_at(input: &[u8], pos: usize, text: &[u8]) -> (end: Option<usize>)
    requires
        pos <= input@.len(),
    ensures
        offset_is(end, match_insensitive(input@, pos as int, text@)),
        end matches Some(e) ==> pos <= e <= input@.len(),
{
    if text.len() > input.len() - pos {
        return None;
    }
    let mut i: usize = 0;
    while i < text.len()
        invariant
            pos + text@.len() <= input@.len() <= usize::MAX,
            i <= text@.len(),
            forall|j: int| 0 <= j < i ==> fold_ascii(input@[pos + j]) == fold_ascii(#[trigger] text@[j]),
        decreases text@.len() - i,
    {
        if fold_byte(input[pos + i]) != fold_byte(text[i]) {
            return None;
        }
        i += 1;
    }
    Some(pos + text.len())
}

/// Decodes the code point at `pos`.
pub fn scalar_at_pos(input: &[u8], pos: usize) -> (found: Option<(u32, usize)>)
    requires
        pos <= input@.len(),
    ensures
        match found {
            Some((value, width)) => scalar_at(input@, pos as int) == Some((value, width as int))
                && 1 <= width <= 4 && pos + width <= input@.len(),
            None => scalar_at(input@, pos as int) is None,
        },
{
    if pos >= input.len() {
        return None;
    }
    let ghost rest = input@.skip(pos as int);
    let left = input.len() - pos;
    let b0 = input[pos];
    assert(rest[0] == b0);
    if b0 <= 0x7f {
        Some(((b0 & 0x7f) as u32, 1))
    } else if 0xc0 <= b0 && b0 <= 0xdf {
        if left < 2 {
            return None;
        }
        let b1 = input[pos + 1];
        assert(rest[1] == b1);
        Some(((((b0 & 0x1f) as u32) << 6) | ((b1 & 0x3f) as u32), 2))
    } else if 0xe0 <= b0 && b0 <= 0xef {
        if left < 3 {
            return None;
        }
        let b1 = input[pos + 1];
        let b2 = input[pos + 2];
        assert(rest[1] == b1 && rest[2] == b2);
        Some(
            (
                (((b0 & 0x0f) as u32) << 12) | (((b1 & 0x3f) as u32) << 6) | ((b2 & 0x3f) as u32),
                3,
            ),
        )
    } else {
        if left < 4 {
            return None;
        }
        let b1 = input[pos + 1];
        let b2 = input[pos + 2];
        let b3 = input[pos + 3];
        assert(rest[1] == b1 && rest[2] == b2 && rest[3] == b3);
        Some(
            (
                (((b0 & 0x07) as u32) << 18) | (((b1 & 0x3f) as u32) << 12) | (((b2 & 0x3f) as u32)
                    << 6) | ((b3 & 0x3f) as u32),
                4,
            ),
        )
    }
}

/// Advances over the code point at `pos`.
pub fn advance_at(input: &[u8], pos: usize) -> (end: Option<usize>)
    requires
        pos <= input@.len(),
    ensures
        offset_is(end, advance(input@, pos as int)),
        end matches Some(e) ==> pos < e <= input@.len(),
{
    if pos >= input.len() {
        return None;
    }
    match scalar_at_pos(input, pos) {
        Some((_, width)) => Some(pos + width),
        None => None,
    }
}

/// Matches one character between `low` and `high`, both included, at `pos`.
pub fn match_range_at(input: &[u8], pos: usize, low: char, high: char) -> (end: Option<usize>)
    requires
        pos <= input@.len(),
    ensures
        offset_is(end, match_range(input@, pos as int, low, high)),
        end matches Some(e) ==> pos < e <= input@.len(),
{
    if pos >= input.len() {
        return None;
    }
    match scalar_at_pos(input, pos) {
        Some((value, width)) => {
            if low as u32 <= value && value <= high as u32 {
                Some(pos + width)
            } else {
                None
            }
        },
        None => None,
    }
}

/// Whether one of `strings` stands in `input` at offset `at`.
fn any_starts_at(input: &[u8], at: usize, strings: &Vec<String>) -> (found: bool)
    requires
        at <= input@.len(),
    ensures
        found == occurs_any_at(input@, at as int, encodings(crate::grammar::texts_of(strings@))),
{
    let ghost texts = encodings(crate::grammar::texts_of(strings@));
    let mut i: usize = 0;
    while i < strings.len()
        invariant
            at <= input@.len(),
            i <= strings@.len(),
            texts == encodings(crate::grammar::texts_of(strings@)),
            forall|j: int| 0 <= j < i ==> !occurs_at(input@, at as int, #[trigger] texts[j]),
        decreases strings@.len() - i,
    {
        let text = strings[i].as_str().as_bytes();
        assert(text@ == texts[i as int]);
        if starts_with_at(input, at, text) {
            return true;
        }
        i += 1;
    }
    false
}

/// Scans from `pos` for the first offset at which one of `strings` stands.
pub fn scan_to_any_at(input: &[u8], pos: usize, strings: &Vec<String>) -> (end: Option<usize>)
    requires
        pos <= input@.len(),
    ensures
        offset_is(
            end,
            scan_to_any(input@, pos as int, encodings(crate::grammar::texts_of(strings@))),
        ),
        end matches Some(e) ==> pos <= e <= input@.len(),
{
    let ghost texts = encodings(crate::grammar::texts_of(strings@));
    let mut at: usize = pos;
    loop
        invariant
            pos <= at <= input@.len(),
            texts == encodings(crate::grammar::texts_of(strings@)),
            scan_to_any(input@, pos as int, texts) == scan_to_any(input@, at as int, texts),
        decreases input@.len() - at,
    {
        if any_starts_at(input, at, strings) {
            return Some(at);
        }
        if at == input.len() {
            return None;
        }
        at += 1;
    }
}

/// Whether the two strings hold the same text.
pub fn same_text(a: &str, b: &str) -> (same: bool)
    ensures
        same == (a@ == b@),
{
    let left = a.as_bytes();
    let right = b.as_bytes();
    proof {
        assert(decode_utf8(encode_utf8(a@)) == a@);
        assert(decode_utf8(encode_utf8(b@)) == b@);
    }
    if left.len() != right.len() {
        return false;
    }
    let same = starts_with_at(left, 0, right);
    assert(left@.subrange(0, left@.len() as int) =~= left@);
    same
}

} // verus!
