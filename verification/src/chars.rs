//! Character boundaries: the cursor, started at the boundary of a character of a UTF-8
//! input, only ever reaches boundaries of characters.

use vstd::prelude::*;
use vstd::utf8::*;
use crate::cursor::{
    advance, encodings, fold_ascii, match_insensitive, match_range, match_string, occurs_any_at,
    occurs_at, scalar_at, scan_to_any,
};

verus! {

broadcast use vstd::utf8::group_utf8_lib;

/// A boundary lies inside the text.
pub proof fn lemma_boundary_inside(bytes: Seq<u8>, index: int)
    requires
        valid_utf8(bytes),
        is_char_boundary(bytes, index),
    ensures
        0 <= index <= bytes.len(),
{
}

/// A boundary of what follows a boundary is a boundary of the whole.
pub proof fn lemma_boundary_behind(input: Seq<u8>, pos: int, step: int)
    requires
        valid_utf8(input),
        is_char_boundary(input, pos),
        is_char_boundary(input.subrange(pos, input.len() as int), step),
    ensures
        is_char_boundary(input, pos + step),
{
    lemma_boundary_inside(input, pos);
    let rest = input.subrange(pos, input.len() as int);
    assert(valid_utf8(rest));
    lemma_boundary_inside(rest, step);
    if pos + step < input.len() {
        assert(rest[step] == input[pos + step]);
        is_char_boundary_iff_not_is_continuation_byte(rest, step);
        is_char_boundary_iff_not_is_continuation_byte(input, pos + step);
    } else {
        is_char_boundary_start_end_of_seq(input);
    }
}

/// The first character of a text ends inside the text, at a boundary.
pub proof fn lemma_first_scalar(bytes: Seq<u8>)
    requires
        valid_utf8(bytes),
        bytes.len() > 0,
    ensures
        1 <= length_of_first_codepoint(bytes) <= bytes.len(),
        is_char_boundary(bytes, length_of_first_codepoint(bytes)),
        valid_utf8(pop_first_scalar(bytes)),
        !is_continuation_byte(bytes[0]),
{
    reveal_with_fuel(is_char_boundary, 2);
}

/// A text that is the beginning of another ends at a boundary of the other.
pub proof fn lemma_prefix_boundary(text: Seq<u8>, input: Seq<u8>)
    requires
        valid_utf8(text),
        valid_utf8(input),
        occurs_at(input, 0, text),
    ensures
        is_char_boundary(input, text.len() as int),
    decreases text.len(),
{
    if text.len() > 0 {
        lemma_first_scalar(text);
        lemma_first_scalar(input);
        assert(input.subrange(0, text.len() as int)[0] == input[0]);
        let width = length_of_first_codepoint(text);
        assert(width == length_of_first_codepoint(input));
        let text_rest = pop_first_scalar(text);
        let input_rest = pop_first_scalar(input);
        assert(input_rest.subrange(0, text_rest.len() as int) =~= text_rest) by {
            assert forall|i: int| 0 <= i < text_rest.len() implies input_rest[i]
                == text_rest[i] by {
                assert(input.subrange(0, text.len() as int)[i + width] == input[i + width]);
            }
        }
        lemma_prefix_boundary(text_rest, input_rest);
    }
}

/// A text that is the beginning of another but for the case of ASCII letters ends at a
/// boundary of the other.
pub proof fn lemma_folded_prefix_boundary(text: Seq<u8>, input: Seq<u8>)
    requires
        valid_utf8(text),
        valid_utf8(input),
        occurs_insensitive_at_start(input, text),
    ensures
        is_char_boundary(input, text.len() as int),
    decreases text.len(),
{
    if text.len() > 0 {
        lemma_first_scalar(text);
        lemma_first_scalar(input);
        assert(fold_ascii(input[0]) == fold_ascii(text[0]));
        let width = length_of_first_codepoint(text);
        assert(width == length_of_first_codepoint(input));
        let text_rest = pop_first_scalar(text);
        let input_rest = pop_first_scalar(input);
        assert forall|i: int| 0 <= i < text_rest.len() implies fold_ascii(input_rest[i])
            == fold_ascii(#[trigger] text_rest[i]) by {
            assert(text_rest[i] == text[i + width]);
            assert(fold_ascii(input[i + width]) == fold_ascii(text[i + width]));
        }
        lemma_folded_prefix_boundary(text_rest, input_rest);
    }
}

/// `text` stands at the start of `input`, ASCII letters compared without regard to case.
pub open spec fn occurs_insensitive_at_start(input: Seq<u8>, text: Seq<u8>) -> bool {
    &&& text.len() <= input.len()
    &&& forall|i: int| 0 <= i < text.len() ==> fold_ascii(input[i]) == fold_ascii(#[trigger] text[i])
}

/// A match of a text, begun at a boundary, ends at a boundary.
pub proof fn lemma_match_string_on_chars(input: Seq<u8>, pos: int, text: Seq<u8>)
    requires
        valid_utf8(input),
        valid_utf8(text),
        is_char_boundary(input, pos),
    ensures
        match_string(input, pos, text) matches Some(end) ==> is_char_boundary(input, end),
{
    if occurs_at(input, pos, text) {
        let rest = input.subrange(pos, input.len() as int);
        assert(rest.subrange(0, text.len() as int) =~= input.subrange(pos, pos + text.len()));
        lemma_prefix_boundary(text, rest);
        lemma_boundary_behind(input, pos, text.len() as int);
    }
}

/// A match of a text without regard to case, begun at a boundary, ends at a boundary.
pub proof fn lemma_match_insensitive_on_chars(input: Seq<u8>, pos: int, text: Seq<u8>)
    requires
        valid_utf8(input),
        valid_utf8(text),
        is_char_boundary(input, pos),
    ensures
        match_insensitive(input, pos, text) matches Some(end) ==> is_char_boundary(input, end),
{
    if match_insensitive(input, pos, text) is Some {
        let rest = input.subrange(pos, input.len() as int);
        assert forall|i: int| 0 <= i < text.len() implies fold_ascii(rest[i]) == fold_ascii(
            #[trigger] text[i],
        ) by {
            assert(rest[i] == input[pos + i]);
        }
        lemma_folded_prefix_boundary(text, rest);
        lemma_boundary_behind(input, pos, text.len() as int);
    }
}

/// At a boundary before the end of the input stands a whole character, and it ends at a
/// boundary: advancing fails at the end of the input only.
pub proof fn lemma_scalar_on_chars(input: Seq<u8>, pos: int)
    requires
        valid_utf8(input),
        is_char_boundary(input, pos),
    ensures
        scalar_at(input, pos) is Some <==> pos < input.len(),
        scalar_at(input, pos) matches Some((_, width)) ==> is_char_boundary(input, pos + width),
        advance(input, pos) matches Some(end) ==> is_char_boundary(input, end),
        forall|low: char, high: char|
            #[trigger] match_range(input, pos, low, high) matches Some(end) ==> is_char_boundary(
                input,
                end,
            ),
{
    lemma_boundary_inside(input, pos);
    if pos < input.len() {
        let rest = input.subrange(pos, input.len() as int);
        assert(rest =~= input.skip(pos));
        lemma_first_scalar(rest);
        lemma_boundary_behind(input, pos, length_of_first_codepoint(rest));
    }
}

/// What a scan finds is the first offset at which one of the texts stands.
pub proof fn lemma_scan_finds_first(input: Seq<u8>, pos: int, texts: Seq<Seq<u8>>)
    requires
        0 <= pos <= input.len(),
    ensures
        scan_to_any(input, pos, texts) matches Some(at) ==> pos <= at <= input.len()
            && occurs_any_at(input, at, texts) && forall|before: int|
            pos <= before < at ==> !occurs_any_at(input, before, texts),
        scan_to_any(input, pos, texts) is None ==> forall|at: int|
            pos <= at <= input.len() ==> !occurs_any_at(input, at, texts),
    decreases input.len() - pos,
{
    if !occurs_any_at(input, pos, texts) && pos < input.len() {
        lemma_scan_finds_first(input, pos + 1, texts);
    }
}

/// A scan for texts, begun at a boundary, ends at a boundary.
pub proof fn lemma_scan_on_chars(input: Seq<u8>, pos: int, texts: Seq<Seq<char>>)
    requires
        valid_utf8(input),
        is_char_boundary(input, pos),
    ensures
        scan_to_any(input, pos, encodings(texts)) matches Some(at) ==> is_char_boundary(input, at),
{
    lemma_boundary_inside(input, pos);
    lemma_scan_finds_first(input, pos, encodings(texts));
    match scan_to_any(input, pos, encodings(texts)) {
        Some(at) => {
            if at > pos {
                let which = choose|i: int|
                    0 <= i < encodings(texts).len() && occurs_at(
                        input,
                        at,
                        #[trigger] encodings(texts)[i],
                    );
                let text = encodings(texts)[which];
                assert(valid_utf8(text));
                if text.len() == 0 {
                    assert(input.subrange(pos, pos + 0) =~= text);
                    assert(occurs_at(input, pos, encodings(texts)[which]));
                    assert(occurs_any_at(input, pos, encodings(texts)));
                } else {
                    lemma_first_scalar(text);
                    assert(input.subrange(at, at + text.len())[0] == input[at]);
                    is_char_boundary_iff_not_is_continuation_byte(input, at);
                }
            }
        },
        None => {},
    }
}

/// A boundary before a boundary is a boundary of what stands before the latter.
pub proof fn lemma_boundary_before(input: Seq<u8>, start: int, end: int)
    requires
        valid_utf8(input),
        is_char_boundary(input, start),
        is_char_boundary(input, end),
        start <= end,
    ensures
        valid_utf8(input.subrange(0, end)),
        is_char_boundary(input.subrange(0, end), start),
{
    lemma_boundary_inside(input, start);
    lemma_boundary_inside(input, end);
    let head = input.subrange(0, end);
    assert(valid_utf8(head));
    if start < end {
        assert(head[start] == input[start]);
        is_char_boundary_iff_not_is_continuation_byte(input, start);
        is_char_boundary_iff_not_is_continuation_byte(head, start);
    } else {
        is_char_boundary_start_end_of_seq(head);
    }
}

/// The bytes between two boundaries are a text.
pub proof fn lemma_between_boundaries(input: Seq<u8>, start: int, end: int)
    requires
        valid_utf8(input),
        is_char_boundary(input, start),
        is_char_boundary(input, end),
        start <= end,
    ensures
        valid_utf8(input.subrange(start, end)),
{
    lemma_boundary_before(input, start, end);
    let head = input.subrange(0, end);
    assert(head.subrange(start, head.len() as int) =~= input.subrange(start, end));
    assert(valid_utf8(head.subrange(start, head.len() as int)));
}

} // verus!
