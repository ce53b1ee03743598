//! Decoding of grammar literals: the escape syntax of a string or character
//! literal, turned into the text it denotes.

use vstd::prelude::*;

verus! {

/// The value of a hexadecimal digit, in either case; `None` for any other character.
pub open spec fn hex_value(c: char) -> Option<nat> {
    if '0' <= c <= '9' {
        Some((c as nat - '0' as nat) as nat)
    } else if 'a' <= c <= 'f' {
        Some((c as nat - 'a' as nat + 10) as nat)
    } else if 'A' <= c <= 'F' {
        Some((c as nat - 'A' as nat + 10) as nat)
    } else {
        None
    }
}

/// Every character of `digits` is a hexadecimal digit.
pub open spec fn all_hex(digits: Seq<char>) -> bool {
    forall|i: int| 0 <= i < digits.len() ==> (#[trigger] hex_value(digits[i])) is Some
}

/// The number that `digits` writes in base 16, most significant digit first.
pub open spec fn hex_number(digits: Seq<char>) -> nat
    decreases digits.len(),
{
    if digits.len() == 0 {
        0
    } else {
        hex_number(digits.drop_last()) * 16 + hex_value(digits.last()).unwrap_or(0)
    }
}

/// `value` is a Unicode scalar value: a code point that is no surrogate.
pub open spec fn is_scalar_value(value: nat) -> bool {
    value <= 0x10FFFF && !(0xD800 <= value <= 0xDFFF)
}

/// `body`, the text behind `\u{`, starts with `count` hexadecimal digits and a closing brace.
pub open spec fn braced_digits(body: Seq<char>, count: nat) -> bool {
    &&& count < body.len()
    &&& body[count as int] == '}'
    &&& all_hex(body.take(count as int))
}

/// The number of digits of the braced escape that `body` starts with: between 2 and 6
/// hexadecimal digits followed by `}`. `None` where `body` starts with no such run.
pub open spec fn braced_len(body: Seq<char>) -> Option<nat> {
    if braced_digits(body, 2) {
        Some(2)
    } else if braced_digits(body, 3) {
        Some(3)
    } else if braced_digits(body, 4) {
        Some(4)
    } else if braced_digits(body, 5) {
        Some(5)
    } else if braced_digits(body, 6) {
        Some(6)
    } else {
        None
    }
}

/// One escape. `rest` is the text behind the backslash; the result is the character that
/// the escape denotes and the number of characters of `rest` that it takes.
///
/// The escapes are `\"`, `\\`, `\r`, `\n`, `\t`, `\0`, `\'`, `\xHH` with exactly two
/// hexadecimal digits, and `\u{H..H}` with two to six hexadecimal digits that write a
/// Unicode scalar value. Anything else, and an escape cut short, is `None`.
pub open spec fn decode_escape(rest: Seq<char>) -> Option<(char, nat)> {
    if rest.len() == 0 {
        None
    } else if rest[0] == '"' {
        Some(('"', 1))
    } else if rest[0] == '\\' {
        Some(('\\', 1))
    } else if rest[0] == 'r' {
        Some(('\r', 1))
    } else if rest[0] == 'n' {
        Some(('\n', 1))
    } else if rest[0] == 't' {
        Some(('\t', 1))
    } else if rest[0] == '0' {
        Some(('\0', 1))
    } else if rest[0] == '\'' {
        Some(('\'', 1))
    } else if rest[0] == 'x' {
        if rest.len() >= 3 && hex_value(rest[1]) is Some && hex_value(rest[2]) is Some {
            Some(((hex_value(rest[1])->0 * 16 + hex_value(rest[2])->0) as char, 3))
        } else {
            None
        }
    } else if rest[0] == 'u' {
        if rest.len() >= 2 && rest[1] == '{' {
            match braced_len(rest.skip(2)) {
                Some(count) => {
                    let value = hex_number(rest.skip(2).take(count as int));
                    if is_scalar_value(value) {
                        Some((value as char, count + 3))
                    } else {
                        None
                    }
                },
                None => None,
            }
        } else {
            None
        }
    } else {
        None
    }
}

/// `head` followed by `tail`, where there is a tail.
pub open spec fn prepend(head: Seq<char>, tail: Option<Seq<char>>) -> Option<Seq<char>> {
    match tail {
        Some(text) => Some(head + text),
        None => None,
    }
}

/// The text that the literal `raw` denotes: every character stands for itself, and a
/// backslash starts an escape (see [`decode_escape`]). `None` where an escape is malformed.
pub open spec fn decode_literal(raw: Seq<char>) -> Option<Seq<char>>
    decreases raw.len(),
{
    if raw.len() == 0 {
        Some(Seq::empty())
    } else if raw[0] != '\\' {
        prepend(seq![raw[0]], decode_literal(raw.skip(1)))
    } else {
        match decode_escape(raw.skip(1)) {
            Some((c, taken)) => if 1 + taken <= raw.len() {
                prepend(seq![c], decode_literal(raw.skip(1 + taken as int)))
            } else {
                None
            },
            None => None,
        }
    }
}

/// `String::push`: appends one character to the end of the string.
pub assume_specification[ String::push ](text: &mut String, ch: char)
    ensures
        final(text)@ == old(text)@.push(ch),
;

/// `char::from_u32`: the character with the given scalar value, and `None` where the number
/// is a surrogate or lies above `0x10FFFF`.
pub assume_specification[ char::from_u32 ](value: u32) -> (c: Option<char>)
    ensures
        c == if is_scalar_value(value as nat) {
            Some(value as char)
        } else {
            None::<char>
        },
;

/// The value of the hexadecimal digit `c`.
fn hex_digit(c: char) -> (value: Option<u32>)
    ensures
        match value {
            Some(v) => hex_value(c) == Some(v as nat) && v < 16,
            None => hex_value(c) is None,
        },
{
    if '0' <= c && c <= '9' {
        Some(c as u32 - '0' as u32)
    } else if 'a' <= c && c <= 'f' {
        Some(c as u32 - 'a' as u32 + 10)
    } else if 'A' <= c && c <= 'F' {
        Some(c as u32 - 'A' as u32 + 10)
    } else {
        None
    }
}

/// The least number that `count` hexadecimal digits cannot write.
spec fn hex_bound(count: nat) -> nat {
    if count == 0 {
        1
    } else if count == 1 {
        0x10
    } else if count == 2 {
        0x100
    } else if count == 3 {
        0x1000
    } else if count == 4 {
        0x1_0000
    } else if count == 5 {
        0x10_0000
    } else {
        0x100_0000
    }
}

/// One more digit: the number of a run is that of the run without its last digit, times 16,
/// plus the last digit.
proof fn lemma_hex_number_step(body: Seq<char>, count: nat)
    requires
        count < body.len(),
    ensures
        hex_number(body.take(count as int + 1)) == hex_number(body.take(count as int)) * 16 + hex_value(
            body[count as int],
        ).unwrap_or(0),
        all_hex(body.take(count as int)) && hex_value(body[count as int]) is Some ==> all_hex(
            body.take(count as int + 1),
        ),
{
    let longer = body.take(count as int + 1);
    assert(longer.drop_last() =~= body.take(count as int));
    assert(longer.last() == body[count as int]);
    if all_hex(body.take(count as int)) && hex_value(body[count as int]) is Some {
        assert forall|i: int| 0 <= i < longer.len() implies (#[trigger] hex_value(
            longer[i],
        )) is Some by {
            if i < count {
                assert(longer[i] == body.take(count as int)[i]);
            }
        }
    }
}

/// A run of `count` hexadecimal digits that ends at the end of the text, or at a character
/// that is no digit, is a braced escape exactly when that character is `}` and the run has
/// between 2 and 6 digits.
proof fn lemma_braced_run(body: Seq<char>, count: nat)
    requires
        count <= body.len(),
        all_hex(body.take(count as int)),
        count == body.len() || hex_value(body[count as int]) is None,
    ensures
        braced_len(body) == if count < body.len() && body[count as int] == '}' && 2 <= count
            <= 6 {
            Some(count)
        } else {
            None
        },
{
    assert(hex_value('}') is None);
    assert forall|other: nat| other != count implies !braced_digits(body, other) by {
        if other < count {
            assert(body.take(count as int)[other as int] == body[other as int]);
        } else if other < body.len() {
            assert(body.take(other as int)[count as int] == body[count as int]);
        }
    }
}

/// A run of seven or more hexadecimal digits is no braced escape.
proof fn lemma_braced_overlong(body: Seq<char>, count: nat)
    requires
        7 <= count <= body.len(),
        all_hex(body.take(count as int)),
    ensures
        braced_len(body) is None,
{
    assert(hex_value('}') is None);
    assert forall|other: nat| other <= 6 implies !braced_digits(body, other) by {
        assert(body.take(count as int)[other as int] == body[other as int]);
    }
}

/// Decodes the escape whose text, behind the backslash, starts at character `at`.
fn escape_at(string: &str, at: usize, len: usize) -> (result: Option<(char, usize)>)
    requires
        len == string@.len(),
        at <= len,
    ensures
        match result {
            Some((c, taken)) => decode_escape(string@.skip(at as int)) == Some((c, taken as nat))
                && at + taken <= len,
            None => decode_escape(string@.skip(at as int)) is None,
        },
{
    let ghost rest = string@.skip(at as int);
    if at >= len {
        return None;
    }
    let kind = string.get_char(at);
    assert(rest[0] == kind);
    if kind == '"' {
        Some(('"', 1))
    } else if kind == '\\' {
        Some(('\\', 1))
    } else if kind == 'r' {
        Some(('\r', 1))
    } else if kind == 'n' {
        Some(('\n', 1))
    } else if kind == 't' {
        Some(('\t', 1))
    } else if kind == '0' {
        Some(('\0', 1))
    } else if kind == '\'' {
        Some(('\'', 1))
    } else if kind == 'x' {
        if len - at < 3 {
            return None;
        }
        let high = hex_digit(string.get_char(at + 1));
        let low = hex_digit(string.get_char(at + 2));
        assert(rest[1] == string@[at + 1] && rest[2] == string@[at + 2]);
        match (high, low) {
            (Some(h), Some(l)) => {
                let value: u32 = h * 16 + l;
                match char::from_u32(value) {
                    Some(c) => Some((c, 3)),
                    None => None,
                }
            },
            _ => None,
        }
    } else if kind == 'u' {
        if len - at < 2 || string.get_char(at + 1) != '{' {
            return None;
        }
        assert(rest[1] == string@[at + 1]);
        let ghost body = rest.skip(2);
        let start: usize = at + 2;
        assert(body =~= string@.skip(start as int));
        let mut count: usize = 0;
        let mut value: u32 = 0;
        assert(body.take(0) =~= Seq::<char>::empty());
        while count < len - start
            invariant
                len == string@.len(),
                start <= len,
                body == string@.skip(start as int),
                body == rest.skip(2),
                rest.len() >= 2 && rest[0] == 'u' && rest[1] == '{',
                rest == string@.skip(at as int),
                count <= len - start,
                count <= 6,
                all_hex(body.take(count as int)),
                value == hex_number(body.take(count as int)),
                value < hex_bound(count as nat),
            ensures
                count == len - start || hex_value(body[count as int]) is None,
            decreases len - start - count,
        {
            let digit = hex_digit(string.get_char(start + count));
            assert(body[count as int] == string@[start + count]);
            match digit {
                Some(d) => {
                    proof {
                        lemma_hex_number_step(body, count as nat);
                    }
                    if count == 6 {
                        proof {
                            lemma_braced_overlong(body, 7);
                        }
                        return None;
                    }
                    value = value * 16 + d;
                    count += 1;
                },
                None => {
                    break ;
                },
            }
        }
        proof {
            lemma_braced_run(body, count as nat);
            assert(rest.skip(2) == body);
        }
        if count < len - start && string.get_char(start + count) == '}' && 2 <= count {
            match char::from_u32(value) {
                Some(c) => Some((c, count + 3)),
                None => None,
            }
        } else {
            None
        }
    } else {
        None
    }
}

/// Decodes a grammar literal: the text that the escape syntax in `string` denotes, or
/// `None` where an escape is malformed.
pub fn unescape(string: &str) -> (result: Option<String>)
    ensures
        match result {
            Some(text) => decode_literal(string@) == Some(text@),
            None => decode_literal(string@) is None,
        },
{
    let len = string.unicode_len();
    let mut text = String::new();
    let mut at: usize = 0;
    assert(string@.skip(0) =~= string@);
    assert(forall|tail: Seq<char>| Seq::<char>::empty() + tail =~= tail);
    while at < len
        invariant
            len == string@.len(),
            at <= len,
            decode_literal(string@) == prepend(text@, decode_literal(string@.skip(at as int))),
        decreases len - at,
    {
        let ghost rest = string@.skip(at as int);
        let ghost before = text@;
        let c = string.get_char(at);
        assert(rest[0] == c);
        if c != '\\' {
            text.push(c);
            proof {
                assert(rest.skip(1) =~= string@.skip(at + 1));
                assert(forall|tail: Seq<char>| before + (seq![c] + tail) =~= before.push(c) + tail);
            }
            at += 1;
        } else {
            assert(rest.skip(1) =~= string@.skip(at + 1));
            match escape_at(string, at + 1, len) {
                Some((decoded, taken)) => {
                    text.push(decoded);
                    proof {
                        assert(rest.skip(1 + taken as int) =~= string@.skip(at + 1 + taken));
                        assert(forall|tail: Seq<char>|
                            before + (seq![decoded] + tail) =~= before.push(decoded) + tail);
                    }
                    at += 1 + taken;
                },
                None => {
                    return None;
                },
            }
        }
    }
    assert(text@ + Seq::<char>::empty() =~= text@);
    Some(text)
}

/// No character of `text` is a backslash.
pub open spec fn is_plain(text: Seq<char>) -> bool {
    forall|i: int| 0 <= i < text.len() ==> text[i] != '\\'
}

/// Text without a backslash denotes itself.
pub proof fn lemma_plain_text(text: Seq<char>)
    requires
        is_plain(text),
    ensures
        decode_literal(text) == Some(text),
    decreases text.len(),
{
    if text.len() > 0 {
        lemma_plain_text(text.skip(1));
        assert(seq![text[0]] + text.skip(1) =~= text);
    }
}

/// An escape behind text without a backslash: the literal denotes the text, the character
/// of the escape, and what the rest denotes; and nothing where the escape is malformed.
pub proof fn lemma_escape_after_plain(plain: Seq<char>, rest: Seq<char>)
    requires
        is_plain(plain),
    ensures
        decode_literal(plain + seq!['\\'] + rest) == match decode_escape(rest) {
            Some((c, taken)) => prepend(plain.push(c), decode_literal(rest.skip(taken as int))),
            None => None,
        },
    decreases plain.len(),
{
    let whole = plain + seq!['\\'] + rest;
    if plain.len() == 0 {
        assert(whole.skip(1) =~= rest);
        match decode_escape(rest) {
            Some((c, taken)) => {
                assert(whole.skip(1 + taken as int) =~= rest.skip(taken as int));
                assert(plain.push(c) =~= seq![c]);
            },
            None => {},
        }
    } else {
        lemma_escape_after_plain(plain.skip(1), rest);
        assert(whole.skip(1) =~= plain.skip(1) + seq!['\\'] + rest);
        assert(whole[0] == plain[0]);
        match decode_escape(rest) {
            Some((c, taken)) => {
                assert forall|tail: Seq<char>|
                    seq![plain[0]] + (plain.skip(1).push(c) + tail) =~= plain.push(c)
                        + tail by {}
            },
            None => {},
        }
    }
}

/// The escape that is the whole of `rest` denotes `c`: the literal made of a backslash
/// and `rest` denotes the text made of `c`.
proof fn lemma_whole_escape(rest: Seq<char>, c: char)
    requires
        decode_escape(rest) == Some((c, rest.len())),
    ensures
        decode_literal(seq!['\\'] + rest) == Some(seq![c]),
{
    let whole = seq!['\\'] + rest;
    assert(whole.skip(1) =~= rest);
    assert(whole.skip(1 + rest.len() as int) =~= Seq::<char>::empty());
    assert(decode_literal(Seq::<char>::empty()) == Some(Seq::<char>::empty()));
    assert(seq![c] + Seq::<char>::empty() =~= seq![c]);
}

/// Each of the seven plain escapes denotes its character.
pub proof fn lemma_plain_escapes()
    ensures
        decode_literal(seq!['\\', '"']) == Some(seq!['"']),
        decode_literal(seq!['\\', '\\']) == Some(seq!['\\']),
        decode_literal(seq!['\\', 'r']) == Some(seq!['\r']),
        decode_literal(seq!['\\', 'n']) == Some(seq!['\n']),
        decode_literal(seq!['\\', 't']) == Some(seq!['\t']),
        decode_literal(seq!['\\', '0']) == Some(seq!['\0']),
        decode_literal(seq!['\\', '\'']) == Some(seq!['\'']),
{
    lemma_whole_escape(seq!['"'], '"');
    assert(seq!['\\'] + seq!['"'] =~= seq!['\\', '"']);
    lemma_whole_escape(seq!['\\'], '\\');
    assert(seq!['\\'] + seq!['\\'] =~= seq!['\\', '\\']);
    lemma_whole_escape(seq!['r'], '\r');
    assert(seq!['\\'] + seq!['r'] =~= seq!['\\', 'r']);
    lemma_whole_escape(seq!['n'], '\n');
    assert(seq!['\\'] + seq!['n'] =~= seq!['\\', 'n']);
    lemma_whole_escape(seq!['t'], '\t');
    assert(seq!['\\'] + seq!['t'] =~= seq!['\\', 't']);
    lemma_whole_escape(seq!['0'], '\0');
    assert(seq!['\\'] + seq!['0'] =~= seq!['\\', '0']);
    lemma_whole_escape(seq!['\''], '\'');
    assert(seq!['\\'] + seq!['\''] =~= seq!['\\', '\'']);
}

/// `\xHH` denotes the character whose value the two hexadecimal digits write.
pub proof fn lemma_byte_escape(high: char, low: char)
    requires
        hex_value(high) is Some,
        hex_value(low) is Some,
    ensures
        decode_literal(seq!['\\', 'x', high, low]) == Some(
            seq![(hex_value(high)->0 * 16 + hex_value(low)->0) as char],
        ),
{
    lemma_whole_escape(
        seq!['x', high, low],
        (hex_value(high)->0 * 16 + hex_value(low)->0) as char,
    );
    assert(seq!['\\'] + seq!['x', high, low] =~= seq!['\\', 'x', high, low]);
}

/// `\u{H..H}` with two to six hexadecimal digits that write a scalar value denotes the
/// character of that value.
pub proof fn lemma_unicode_escape(digits: Seq<char>)
    requires
        2 <= digits.len() <= 6,
        all_hex(digits),
        is_scalar_value(hex_number(digits)),
    ensures
        decode_literal(seq!['\\', 'u', '{'] + digits + seq!['}']) == Some(
            seq![hex_number(digits) as char],
        ),
{
    let rest = seq!['u', '{'] + digits + seq!['}'];
    let body = rest.skip(2);
    assert(body =~= digits + seq!['}']);
    assert(body.take(digits.len() as int) =~= digits);
    assert(hex_value('}') is None);
    lemma_braced_run(body, digits.len());
    lemma_whole_escape(rest, hex_number(digits) as char);
    assert(seq!['\\'] + rest =~= seq!['\\', 'u', '{'] + digits + seq!['}']);
}

/// A backslash at the end of the literal denotes nothing.
pub proof fn lemma_lone_backslash(plain: Seq<char>)
    requires
        is_plain(plain),
    ensures
        decode_literal(plain.push('\\')) is None,
{
    lemma_escape_after_plain(plain, Seq::empty());
    assert(plain + seq!['\\'] + Seq::<char>::empty() =~= plain.push('\\'));
}

/// A backslash before a character that starts no escape denotes nothing.
pub proof fn lemma_unknown_escape(plain: Seq<char>, c: char, rest: Seq<char>)
    requires
        is_plain(plain),
        c != '"' && c != '\\' && c != 'r' && c != 'n' && c != 't' && c != '0' && c != '\''
            && c != 'x' && c != 'u',
    ensures
        decode_literal(plain + seq!['\\', c] + rest) is None,
{
    lemma_escape_after_plain(plain, seq![c] + rest);
    assert(plain + seq!['\\'] + (seq![c] + rest) =~= plain + seq!['\\', c] + rest);
}

/// `\x` denotes nothing unless two hexadecimal digits follow it.
pub proof fn lemma_malformed_byte_escape(plain: Seq<char>, rest: Seq<char>)
    requires
        is_plain(plain),
        rest.len() < 2 || hex_value(rest[0]) is None || hex_value(rest[1]) is None,
    ensures
        decode_literal(plain + seq!['\\', 'x'] + rest) is None,
{
    lemma_escape_after_plain(plain, seq!['x'] + rest);
    assert(plain + seq!['\\'] + (seq!['x'] + rest) =~= plain + seq!['\\', 'x'] + rest);
    if rest.len() >= 2 {
        assert((seq!['x'] + rest)[1] == rest[0]);
        assert((seq!['x'] + rest)[2] == rest[1]);
    }
}

/// `\u` denotes nothing unless an opening brace follows it.
pub proof fn lemma_unicode_without_brace(plain: Seq<char>, rest: Seq<char>)
    requires
        is_plain(plain),
        rest.len() == 0 || rest[0] != '{',
    ensures
        decode_literal(plain + seq!['\\', 'u'] + rest) is None,
{
    lemma_escape_after_plain(plain, seq!['u'] + rest);
    assert(plain + seq!['\\'] + (seq!['u'] + rest) =~= plain + seq!['\\', 'u'] + rest);
    if rest.len() > 0 {
        assert((seq!['u'] + rest)[1] == rest[0]);
    }
}

/// `\u{` denotes nothing where the hexadecimal digits behind it are fewer than two or
/// more than six, where no closing brace ends them, and where they write no scalar value.
pub proof fn lemma_malformed_unicode_escape(plain: Seq<char>, digits: Seq<char>, rest: Seq<char>)
    requires
        is_plain(plain),
        all_hex(digits),
        rest.len() == 0 || hex_value(rest[0]) is None,
        digits.len() < 2 || digits.len() > 6 || rest.len() == 0 || rest[0] != '}'
            || !is_scalar_value(hex_number(digits)),
    ensures
        decode_literal(plain + seq!['\\', 'u', '{'] + digits + rest) is None,
{
    let escape = seq!['u', '{'] + digits + rest;
    let body = escape.skip(2);
    lemma_escape_after_plain(plain, escape);
    assert(plain + seq!['\\'] + escape =~= plain + seq!['\\', 'u', '{'] + digits + rest);
    assert(body =~= digits + rest);
    assert(body.take(digits.len() as int) =~= digits);
    if rest.len() > 0 {
        assert(body[digits.len() as int] == rest[0]);
    }
    lemma_braced_run(body, digits.len());
}

} // verus!
