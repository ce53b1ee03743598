use pest_vm::literal::unescape;

#[test]
fn unescape_all() {
    let string = r"a\nb\x55c\u{111}d";

    assert_eq!(unescape(string), Some("a\nb\x55c\u{111}d".to_owned()));
}

#[test]
fn unescape_empty_escape() {
    let string = r"\";

    assert_eq!(unescape(string), None);
}

#[test]
fn unescape_wrong_escape() {
    let string = r"\w";

    assert_eq!(unescape(string), None);
}

#[test]
fn unescape_wrong_byte() {
    let string = r"\xfg";

    assert_eq!(unescape(string), None);
}

#[test]
fn unescape_short_byte() {
    let string = r"\xf";

    assert_eq!(unescape(string), None);
}

#[test]
fn unescape_no_open_brace_unicode() {
    let string = r"\u11";

    assert_eq!(unescape(string), None);
}

#[test]
fn unescape_no_close_brace_unicode() {
    let string = r"\u{11";

    assert_eq!(unescape(string), None);
}

#[test]
fn unescape_short_unicode() {
    let string = r"\u{1}";

    assert_eq!(unescape(string), None);
}

#[test]
fn unescape_long_unicode() {
    let string = r"\u{1111111}";

    assert_eq!(unescape(string), None);
}

#[test]
fn unescape_plain_text() {
    assert_eq!(unescape("plain text"), Some("plain text".to_owned()));
    assert_eq!(unescape(""), Some(String::new()));
    assert_eq!(unescape("é€𝄞"), Some("é€𝄞".to_owned()));
}

#[test]
fn unescape_plain_escapes() {
    assert_eq!(unescape(r#"\""#), Some("\"".to_owned()));
    assert_eq!(unescape(r"\\"), Some("\\".to_owned()));
    assert_eq!(unescape(r"\r"), Some("\r".to_owned()));
    assert_eq!(unescape(r"\n"), Some("\n".to_owned()));
    assert_eq!(unescape(r"\t"), Some("\t".to_owned()));
    assert_eq!(unescape(r"\0"), Some("\0".to_owned()));
    assert_eq!(unescape(r"\'"), Some("'".to_owned()));
}

#[test]
fn unescape_byte_escapes() {
    assert_eq!(unescape(r"\x00"), Some("\0".to_owned()));
    assert_eq!(unescape(r"\x7f"), Some("\x7f".to_owned()));
    assert_eq!(unescape(r"\xE9"), Some("é".to_owned()));
    assert_eq!(unescape(r"\xff"), Some("ÿ".to_owned()));
    assert_eq!(unescape(r"\xaB1"), Some("\u{ab}1".to_owned()));
}

#[test]
fn unescape_byte_escape_takes_digits_only() {
    assert_eq!(unescape(r"\x+f"), None);
    assert_eq!(unescape(r"\x-f"), None);
    assert_eq!(unescape(r"\x f"), None);
    assert_eq!(unescape(r"\x"), None);
    assert_eq!(unescape(r"\xé"), None);
}

#[test]
fn unescape_unicode_escapes() {
    assert_eq!(unescape(r"\u{41}"), Some("A".to_owned()));
    assert_eq!(unescape(r"\u{0041}"), Some("A".to_owned()));
    assert_eq!(unescape(r"\u{20AC}"), Some("€".to_owned()));
    assert_eq!(unescape(r"\u{1d11e}"), Some("𝄞".to_owned()));
    assert_eq!(unescape(r"\u{10FFFF}"), Some("\u{10ffff}".to_owned()));
    assert_eq!(unescape(r"\u{00d7ff}\u{e000}"), Some("\u{d7ff}\u{e000}".to_owned()));
}

#[test]
fn unescape_unicode_escape_needs_a_scalar_value() {
    assert_eq!(unescape(r"\u{d800}"), None);
    assert_eq!(unescape(r"\u{dfff}"), None);
    assert_eq!(unescape(r"\u{110000}"), None);
    assert_eq!(unescape(r"\u{ffffff}"), None);
}

#[test]
fn unescape_unicode_escape_takes_digits_only() {
    assert_eq!(unescape(r"\u{+41}"), None);
    assert_eq!(unescape(r"\u{4g}"), None);
    assert_eq!(unescape(r"\u{}"), None);
    assert_eq!(unescape(r"\u{ 41}"), None);
    assert_eq!(unescape(r"\u"), None);
    assert_eq!(unescape(r"\u{"), None);
    assert_eq!(unescape(r"\u{123456"), None);
}

#[test]
fn unescape_fails_wherever_the_escape_stands() {
    assert_eq!(unescape(r"abc\"), None);
    assert_eq!(unescape(r"abc\qdef"), None);
    assert_eq!(unescape(r"\n\xf"), None);
    assert_eq!(unescape(r"a\u{1}b"), None);
}

#[test]
fn unescape_goes_on_behind_an_escape() {
    assert_eq!(unescape(r"\\n"), Some("\\n".to_owned()));
    assert_eq!(unescape(r"\x41\x42"), Some("AB".to_owned()));
    assert_eq!(unescape(r"\u{41}}"), Some("A}".to_owned()));
    assert_eq!(unescape(r"a\tb\\c"), Some("a\tb\\c".to_owned()));
}
