use pest_vm::cursor::{
    advance_at, match_insensitive_at, match_range_at, match_string_at, same_text, scalar_at_pos,
    scan_to_any_at, starts_with_at,
};
use pest_vm::grammar::{Atomicity, RuleKind, Token};
use pest_vm::rule::{emits_in, wrap_rule};
use pest_vm::semantics::{Scope, Wrapping};

#[test]
fn a_text_stands_where_its_bytes_stand() {
    assert!(starts_with_at(b"abcabc", 3, b"abc"));
    assert!(starts_with_at(b"abcabc", 6, b""));
    assert!(!starts_with_at(b"abcabc", 4, b"abc"));
    assert!(!starts_with_at(b"abcabc", 1, b"ab"));
}

#[test]
fn a_match_ends_behind_the_text() {
    assert_eq!(match_string_at(b"hello", 1, b"ell"), Some(4));
    assert_eq!(match_string_at(b"hello", 1, b"elo"), None);
    assert_eq!(match_string_at(b"hello", 5, b""), Some(5));
    assert_eq!(match_string_at(b"hello", 3, b"low"), None);
}

#[test]
fn folding_is_for_ascii_letters() {
    assert_eq!(match_insensitive_at(b"HeLLo", 0, b"hEllO"), Some(5));
    assert_eq!(match_insensitive_at(b"[", 0, b"{"), None);
    assert_eq!(match_insensitive_at(b"@", 0, b"`"), None);
    assert_eq!(match_insensitive_at("É".as_bytes(), 0, "é".as_bytes()), None);
    assert_eq!(match_insensitive_at(b"ab", 1, b"BC"), None);
}

#[test]
fn a_code_point_has_a_value_and_a_width() {
    assert_eq!(scalar_at_pos("a".as_bytes(), 0), Some((0x61, 1)));
    assert_eq!(scalar_at_pos("é".as_bytes(), 0), Some((0xe9, 2)));
    assert_eq!(scalar_at_pos("€".as_bytes(), 0), Some((0x20ac, 3)));
    assert_eq!(scalar_at_pos("𝄞".as_bytes(), 0), Some((0x1d11e, 4)));
    assert_eq!(scalar_at_pos("a€".as_bytes(), 1), Some((0x20ac, 3)));
    assert_eq!(scalar_at_pos("a".as_bytes(), 1), None);
    assert_eq!(scalar_at_pos(&"€".as_bytes()[..2], 0), None);
}

#[test]
fn advancing_takes_one_code_point() {
    assert_eq!(advance_at("a€b".as_bytes(), 0), Some(1));
    assert_eq!(advance_at("a€b".as_bytes(), 1), Some(4));
    assert_eq!(advance_at("a€b".as_bytes(), 4), Some(5));
    assert_eq!(advance_at("a€b".as_bytes(), 5), None);
}

#[test]
fn a_range_holds_its_ends() {
    assert_eq!(match_range_at(b"m", 0, 'a', 'z'), Some(1));
    assert_eq!(match_range_at(b"a", 0, 'a', 'z'), Some(1));
    assert_eq!(match_range_at(b"z", 0, 'a', 'z'), Some(1));
    assert_eq!(match_range_at(b"A", 0, 'a', 'z'), None);
    assert_eq!(match_range_at("€".as_bytes(), 0, 'a', '€'), Some(3));
    assert_eq!(match_range_at("€".as_bytes(), 0, 'a', 'z'), None);
    assert_eq!(match_range_at(b"", 0, 'a', 'z'), None);
}

#[test]
fn a_scan_finds_the_first_place() {
    let texts = vec!["lo".to_owned(), "ll".to_owned()];
    assert_eq!(scan_to_any_at(b"hello", 0, &texts), Some(2));
    assert_eq!(scan_to_any_at(b"hello", 3, &texts), Some(3));
    assert_eq!(scan_to_any_at(b"hello", 4, &texts), None);
    assert_eq!(scan_to_any_at(b"hello", 2, &vec![]), None);
    assert_eq!(scan_to_any_at(b"hello", 5, &vec!["".to_owned()]), Some(5));
}

#[test]
fn texts_are_compared_as_text() {
    assert!(same_text("any", "any"));
    assert!(!same_text("any", "anyone"));
    assert!(!same_text("any", "and"));
    assert!(same_text("", ""));
}

#[test]
fn a_token_gives_its_text() {
    let token = |start, end| Token { rule: "t".to_owned(), start, end };
    assert_eq!(token(1, 4).text("a€b"), Some("€"));
    assert_eq!(token(0, 5).text("a€b"), Some("a€b"));
    assert_eq!(token(5, 5).text("a€b"), Some(""));
    assert_eq!(token(1, 3).text("a€b"), None);
    assert_eq!(token(2, 4).text("a€b"), None);
    assert_eq!(token(4, 1).text("a€b"), None);
    assert_eq!(token(4, 6).text("a€b"), None);
}

#[test]
fn rules_are_wrapped_by_their_kind() {
    let wrapped = |token, entry, body| Wrapping { token, entry, body };
    for current in [Atomicity::Atomic, Atomicity::CompoundAtomic, Atomicity::NonAtomic] {
        assert_eq!(wrap_rule(RuleKind::Normal, false, current), wrapped(true, current, current));
        assert_eq!(wrap_rule(RuleKind::Silent, false, current), wrapped(false, current, current));
        assert_eq!(
            wrap_rule(RuleKind::Atomic, false, current),
            wrapped(true, current, Atomicity::Atomic)
        );
        assert_eq!(
            wrap_rule(RuleKind::CompoundAtomic, false, current),
            wrapped(true, Atomicity::CompoundAtomic, Atomicity::Atomic)
        );
        assert_eq!(
            wrap_rule(RuleKind::NonAtomic, false, current),
            wrapped(true, Atomicity::NonAtomic, Atomicity::NonAtomic)
        );
        for kind in [RuleKind::Normal, RuleKind::Atomic] {
            assert_eq!(wrap_rule(kind, true, current), wrapped(true, current, Atomicity::Atomic));
        }
        for kind in [RuleKind::Silent, RuleKind::CompoundAtomic, RuleKind::NonAtomic] {
            assert_eq!(wrap_rule(kind, true, current), wrapped(false, current, Atomicity::Atomic));
        }
    }
}

#[test]
fn a_token_is_emitted_outside_lookahead_and_atomicity() {
    let scope = |atomicity, lookahead| Scope { atomicity, lookahead };
    assert!(emits_in(scope(Atomicity::NonAtomic, false)));
    assert!(emits_in(scope(Atomicity::CompoundAtomic, false)));
    assert!(!emits_in(scope(Atomicity::Atomic, false)));
    assert!(!emits_in(scope(Atomicity::NonAtomic, true)));
    assert!(!emits_in(scope(Atomicity::CompoundAtomic, true)));
}
