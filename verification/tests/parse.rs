use pest_vm::grammar::{Expr, Rule, RuleKind, Token};
use pest_vm::semantics::FatalError;
use pest_vm::vm::{ParseError, Vm, MAX_DEPTH};

fn lit(text: &str) -> Expr {
    Expr::Literal(text.to_owned())
}

fn call(name: &str) -> Expr {
    Expr::RuleRef(name.to_owned())
}

fn seq(lhs: Expr, rhs: Expr) -> Expr {
    Expr::Sequence(Box::new(lhs), Box::new(rhs))
}

fn choice(lhs: Expr, rhs: Expr) -> Expr {
    Expr::OrderedChoice(Box::new(lhs), Box::new(rhs))
}

fn rule(name: &str, kind: RuleKind, body: Expr) -> Rule {
    Rule { name: name.to_owned(), kind, body }
}

fn token(name: &str, start: usize, end: usize) -> Token {
    Token { rule: name.to_owned(), start, end }
}

fn failure(position: usize) -> Result<Vec<Token>, ParseError> {
    Err(ParseError::FailureAt { position })
}

fn fatal(error: FatalError) -> Result<Vec<Token>, ParseError> {
    Err(ParseError::Fatal(error))
}

fn bounded() -> Vm {
    Vm::new(vec![rule(
        "run",
        RuleKind::Normal,
        Expr::RepeatMinMax(Box::new(lit("a")), 2, 4),
    )])
}

#[test]
fn repeat_min_max_takes_what_is_there() {
    assert_eq!(bounded().parse("run", "aaa"), Ok(vec![token("run", 0, 3)]));
}

#[test]
fn repeat_min_max_needs_the_minimum() {
    assert_eq!(bounded().parse("run", "a"), failure(1));
}

#[test]
fn repeat_min_max_stops_at_the_maximum() {
    assert_eq!(bounded().parse("run", "aaaaa"), Ok(vec![token("run", 0, 4)]));
}

#[test]
fn repeat_exact_takes_the_count() {
    let vm = Vm::new(vec![rule("run", RuleKind::Normal, Expr::RepeatExact(Box::new(lit("a")), 3))]);
    assert_eq!(vm.parse("run", "aaaaa"), Ok(vec![token("run", 0, 3)]));
    assert_eq!(vm.parse("run", "aa"), failure(2));
}

#[test]
fn repeat_min_has_no_upper_bound() {
    let vm = Vm::new(vec![rule("run", RuleKind::Normal, Expr::RepeatMin(Box::new(lit("a")), 2))]);
    assert_eq!(vm.parse("run", "aaaaaaa"), Ok(vec![token("run", 0, 7)]));
    assert_eq!(vm.parse("run", "ab"), failure(1));
}

#[test]
fn repeat_max_may_take_nothing() {
    let vm = Vm::new(vec![rule("run", RuleKind::Normal, Expr::RepeatMax(Box::new(lit("a")), 2))]);
    assert_eq!(vm.parse("run", "b"), Ok(vec![token("run", 0, 0)]));
    assert_eq!(vm.parse("run", "aaa"), Ok(vec![token("run", 0, 2)]));
}

#[test]
fn repeat_takes_all() {
    let vm = Vm::new(vec![rule("run", RuleKind::Normal, Expr::Repeat(Box::new(lit("ab"))))]);
    assert_eq!(vm.parse("run", "abababa"), Ok(vec![token("run", 0, 6)]));
    assert_eq!(vm.parse("run", ""), Ok(vec![token("run", 0, 0)]));
}

#[test]
fn repeat_once_needs_one() {
    let vm = Vm::new(vec![rule("run", RuleKind::Normal, Expr::RepeatOnce(Box::new(lit("ab"))))]);
    assert_eq!(vm.parse("run", "abab"), Ok(vec![token("run", 0, 4)]));
    assert_eq!(vm.parse("run", "ba"), failure(0));
}

#[test]
fn repeat_of_an_empty_match_ends() {
    let vm = Vm::new(vec![rule("run", RuleKind::Normal, Expr::Repeat(Box::new(lit(""))))]);
    assert_eq!(vm.parse("run", "abc"), Ok(vec![token("run", 0, 0)]));
}

fn spaced() -> Vec<Rule> {
    vec![
        rule("whitespace", RuleKind::Silent, Expr::RepeatOnce(Box::new(lit(" ")))),
        rule(
            "comment",
            RuleKind::Silent,
            seq(lit("#"), seq(Expr::ScanToAny(vec!["\n".to_owned()]), lit(r"\n"))),
        ),
    ]
}

#[test]
fn separators_interleave() {
    let mut rules = spaced();
    rules.push(rule("pair", RuleKind::NonAtomic, seq(lit("A"), lit("B"))));
    let vm = Vm::new(rules);
    assert_eq!(vm.parse("pair", "A  # c\n  B"), Ok(vec![token("pair", 0, 10)]));
    assert_eq!(vm.parse("pair", "AB"), Ok(vec![token("pair", 0, 2)]));
    assert_eq!(vm.parse("pair", "A # one\n# two\n \n B"), failure(15));
    assert_eq!(vm.parse("pair", "A # one\n# two\n  B"), Ok(vec![token("pair", 0, 17)]));
}

#[test]
fn separators_emit_their_tokens() {
    let vm = Vm::new(vec![
        rule("whitespace", RuleKind::Normal, lit(" ")),
        rule("pair", RuleKind::Normal, seq(lit("A"), lit("B"))),
    ]);
    assert_eq!(
        vm.parse("pair", "A  B"),
        Ok(vec![token("pair", 0, 4), token("whitespace", 1, 2), token("whitespace", 2, 3)])
    );
}

#[test]
fn separators_of_other_kinds_stay_silent() {
    for kind in [RuleKind::Silent, RuleKind::CompoundAtomic, RuleKind::NonAtomic] {
        let vm = Vm::new(vec![
            rule("whitespace", kind, lit(" ")),
            rule("pair", RuleKind::Normal, seq(lit("A"), lit("B"))),
        ]);
        assert_eq!(vm.parse("pair", "A  B"), Ok(vec![token("pair", 0, 4)]));
    }
}

#[test]
fn only_comments_are_skipped_where_only_they_are_defined() {
    let vm = Vm::new(vec![
        rule("comment", RuleKind::Silent, seq(lit("/*"), seq(Expr::ScanToAny(vec!["*/".to_owned()]), lit("*/")))),
        rule("pair", RuleKind::Normal, seq(lit("A"), lit("B"))),
    ]);
    assert_eq!(vm.parse("pair", "A/* x *//**/B"), Ok(vec![token("pair", 0, 13)]));
    assert_eq!(vm.parse("pair", "A B"), failure(1));
}

#[test]
fn a_skip_before_a_failed_round_is_undone() {
    let vm = Vm::new(vec![
        rule("whitespace", RuleKind::Normal, lit(" ")),
        rule("run", RuleKind::Normal, Expr::Repeat(Box::new(lit("a")))),
    ]);
    assert_eq!(
        vm.parse("run", "a a b"),
        Ok(vec![token("run", 0, 3), token("whitespace", 1, 2)])
    );
}

fn nested() -> Vm {
    Vm::new(vec![
        rule("whitespace", RuleKind::Silent, lit(" ")),
        rule("outer", RuleKind::Atomic, seq(lit("a"), seq(lit("b"), call("inner")))),
        rule("inner", RuleKind::NonAtomic, seq(lit("c"), lit("d"))),
        rule("plain", RuleKind::Normal, seq(lit("c"), lit("d"))),
        rule("shut", RuleKind::Atomic, seq(lit("a"), call("plain"))),
        rule("compound", RuleKind::CompoundAtomic, seq(lit("a"), call("plain"))),
        rule("quiet", RuleKind::Silent, seq(lit("a"), call("plain"))),
        rule("deep", RuleKind::Atomic, call("compound")),
    ])
}

#[test]
fn atomic_rule_suppresses_skipping() {
    let vm = nested();
    assert_eq!(vm.parse("outer", "a bcd"), failure(1));
    assert_eq!(vm.parse("shut", "ac d"), failure(2));
    assert_eq!(vm.parse("shut", "acd"), Ok(vec![token("shut", 0, 3)]));
}

#[test]
fn non_atomic_rule_restores_skipping() {
    let vm = nested();
    assert_eq!(
        vm.parse("outer", "abc d"),
        Ok(vec![token("outer", 0, 5), token("inner", 2, 5)])
    );
    assert_eq!(
        vm.parse("outer", "abcd"),
        Ok(vec![token("outer", 0, 4), token("inner", 2, 4)])
    );
}

#[test]
fn compound_atomic_rule_emits_its_own_token() {
    let vm = nested();
    assert_eq!(vm.parse("compound", "acd"), Ok(vec![token("compound", 0, 3)]));
    assert_eq!(vm.parse("compound", "a cd"), failure(1));
    assert_eq!(vm.parse("deep", "acd"), Ok(vec![token("deep", 0, 3), token("compound", 0, 3)]));
}

#[test]
fn silent_rule_emits_nothing_of_its_own() {
    let vm = nested();
    assert_eq!(vm.parse("quiet", "a c d"), Ok(vec![token("plain", 2, 5)]));
}

#[test]
fn peek_matches_without_popping() {
    let vm = Vm::new(vec![
        rule("twice", RuleKind::Normal, seq(Expr::Capture(Box::new(lit("ab"))), call("peek"))),
        rule(
            "thrice",
            RuleKind::Normal,
            seq(Expr::Capture(Box::new(lit("ab"))), seq(call("peek"), call("peek"))),
        ),
    ]);
    assert_eq!(vm.parse("twice", "abab"), Ok(vec![token("twice", 0, 4)]));
    assert_eq!(vm.parse("thrice", "ababab"), Ok(vec![token("thrice", 0, 6)]));
    assert_eq!(vm.parse("twice", "abba"), failure(2));
}

#[test]
fn pop_removes_the_capture() {
    let vm = Vm::new(vec![
        rule(
            "held",
            RuleKind::Normal,
            seq(Expr::Capture(Box::new(lit("ab"))), seq(call("peek"), call("pop"))),
        ),
        rule(
            "gone",
            RuleKind::Normal,
            seq(Expr::Capture(Box::new(lit("ab"))), seq(call("peek"), seq(call("pop"), call("peek")))),
        ),
    ]);
    assert_eq!(vm.parse("held", "ababab"), Ok(vec![token("held", 0, 6)]));
    assert_eq!(vm.parse("gone", "abababab"), fatal(FatalError::EmptyStack));
}

#[test]
fn pop_that_does_not_match_keeps_the_capture() {
    let vm = Vm::new(vec![rule(
        "kept",
        RuleKind::Normal,
        seq(Expr::Capture(Box::new(lit("ab"))), seq(choice(call("pop"), lit("x")), call("peek"))),
    )]);
    assert_eq!(vm.parse("kept", "abxab"), Ok(vec![token("kept", 0, 5)]));
}

#[test]
fn peek_and_pop_on_an_empty_stack_are_fatal() {
    let vm = Vm::new(vec![
        rule("looks", RuleKind::Normal, call("peek")),
        rule("takes", RuleKind::Normal, call("pop")),
    ]);
    assert_eq!(vm.parse("looks", "a"), fatal(FatalError::EmptyStack));
    assert_eq!(vm.parse("takes", "a"), fatal(FatalError::EmptyStack));
}

#[test]
fn a_failed_alternative_leaves_no_capture() {
    let vm = Vm::new(vec![rule(
        "either",
        RuleKind::Normal,
        seq(choice(seq(Expr::Capture(Box::new(lit("a"))), lit("x")), lit("ab")), call("peek")),
    )]);
    assert_eq!(vm.parse("either", "aba"), fatal(FatalError::EmptyStack));
}

#[test]
fn a_failed_alternative_leaves_no_token() {
    let vm = Vm::new(vec![
        rule("letter", RuleKind::Normal, lit("a")),
        rule("either", RuleKind::Normal, choice(seq(call("letter"), lit("x")), lit("ab"))),
    ]);
    assert_eq!(vm.parse("either", "ab"), Ok(vec![token("either", 0, 2)]));
    assert_eq!(
        vm.parse("either", "ax"),
        Ok(vec![token("either", 0, 2), token("letter", 0, 1)])
    );
}

#[test]
fn a_failed_sequence_restores_a_popped_capture() {
    let vm = Vm::new(vec![rule(
        "again",
        RuleKind::Normal,
        seq(
            Expr::Capture(Box::new(lit("a"))),
            seq(choice(seq(call("pop"), lit("x")), lit("a")), call("peek")),
        ),
    )]);
    assert_eq!(vm.parse("again", "aaa"), Ok(vec![token("again", 0, 3)]));
}

#[test]
fn parentheses_around_any() {
    let vm = Vm::new(vec![
        rule("start", RuleKind::Normal, seq(lit("("), seq(Expr::Repeat(Box::new(call("inner"))), lit(")")))),
        rule("inner", RuleKind::Silent, call("any")),
    ]);
    assert_eq!(vm.parse("start", "(abc)"), failure(5));
}

#[test]
fn parentheses_around_anything_else() {
    let inner = seq(Expr::NegativeLookahead(Box::new(lit(")"))), call("any"));
    let vm = Vm::new(vec![
        rule("start", RuleKind::Normal, seq(lit("("), seq(Expr::Repeat(Box::new(call("inner"))), lit(")")))),
        rule("inner", RuleKind::Silent, inner),
    ]);
    assert_eq!(vm.parse("start", "(abc)"), Ok(vec![token("start", 0, 5)]));
}

#[test]
fn tokens_come_in_the_order_of_the_input() {
    let inner = seq(Expr::NegativeLookahead(Box::new(lit(")"))), call("any"));
    let vm = Vm::new(vec![
        rule("start", RuleKind::Normal, seq(lit("("), seq(Expr::Repeat(Box::new(call("inner"))), lit(")")))),
        rule("inner", RuleKind::Normal, inner),
    ]);
    assert_eq!(
        vm.parse("start", "(ab)"),
        Ok(vec![token("start", 0, 4), token("inner", 1, 2), token("inner", 2, 3)])
    );
}

#[test]
fn any_advances_over_one_code_point() {
    let vm = Vm::new(vec![rule("two", RuleKind::Normal, seq(call("any"), call("any")))]);
    assert_eq!(vm.parse("two", "é€x"), Ok(vec![token("two", 0, 5)]));
    assert_eq!(vm.parse("two", "𝄞"), failure(4));
    assert_eq!(vm.parse("two", ""), failure(0));
}

#[test]
fn end_of_input_is_a_token() {
    let vm = Vm::new(vec![rule("all", RuleKind::Normal, seq(lit("a"), call("eoi")))]);
    assert_eq!(vm.parse("all", "a"), Ok(vec![token("all", 0, 1), token("eoi", 1, 1)]));
    assert_eq!(vm.parse("all", "ab"), failure(1));
    assert_eq!(vm.parse("eoi", ""), Ok(vec![token("eoi", 0, 0)]));
}

#[test]
fn start_of_input_consumes_nothing() {
    let vm = Vm::new(vec![
        rule("first", RuleKind::Normal, seq(call("soi"), lit("a"))),
        rule("later", RuleKind::Normal, seq(lit("a"), call("soi"))),
    ]);
    assert_eq!(vm.parse("first", "a"), Ok(vec![token("first", 0, 1)]));
    assert_eq!(vm.parse("later", "a"), failure(1));
}

#[test]
fn reserved_names_are_not_looked_up() {
    let vm = Vm::new(vec![
        rule("any", RuleKind::Normal, lit("x")),
        rule("start", RuleKind::Normal, call("any")),
    ]);
    assert_eq!(vm.parse("start", "y"), Ok(vec![token("start", 0, 1)]));
}

#[test]
fn the_later_rule_of_a_name_counts() {
    let vm = Vm::new(vec![
        rule("start", RuleKind::Normal, lit("a")),
        rule("start", RuleKind::Normal, lit("b")),
    ]);
    assert_eq!(vm.parse("start", "b"), Ok(vec![token("start", 0, 1)]));
    assert_eq!(vm.parse("start", "a"), failure(0));
}

#[test]
fn undefined_rule_is_fatal() {
    let vm = Vm::new(vec![rule("start", RuleKind::Normal, call("missing"))]);
    assert_eq!(vm.parse("start", ""), fatal(FatalError::UndefinedRule));
    assert_eq!(vm.parse("other", ""), fatal(FatalError::UndefinedRule));
}

#[test]
fn invalid_literal_is_fatal() {
    let vm = Vm::new(vec![
        rule("text", RuleKind::Normal, lit(r"\q")),
        rule("folded", RuleKind::Normal, Expr::LiteralInsensitive(r"\x4".to_owned())),
        rule("range", RuleKind::Normal, Expr::CharRange("a".to_owned(), r"\u{d800}".to_owned())),
        rule("empty", RuleKind::Normal, Expr::CharRange("".to_owned(), "z".to_owned())),
    ]);
    assert_eq!(vm.parse("text", "q"), fatal(FatalError::InvalidLiteral));
    assert_eq!(vm.parse("folded", "q"), fatal(FatalError::InvalidLiteral));
    assert_eq!(vm.parse("range", "q"), fatal(FatalError::InvalidLiteral));
    assert_eq!(vm.parse("empty", "q"), fatal(FatalError::InvalidLiteral));
}

#[test]
fn left_recursion_runs_into_the_depth_limit() {
    let vm = Vm::new(vec![rule("start", RuleKind::Normal, seq(call("start"), lit("a")))]);
    assert_eq!(vm.parse("start", "aaa"), fatal(FatalError::DepthExceeded));
}

#[test]
fn depth_counts_nested_rules() {
    let vm = Vm::new(vec![
        rule("a", RuleKind::Normal, call("b")),
        rule("b", RuleKind::Normal, call("c")),
        rule("c", RuleKind::Normal, lit("x")),
    ]);
    let all = Ok(vec![token("a", 0, 1), token("b", 0, 1), token("c", 0, 1)]);
    assert_eq!(vm.parse_within("a", "x", 3), all);
    assert_eq!(vm.parse_within("a", "x", 2), fatal(FatalError::DepthExceeded));
    assert_eq!(vm.parse_within("a", "x", 0), fatal(FatalError::DepthExceeded));
    assert_eq!(vm.parse_within("a", "x", MAX_DEPTH), all);
}

#[test]
fn literal_is_decoded_before_it_is_matched() {
    let vm = Vm::new(vec![rule("start", RuleKind::Normal, lit(r"a\tb\u{e9}\x41"))]);
    assert_eq!(vm.parse("start", "a\tbéA"), Ok(vec![token("start", 0, 6)]));
    assert_eq!(vm.parse("start", "a\tbeA"), failure(0));
}

#[test]
fn insensitive_literal_ignores_ascii_case_only() {
    let vm = Vm::new(vec![rule("start", RuleKind::Normal, Expr::LiteralInsensitive("Grüße".to_owned()))]);
    assert_eq!(vm.parse("start", "gRüßE"), Ok(vec![token("start", 0, 7)]));
    assert_eq!(vm.parse("start", "GRÜSSE"), failure(0));
    assert_eq!(vm.parse("start", "grü"), failure(0));
}

#[test]
fn range_includes_both_ends() {
    let vm = Vm::new(vec![rule(
        "start",
        RuleKind::Normal,
        Expr::RepeatOnce(Box::new(Expr::CharRange("b".to_owned(), r"\u{e9}".to_owned()))),
    )]);
    assert_eq!(vm.parse("start", "béc"), Ok(vec![token("start", 0, 4)]));
    assert_eq!(vm.parse("start", "a"), failure(0));
    assert_eq!(vm.parse("start", "ê"), failure(0));
    assert_eq!(vm.parse("start", ""), failure(0));
}

#[test]
fn scan_stops_at_the_nearest_text() {
    let scan = |texts: &[&str]| Expr::ScanToAny(texts.iter().map(|text| (*text).to_owned()).collect());
    let vm = Vm::new(vec![
        rule("far", RuleKind::Normal, seq(scan(&["cd", "b"]), lit("b"))),
        rule("none", RuleKind::Normal, scan(&["x", "y"])),
        rule("here", RuleKind::Normal, scan(&["a"])),
        rule("nothing", RuleKind::Normal, scan(&[])),
        rule("empty", RuleKind::Normal, scan(&[""])),
    ]);
    assert_eq!(vm.parse("far", "aabcd"), Ok(vec![token("far", 0, 3)]));
    assert_eq!(vm.parse("none", "aabcd"), failure(0));
    assert_eq!(vm.parse("here", "aabcd"), Ok(vec![token("here", 0, 0)]));
    assert_eq!(vm.parse("nothing", "aabcd"), failure(0));
    assert_eq!(vm.parse("empty", ""), Ok(vec![token("empty", 0, 0)]));
}

#[test]
fn lookahead_consumes_nothing() {
    let vm = Vm::new(vec![
        rule("letter", RuleKind::Normal, lit("a")),
        rule("ahead", RuleKind::Normal, seq(Expr::PositiveLookahead(Box::new(call("letter"))), lit("ab"))),
        rule("not", RuleKind::Normal, seq(Expr::NegativeLookahead(Box::new(call("letter"))), lit("b"))),
    ]);
    assert_eq!(vm.parse("ahead", "ab"), Ok(vec![token("ahead", 0, 2)]));
    assert_eq!(vm.parse("ahead", "b"), failure(0));
    assert_eq!(vm.parse("not", "b"), Ok(vec![token("not", 0, 1)]));
    assert_eq!(vm.parse("not", "a"), failure(0));
}

#[test]
fn lookahead_leaves_no_capture() {
    let vm = Vm::new(vec![rule(
        "start",
        RuleKind::Normal,
        seq(Expr::PositiveLookahead(Box::new(Expr::Capture(Box::new(lit("a"))))), seq(lit("a"), call("peek"))),
    )]);
    assert_eq!(vm.parse("start", "aa"), fatal(FatalError::EmptyStack));
}

#[test]
fn lookahead_restores_a_popped_capture() {
    let vm = Vm::new(vec![rule(
        "start",
        RuleKind::Normal,
        seq(
            Expr::Capture(Box::new(lit("a"))),
            seq(Expr::PositiveLookahead(Box::new(call("pop"))), call("pop")),
        ),
    )]);
    assert_eq!(vm.parse("start", "aa"), Ok(vec![token("start", 0, 2)]));
}

#[test]
fn optional_never_fails() {
    let vm = Vm::new(vec![rule("start", RuleKind::Normal, seq(Expr::Optional(Box::new(lit("a"))), lit("b")))]);
    assert_eq!(vm.parse("start", "ab"), Ok(vec![token("start", 0, 2)]));
    assert_eq!(vm.parse("start", "b"), Ok(vec![token("start", 0, 1)]));
    assert_eq!(vm.parse("start", "c"), failure(0));
}

#[test]
fn failure_is_at_the_furthest_offset() {
    let vm = Vm::new(vec![rule(
        "start",
        RuleKind::Normal,
        choice(seq(lit("ab"), seq(lit("cd"), lit("x"))), seq(lit("a"), lit("y"))),
    )]);
    assert_eq!(vm.parse("start", "abcdz"), failure(4));
    assert_eq!(vm.parse("start", "az"), failure(1));
    assert_eq!(vm.parse("start", "z"), failure(0));
}

#[test]
fn a_match_need_not_reach_the_end() {
    let vm = Vm::new(vec![rule("start", RuleKind::Normal, lit("a"))]);
    assert_eq!(vm.parse("start", "abc"), Ok(vec![token("start", 0, 1)]));
}
