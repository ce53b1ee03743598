use pest::{Atomicity, ParseResult, ParserState};
use pest_vm::cursor::{
    advance_at, match_insensitive_at, match_range_at, match_string_at, scan_to_any_at,
};
use pest_vm::grammar::{Expr, Rule, RuleKind, Token};
use pest_vm::vm::Vm;

type State<'i> = Box<ParserState<'i, &'static str>>;

fn reached(result: ParseResult<State<'_>>) -> Option<usize> {
    match result {
        Ok(state) => Some(state.position().pos()),
        Err(_) => None,
    }
}

fn behind(offset: usize, end: Option<usize>) -> Option<usize> {
    end.map(|end| end - offset)
}

const INPUTS: [&str; 8] = ["", "a", "abc", "ABC", "aébc", "€uro", "𝄞 clef", "a\nb\tc"];

const TEXTS: [&str; 10] = ["", "a", "A", "ab", "bc", "é", "É", "€", "𝄞", "\n"];

fn offsets(input: &str) -> Vec<usize> {
    (0..=input.len()).filter(|offset| input.is_char_boundary(*offset)).collect()
}

#[test]
fn literals_match_as_in_pest() {
    for input in INPUTS {
        for offset in offsets(input) {
            for text in TEXTS {
                let theirs = reached(ParserState::new(&input[offset..]).match_string(text));
                let ours = match_string_at(input.as_bytes(), offset, text.as_bytes());
                assert_eq!(behind(offset, ours), theirs, "{:?} at {} in {:?}", text, offset, input);
            }
        }
    }
}

#[test]
fn insensitive_literals_match_as_in_pest() {
    for input in INPUTS {
        for offset in offsets(input) {
            for text in TEXTS {
                let theirs = reached(ParserState::new(&input[offset..]).match_insensitive(text));
                let ours = match_insensitive_at(input.as_bytes(), offset, text.as_bytes());
                assert_eq!(behind(offset, ours), theirs, "{:?} at {} in {:?}", text, offset, input);
            }
        }
    }
}

#[test]
fn ranges_match_as_in_pest() {
    let ends = ['\0', 'A', 'a', 'b', 'z', 'é', '€', '𝄞', '\u{10ffff}'];
    for input in INPUTS {
        for offset in offsets(input) {
            for low in ends {
                for high in ends {
                    let theirs = reached(ParserState::new(&input[offset..]).match_range(low..high));
                    let ours = match_range_at(input.as_bytes(), offset, low, high);
                    assert_eq!(behind(offset, ours), theirs, "{:?}..{:?} in {:?}", low, high, input);
                }
            }
        }
    }
}

#[test]
fn one_character_is_skipped_as_in_pest() {
    for input in INPUTS {
        for offset in offsets(input) {
            let theirs = reached(ParserState::new(&input[offset..]).skip(1));
            let ours = advance_at(input.as_bytes(), offset);
            assert_eq!(behind(offset, ours), theirs, "at {} in {:?}", offset, input);
        }
    }
}

#[test]
fn what_a_scan_finds_is_what_pest_finds() {
    let lists: [&[&str]; 6] = [&["a"], &["bc", "b"], &["é", "c"], &["x", "clef"], &["\n", "\t"], &["€", "𝄞", "A"]];
    for input in INPUTS {
        for offset in offsets(input) {
            for list in lists {
                let texts: Vec<String> = list.iter().map(|text| (*text).to_owned()).collect();
                let theirs = reached(ParserState::new(&input[offset..]).skip_until(list));
                let ours = scan_to_any_at(input.as_bytes(), offset, &texts);
                match ours {
                    Some(end) => assert_eq!(Some(end - offset), theirs),
                    None => assert_eq!(Some(input.len() - offset), theirs),
                }
            }
        }
    }
}

fn whitespace(state: State<'_>) -> ParseResult<State<'_>> {
    state.atomic(Atomicity::Atomic, |state| state.match_string(" "))
}

fn skip(state: State<'_>) -> ParseResult<State<'_>> {
    if state.atomicity() == Atomicity::NonAtomic {
        state.repeat(whitespace)
    } else {
        Ok(state)
    }
}

fn digit(state: State<'_>) -> ParseResult<State<'_>> {
    state.rule("digit", |state| state.match_range('0'..'9'))
}

fn number(state: State<'_>) -> ParseResult<State<'_>> {
    state.rule("number", |state| {
        state.atomic(Atomicity::Atomic, |state| {
            state.sequence(|state| digit(state).and_then(|state| state.repeat(digit)))
        })
    })
}

fn item(state: State<'_>) -> ParseResult<State<'_>> {
    state.atomic(Atomicity::CompoundAtomic, |state| {
        state.rule("item", |state| {
            state.sequence(|state| state.match_string("#").and_then(number))
        })
    })
}

fn list(state: State<'_>) -> ParseResult<State<'_>> {
    state.rule("list", |state| {
        state.sequence(|state| {
            state
                .match_string("[")
                .and_then(skip)
                .and_then(|state| {
                    state.optional(|state| {
                        state.sequence(|state| {
                            number(state).and_then(|state| {
                                state.repeat(|state| {
                                    state.sequence(|state| {
                                        skip(state)
                                            .and_then(|state| state.match_string(","))
                                            .and_then(skip)
                                            .and_then(number)
                                    })
                                })
                            })
                        })
                    })
                })
                .and_then(skip)
                .and_then(|state| state.match_string("]"))
        })
    })
}

fn lit(text: &str) -> Box<Expr> {
    Box::new(Expr::Literal(text.to_owned()))
}

fn call(name: &str) -> Box<Expr> {
    Box::new(Expr::RuleRef(name.to_owned()))
}

fn seq(lhs: Box<Expr>, rhs: Box<Expr>) -> Box<Expr> {
    Box::new(Expr::Sequence(lhs, rhs))
}

fn numbers() -> Vm {
    let rule = |name: &str, kind, body: Box<Expr>| Rule { name: name.to_owned(), kind, body: *body };
    let digit = Box::new(Expr::CharRange("0".to_owned(), "9".to_owned()));
    let more = Box::new(Expr::Repeat(seq(lit(","), call("number"))));
    let inside = Box::new(Expr::Optional(seq(call("number"), more)));
    Vm::new(vec![
        rule("whitespace", RuleKind::Silent, lit(" ")),
        rule("digit", RuleKind::Normal, digit),
        rule("number", RuleKind::Atomic, Box::new(Expr::RepeatOnce(call("digit")))),
        rule("item", RuleKind::CompoundAtomic, seq(lit("#"), call("number"))),
        rule("list", RuleKind::Normal, seq(lit("["), seq(inside, lit("]")))),
    ])
}

fn theirs(start: fn(State<'_>) -> ParseResult<State<'_>>, input: &str) -> Option<Vec<Token>> {
    match pest::state(input, start) {
        Ok(pairs) => Some(
            pairs
                .flatten()
                .map(|pair| Token {
                    rule: pair.as_rule().to_owned(),
                    start: pair.as_span().start(),
                    end: pair.as_span().end(),
                })
                .collect(),
        ),
        Err(_) => None,
    }
}

#[test]
fn a_grammar_gives_the_tokens_that_pest_gives() {
    let vm = numbers();
    for input in ["[]", "[ ]", "[1]", "[12, 3]", "[ 1 ,22 , 333 ]", "[1 2]", "[1,]", "[", "[a]", "12"] {
        assert_eq!(vm.parse("list", input).ok(), theirs(list, input), "list on {:?}", input);
    }
    for input in ["007", "7a", "a", "", "1 2"] {
        assert_eq!(vm.parse("number", input).ok(), theirs(number, input), "number on {:?}", input);
    }
}

#[test]
fn a_compound_atomic_rule_differs_from_pest_in_its_inner_tokens_only() {
    let vm = numbers();
    let ours = vm.parse("item", "#12").ok();
    let with_inner = theirs(item, "#12");
    assert_eq!(ours, Some(vec![Token { rule: "item".to_owned(), start: 0, end: 3 }]));
    assert_eq!(with_inner.map(|tokens| tokens[0].clone()), ours.map(|tokens| tokens[0].clone()));
    assert_eq!(vm.parse("item", "# 12").ok(), theirs(item, "# 12"));
}
