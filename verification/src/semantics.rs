//! What a grammar means: the outcome of evaluating an expression, of entering a rule, of
//! skipping separators and of a repetition, each as a function of the grammar, the input,
//! the position, the scope and the capture stack.
//!
//! An attempt that fails leaves nothing behind: its outcome holds no stack and no tokens,
//! and whoever goes on after it goes on from the position and the stack of before. Only
//! the furthest offset at which something failed to match is carried along.

use vstd::prelude::*;
use vstd::utf8::encode_utf8;
use crate::cursor::{advance, encodings, match_insensitive, match_range, match_string, scan_to_any};
use crate::grammar::{expr_size, Atomicity, ExprModel, Grammar, RuleKind, TokenModel};
use crate::literal::decode_literal;

verus! {

/// An error that ends the parse: the grammar is at fault, not the input.
#[derive(Clone, Copy, Debug, PartialEq, Eq, Structural)]
pub enum FatalError {
    /// An expression names a rule that the grammar does not have.
    UndefinedRule,
    /// `peek` or `pop` was reached with nothing on the capture stack.
    EmptyStack,
    /// A literal with a malformed escape, or a character literal that is empty.
    InvalidLiteral,
    /// Rules were nested more deeply than the limit that the parse was given.
    DepthExceeded,
}

/// What holds for the expression being evaluated and is handed down to its parts.
#[derive(Clone, Copy, Debug, PartialEq, Eq, Structural)]
pub struct Scope {
    /// The atomicity in force.
    pub atomicity: Atomicity,
    /// Whether the expression stands inside a lookahead.
    pub lookahead: bool,
}

/// What a successful attempt has done.
pub struct Progress {
    /// The position reached.
    pub end: int,
    /// The capture stack as the attempt leaves it.
    pub stack: Seq<(usize, usize)>,
    /// The tokens that the attempt has emitted, in the order of the input.
    pub tokens: Seq<TokenModel>,
    /// The furthest offset at which something inside the attempt failed to match; 0 where
    /// nothing failed.
    pub furthest: nat,
}

/// The outcome of an attempt.
pub enum Outcome {
    /// The attempt matched.
    Matched(Progress),
    /// The attempt did not match. Position, stack and tokens are those of before.
    Failed {
        /// The furthest offset at which something failed to match.
        furthest: nat,
    },
    /// The parse cannot go on.
    Fatal(FatalError),
}

/// The larger of two offsets.
pub open spec fn furthest_of(a: nat, b: nat) -> nat {
    if a >= b {
        a
    } else {
        b
    }
}

/// The progress of an attempt that matched without doing anything.
pub open spec fn standing(pos: int, stack: Seq<(usize, usize)>) -> Progress {
    Progress { end: pos, stack, tokens: Seq::empty(), furthest: 0 }
}

/// The outcome of a match of the cursor at `pos`: it reaches the offset found, or fails
/// at `pos`.
pub open spec fn leaf(found: Option<int>, pos: int, stack: Seq<(usize, usize)>) -> Outcome {
    match found {
        Some(end) => Outcome::Matched(Progress { end, ..standing(pos, stack) }),
        None => Outcome::Failed { furthest: pos as nat },
    }
}

/// The progress of `first` and then `second`: the position and the stack of the second,
/// the tokens of both, and the furthest failure of both.
pub open spec fn join(first: Progress, second: Progress) -> Progress {
    Progress {
        end: second.end,
        stack: second.stack,
        tokens: first.tokens + second.tokens,
        furthest: furthest_of(first.furthest, second.furthest),
    }
}

/// `next`, attempted after `first` has matched.
pub open spec fn then(first: Progress, next: Outcome) -> Outcome {
    match next {
        Outcome::Matched(second) => Outcome::Matched(join(first, second)),
        Outcome::Failed { furthest } => Outcome::Failed {
            furthest: furthest_of(first.furthest, furthest),
        },
        Outcome::Fatal(error) => Outcome::Fatal(error),
    }
}

/// An attempt that may fail: where it does, nothing is consumed and the stack stays.
pub open spec fn or_stay(attempt: Outcome, pos: int, stack: Seq<(usize, usize)>) -> Outcome {
    match attempt {
        Outcome::Failed { furthest } => Outcome::Matched(
            Progress { furthest, ..standing(pos, stack) },
        ),
        other => other,
    }
}

/// Whether a rule entered in `scope` emits its token: not inside a lookahead, and not
/// where the atomicity in force is `Atomic`.
pub open spec fn emits(scope: Scope) -> bool {
    !scope.lookahead && scope.atomicity != Atomicity::Atomic
}

/// How a rule is wrapped when it is entered.
#[derive(Clone, Copy, Debug, PartialEq, Eq, Structural)]
pub struct Wrapping {
    /// Whether the rule asks for a token.
    pub token: bool,
    /// The atomicity in force when the rule is entered, which decides whether the token
    /// that it asks for is emitted.
    pub entry: Atomicity,
    /// The atomicity in force inside the body.
    pub body: Atomicity,
}

/// The wrapping of a rule of `kind`, entered where `current` is in force. `separator`
/// says that the rule is `whitespace` or `comment`.
///
/// A separator always has an atomic body, and asks for a token only as a `Normal` or an
/// `Atomic` rule. Of the other rules, all but `Silent` ask for a token; `Normal` and
/// `Silent` leave the atomicity as it is, `Atomic` makes the body atomic, `CompoundAtomic`
/// makes the body atomic and enters the rule so that its own token is emitted, and
/// `NonAtomic` enters the rule and runs the body with no atomicity.
pub open spec fn wrapping(kind: RuleKind, separator: bool, current: Atomicity) -> Wrapping {
    if separator {
        Wrapping {
            token: kind == RuleKind::Normal || kind == RuleKind::Atomic,
            entry: current,
            body: Atomicity::Atomic,
        }
    } else {
        match kind {
            RuleKind::Normal => Wrapping { token: true, entry: current, body: current },
            RuleKind::Silent => Wrapping { token: false, entry: current, body: current },
            RuleKind::Atomic => Wrapping { token: true, entry: current, body: Atomicity::Atomic },
            RuleKind::CompoundAtomic => Wrapping {
                token: true,
                entry: Atomicity::CompoundAtomic,
                body: Atomicity::Atomic,
            },
            RuleKind::NonAtomic => Wrapping {
                token: true,
                entry: Atomicity::NonAtomic,
                body: Atomicity::NonAtomic,
            },
        }
    }
}

/// The outcome of a rule's body with the rule's own token put before the tokens of the
/// body, where `emit` says so.
pub open spec fn entered(name: Seq<char>, emit: bool, pos: int, body: Outcome) -> Outcome {
    match body {
        Outcome::Matched(inner) => if emit {
            Outcome::Matched(
                Progress {
                    tokens: seq![TokenModel { rule: name, start: pos, end: inner.end }]
                        + inner.tokens,
                    ..inner
                },
            )
        } else {
            body
        },
        other => other,
    }
}

/// Whether `name` is one of the two separator rules.
pub open spec fn is_separator(name: Seq<char>) -> bool {
    name == "whitespace"@ || name == "comment"@
}

/// The bytes of the input that `span` covers.
pub open spec fn span_text(input: Seq<u8>, span: (usize, usize)) -> Seq<u8> {
    input.subrange(span.0 as int, span.1 as int)
}

/// Entering the rule `name` at `pos`.
///
/// Five names are taken before the grammar is asked: `any` advances over one code point;
/// `eoi` matches at the end of the input and emits a token of that name; `soi` matches at
/// offset 0; `peek` matches the text of the span on top of the capture stack; `pop` does
/// the same and takes the span off where the match succeeds. `peek` and `pop` on an empty
/// stack are fatal. Any other name must be a rule of the grammar, and `depth` must not be
/// used up; the body of the rule is then evaluated as [`wrapping`] says.
pub open spec fn dispatch(
    grammar: Grammar,
    input: Seq<u8>,
    name: Seq<char>,
    pos: int,
    scope: Scope,
    stack: Seq<(usize, usize)>,
    depth: nat,
) -> Outcome
    decreases depth, 0nat, 0nat, 0nat,
{
    if name == "any"@ {
        leaf(advance(input, pos), pos, stack)
    } else if name == "eoi"@ {
        entered(
            name,
            emits(scope),
            pos,
            leaf(
                if pos == input.len() {
                    Some(pos)
                } else {
                    None
                },
                pos,
                stack,
            ),
        )
    } else if name == "soi"@ {
        leaf(
            if pos == 0 {
                Some(pos)
            } else {
                None
            },
            pos,
            stack,
        )
    } else if name == "peek"@ {
        if stack.len() == 0 {
            Outcome::Fatal(FatalError::EmptyStack)
        } else {
            leaf(match_string(input, pos, span_text(input, stack.last())), pos, stack)
        }
    } else if name == "pop"@ {
        if stack.len() == 0 {
            Outcome::Fatal(FatalError::EmptyStack)
        } else {
            leaf(
                match_string(input, pos, span_text(input, stack.last())),
                pos,
                stack.drop_last(),
            )
        }
    } else if !grammar.contains_key(name) {
        Outcome::Fatal(FatalError::UndefinedRule)
    } else if depth == 0 {
        Outcome::Fatal(FatalError::DepthExceeded)
    } else {
        let rule = grammar[name];
        let wrap = wrapping(rule.kind, is_separator(name), scope.atomicity);
        entered(
            name,
            wrap.token && emits(Scope { atomicity: wrap.entry, lookahead: scope.lookahead }),
            pos,
            eval(
                grammar,
                input,
                rule.body,
                pos,
                Scope { atomicity: wrap.body, lookahead: scope.lookahead },
                stack,
                (depth - 1) as nat,
            ),
        )
    }
}

/// The first character of the text that a character literal denotes.
pub open spec fn char_of(raw: Seq<char>) -> Option<char> {
    match decode_literal(raw) {
        Some(text) => if text.len() > 0 {
            Some(text[0])
        } else {
            None
        },
        None => None,
    }
}

/// Evaluating `expr` at `pos`.
pub open spec fn eval(
    grammar: Grammar,
    input: Seq<u8>,
    expr: ExprModel,
    pos: int,
    scope: Scope,
    stack: Seq<(usize, usize)>,
    depth: nat,
) -> Outcome
    decreases depth, 1 + expr_size(expr), 0nat, 0nat,
{
    match expr {
        ExprModel::Literal(raw) => match decode_literal(raw) {
            Some(text) => leaf(match_string(input, pos, encode_utf8(text)), pos, stack),
            None => Outcome::Fatal(FatalError::InvalidLiteral),
        },
        ExprModel::LiteralInsensitive(raw) => match decode_literal(raw) {
            Some(text) => leaf(match_insensitive(input, pos, encode_utf8(text)), pos, stack),
            None => Outcome::Fatal(FatalError::InvalidLiteral),
        },
        ExprModel::CharRange(low, high) => match (char_of(low), char_of(high)) {
            (Some(first), Some(last)) => leaf(match_range(input, pos, first, last), pos, stack),
            _ => Outcome::Fatal(FatalError::InvalidLiteral),
        },
        ExprModel::RuleRef(name) => dispatch(grammar, input, name, pos, scope, stack, depth),
        ExprModel::PositiveLookahead(inner) => match eval(
            grammar,
            input,
            *inner,
            pos,
            Scope { lookahead: true, ..scope },
            stack,
            depth,
        ) {
            Outcome::Matched(seen) => Outcome::Matched(
                Progress { furthest: seen.furthest, ..standing(pos, stack) },
            ),
            Outcome::Failed { furthest } => Outcome::Failed {
                furthest: furthest_of(furthest, pos as nat),
            },
            Outcome::Fatal(error) => Outcome::Fatal(error),
        },
        ExprModel::NegativeLookahead(inner) => match eval(
            grammar,
            input,
            *inner,
            pos,
            Scope { lookahead: true, ..scope },
            stack,
            depth,
        ) {
            Outcome::Matched(seen) => Outcome::Failed {
                furthest: furthest_of(seen.furthest, pos as nat),
            },
            Outcome::Failed { furthest } => Outcome::Matched(
                Progress { furthest, ..standing(pos, stack) },
            ),
            Outcome::Fatal(error) => Outcome::Fatal(error),
        },
        ExprModel::Sequence(lhs, rhs) => match eval(
            grammar,
            input,
            *lhs,
            pos,
            scope,
            stack,
            depth,
        ) {
            Outcome::Matched(first) => then(
                first,
                skip_then(grammar, input, *rhs, first.end, scope, first.stack, depth),
            ),
            other => other,
        },
        ExprModel::OrderedChoice(lhs, rhs) => match eval(
            grammar,
            input,
            *lhs,
            pos,
            scope,
            stack,
            depth,
        ) {
            Outcome::Failed { furthest } => then(
                Progress { furthest, ..standing(pos, stack) },
                eval(grammar, input, *rhs, pos, scope, stack, depth),
            ),
            other => other,
        },
        ExprModel::Optional(inner) => or_stay(
            eval(grammar, input, *inner, pos, scope, stack, depth),
            pos,
            stack,
        ),
        ExprModel::Repeat(inner) => repeat(
            grammar,
            input,
            *inner,
            None,
            None,
            pos,
            scope,
            stack,
            depth,
        ),
        ExprModel::RepeatOnce(inner) => repeat(
            grammar,
            input,
            *inner,
            Some(1),
            None,
            pos,
            scope,
            stack,
            depth,
        ),
        ExprModel::RepeatExact(inner, count) => repeat(
            grammar,
            input,
            *inner,
            Some(count),
            Some(count),
            pos,
            scope,
            stack,
            depth,
        ),
        ExprModel::RepeatMin(inner, min) => repeat(
            grammar,
            input,
            *inner,
            Some(min),
            None,
            pos,
            scope,
            stack,
            depth,
        ),
        ExprModel::RepeatMax(inner, max) => repeat(
            grammar,
            input,
            *inner,
            None,
            Some(max),
            pos,
            scope,
            stack,
            depth,
        ),
        ExprModel::RepeatMinMax(inner, min, max) => repeat(
            grammar,
            input,
            *inner,
            Some(min),
            Some(max),
            pos,
            scope,
            stack,
            depth,
        ),
        ExprModel::Capture(inner) => match eval(
            grammar,
            input,
            *inner,
            pos,
            scope,
            stack,
            depth,
        ) {
            Outcome::Matched(done) => if scope.lookahead {
                Outcome::Matched(done)
            } else {
                Outcome::Matched(
                    Progress { stack: done.stack.push((pos as usize, done.end as usize)), ..done },
                )
            },
            other => other,
        },
        ExprModel::ScanToAny(texts) => leaf(
            scan_to_any(input, pos, encodings(texts)),
            pos,
            stack,
        ),
    }
}

/// A skip of separators at `pos`, and then `expr`. A failure of `expr` undoes the skip.
pub open spec fn skip_then(
    grammar: Grammar,
    input: Seq<u8>,
    expr: ExprModel,
    pos: int,
    scope: Scope,
    stack: Seq<(usize, usize)>,
    depth: nat,
) -> Outcome
    decreases depth, 1 + expr_size(expr), 1nat, 0nat,
{
    match skip(grammar, input, pos, scope, stack, depth) {
        Outcome::Matched(skipped) => then(
            skipped,
            eval(grammar, input, expr, skipped.end, scope, skipped.stack, depth),
        ),
        other => other,
    }
}

/// `count` occurrences of `expr`, each but the first after a skip of separators. All of
/// them must match.
pub open spec fn mandatory(
    grammar: Grammar,
    input: Seq<u8>,
    expr: ExprModel,
    count: nat,
    pos: int,
    scope: Scope,
    stack: Seq<(usize, usize)>,
    depth: nat,
) -> Outcome
    decreases depth, 1 + expr_size(expr), 2nat, count,
{
    if count <= 1 {
        eval(grammar, input, expr, pos, scope, stack, depth)
    } else {
        match mandatory(grammar, input, expr, (count - 1) as nat, pos, scope, stack, depth) {
            Outcome::Matched(before) => then(
                before,
                skip_then(grammar, input, expr, before.end, scope, before.stack, depth),
            ),
            other => other,
        }
    }
}

/// Whether a repetition goes on after a round that began at `pos` and reached `end`. One
/// with a maximum goes on until the maximum; one without goes on as long as a round
/// consumes input.
pub open spec fn goes_on(input: Seq<u8>, bounded: bool, pos: int, end: int) -> bool {
    bounded || pos < end <= input.len()
}

/// One round less, where the rounds are counted.
pub open spec fn one_less(left: Option<nat>) -> Option<nat> {
    match left {
        Some(rounds) => Some((rounds - 1) as nat),
        None => None,
    }
}

/// The occurrences of `expr` that a repetition takes beyond the first ones: at most `left`
/// of them, and any number where `left` is absent. Each comes after a skip of separators.
/// The first one that does not match ends the repetition and leaves nothing behind.
pub open spec fn more(
    grammar: Grammar,
    input: Seq<u8>,
    expr: ExprModel,
    left: Option<nat>,
    pos: int,
    scope: Scope,
    stack: Seq<(usize, usize)>,
    depth: nat,
) -> Outcome
    decreases depth, 1 + expr_size(expr), 3nat, (if left is Some {
        left->0 as int
    } else {
        input.len() - pos
    }),
{
    if left == Some(0nat) {
        Outcome::Matched(standing(pos, stack))
    } else {
        match skip_then(grammar, input, expr, pos, scope, stack, depth) {
            Outcome::Matched(round) => if goes_on(input, left is Some, pos, round.end) {
                then(
                    round,
                    more(
                        grammar,
                        input,
                        expr,
                        one_less(left),
                        round.end,
                        scope,
                        round.stack,
                        depth,
                    ),
                )
            } else {
                Outcome::Matched(round)
            },
            other => or_stay(other, pos, stack),
        }
    }
}

/// The number of occurrences that count as taken once the first part of a repetition is
/// done: the minimum, and 1 where the minimum is absent or 0.
pub open spec fn first_count(min: Option<u32>) -> nat {
    match min {
        Some(count) => if count > 0 {
            count as nat
        } else {
            1
        },
        None => 1,
    }
}

/// The number of occurrences that a repetition may still take once its first part is
/// done: what the maximum leaves above [`first_count`], and no limit without a maximum.
pub open spec fn rounds_left(min: Option<u32>, max: Option<u32>) -> Option<nat> {
    match max {
        Some(limit) => if limit > first_count(min) {
            Some((limit - first_count(min)) as nat)
        } else {
            Some(0)
        },
        None => None,
    }
}

/// A repetition of `expr` with the bounds `min` and `max`, either of which may be absent.
///
/// With a minimum above 0, that many occurrences must match, each but the first after a
/// skip of separators; otherwise one occurrence is attempted and may fail. After that,
/// further occurrences are taken as [`more`] says, up to the maximum. The first part is
/// attempted whatever the maximum is, so a maximum below it does not hold it back.
pub open spec fn repeat(
    grammar: Grammar,
    input: Seq<u8>,
    expr: ExprModel,
    min: Option<u32>,
    max: Option<u32>,
    pos: int,
    scope: Scope,
    stack: Seq<(usize, usize)>,
    depth: nat,
) -> Outcome
    decreases depth, 1 + expr_size(expr), 4nat, 0nat,
{
    let first = if min is Some && min->0 > 0 {
        mandatory(grammar, input, expr, min->0 as nat, pos, scope, stack, depth)
    } else {
        or_stay(eval(grammar, input, expr, pos, scope, stack, depth), pos, stack)
    };
    match first {
        Outcome::Matched(begun) => then(
            begun,
            more(
                grammar,
                input,
                expr,
                rounds_left(min, max),
                begun.end,
                scope,
                begun.stack,
                depth,
            ),
        ),
        other => other,
    }
}

/// As many matches of the rule `name` as there are, one behind the other. It ends with
/// the first attempt that fails, and with one that consumes nothing.
pub open spec fn star(
    grammar: Grammar,
    input: Seq<u8>,
    name: Seq<char>,
    pos: int,
    scope: Scope,
    stack: Seq<(usize, usize)>,
    depth: nat,
) -> Outcome
    decreases depth, 0nat, 1nat, input.len() - pos,
{
    match dispatch(grammar, input, name, pos, scope, stack, depth) {
        Outcome::Matched(round) => if goes_on(input, false, pos, round.end) {
            then(round, star(grammar, input, name, round.end, scope, round.stack, depth))
        } else {
            Outcome::Matched(round)
        },
        other => or_stay(other, pos, stack),
    }
}

/// One comment and the whitespace behind it.
pub open spec fn comment_round(
    grammar: Grammar,
    input: Seq<u8>,
    pos: int,
    scope: Scope,
    stack: Seq<(usize, usize)>,
    depth: nat,
) -> Outcome
    decreases depth, 0nat, 2nat, 0nat,
{
    match dispatch(grammar, input, "comment"@, pos, scope, stack, depth) {
        Outcome::Matched(comment) => then(
            comment,
            star(grammar, input, "whitespace"@, comment.end, scope, comment.stack, depth),
        ),
        other => other,
    }
}

/// As many comments, each with the whitespace behind it, as there are.
pub open spec fn comment_rounds(
    grammar: Grammar,
    input: Seq<u8>,
    pos: int,
    scope: Scope,
    stack: Seq<(usize, usize)>,
    depth: nat,
) -> Outcome
    decreases depth, 0nat, 3nat, input.len() - pos,
{
    match comment_round(grammar, input, pos, scope, stack, depth) {
        Outcome::Matched(round) => if goes_on(input, false, pos, round.end) {
            then(round, comment_rounds(grammar, input, round.end, scope, round.stack, depth))
        } else {
            Outcome::Matched(round)
        },
        other => or_stay(other, pos, stack),
    }
}

/// The skip of separators at `pos`.
///
/// Nothing is skipped unless the atomicity in force is `NonAtomic` and the grammar has a
/// rule `whitespace` or a rule `comment`. With one of the two, its matches are taken as
/// long as there are any. With both, whitespace is taken first, and then comments, each
/// with the whitespace behind it.
pub open spec fn skip(
    grammar: Grammar,
    input: Seq<u8>,
    pos: int,
    scope: Scope,
    stack: Seq<(usize, usize)>,
    depth: nat,
) -> Outcome
    decreases depth, 0nat, 4nat, 0nat,
{
    let spaces = grammar.contains_key("whitespace"@);
    let comments = grammar.contains_key("comment"@);
    if scope.atomicity != Atomicity::NonAtomic || (!spaces && !comments) {
        Outcome::Matched(standing(pos, stack))
    } else if !comments {
        star(grammar, input, "whitespace"@, pos, scope, stack, depth)
    } else if !spaces {
        star(grammar, input, "comment"@, pos, scope, stack, depth)
    } else {
        match star(grammar, input, "whitespace"@, pos, scope, stack, depth) {
            Outcome::Matched(leading) => then(
                leading,
                comment_rounds(grammar, input, leading.end, scope, leading.stack, depth),
            ),
            other => other,
        }
    }
}

/// The result of a parse: the tokens, or the error.
pub enum Parsed {
    /// The start rule matched; the tokens in the order of the input.
    Tokens(Seq<TokenModel>),
    /// The start rule did not match; the furthest offset at which something failed.
    FailureAt(nat),
    /// The grammar is at fault.
    Fatal(FatalError),
}

/// Parsing `input` with the rule `start`: the rule is entered at offset 0, with no
/// atomicity, outside any lookahead, and with an empty capture stack.
pub open spec fn parse(grammar: Grammar, input: Seq<u8>, start: Seq<char>, depth: nat) -> Parsed {
    match dispatch(
        grammar,
        input,
        start,
        0,
        Scope { atomicity: Atomicity::NonAtomic, lookahead: false },
        Seq::empty(),
        depth,
    ) {
        Outcome::Matched(done) => Parsed::Tokens(done.tokens),
        Outcome::Failed { furthest } => Parsed::FailureAt(furthest),
        Outcome::Fatal(error) => Parsed::Fatal(error),
    }
}

/// Going on after two steps is going on after the two joined.
pub proof fn lemma_then_join(first: Progress, second: Progress, next: Outcome)
    ensures
        then(first, then(second, next)) == then(join(first, second), next),
{
    match next {
        Outcome::Matched(third) => {
            assert(first.tokens + (second.tokens + third.tokens) =~= (first.tokens
                + second.tokens) + third.tokens);
        },
        _ => {},
    }
}

/// Standing still after a step changes nothing but the furthest failure.
pub proof fn lemma_then_standing(first: Progress, furthest: nat)
    ensures
        then(
            first,
            Outcome::Matched(Progress { furthest, ..standing(first.end, first.stack) }),
        ) == Outcome::Matched(
            Progress { furthest: furthest_of(first.furthest, furthest), ..first },
        ),
{
    assert(first.tokens + Seq::<TokenModel>::empty() =~= first.tokens);
}

/// Going on from a standstill is going on.
pub proof fn lemma_standing_then(pos: int, stack: Seq<(usize, usize)>, next: Outcome)
    ensures
        then(standing(pos, stack), next) == next,
{
    match next {
        Outcome::Matched(made) => {
            assert(Seq::<TokenModel>::empty() + made.tokens =~= made.tokens);
        },
        _ => {},
    }
}

/// Once an occurrence has not matched, more of them change nothing.
pub proof fn lemma_mandatory_settled(
    grammar: Grammar,
    input: Seq<u8>,
    expr: ExprModel,
    settled: nat,
    count: nat,
    pos: int,
    scope: Scope,
    stack: Seq<(usize, usize)>,
    depth: nat,
)
    requires
        1 <= settled <= count,
        !(mandatory(grammar, input, expr, settled, pos, scope, stack, depth) is Matched),
    ensures
        mandatory(grammar, input, expr, count, pos, scope, stack, depth) == mandatory(
            grammar,
            input,
            expr,
            settled,
            pos,
            scope,
            stack,
            depth,
        ),
    decreases count - settled,
{
    if count > settled {
        lemma_mandatory_settled(
            grammar,
            input,
            expr,
            settled,
            (count - 1) as nat,
            pos,
            scope,
            stack,
            depth,
        );
    }
}

} // verus!
