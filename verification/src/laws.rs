//! What holds of every outcome: positions only move forward and stay inside the input,
//! the capture stack holds spans of the input, the tokens are nested and come in the order
//! of the input, a lookahead emits nothing and pushes nothing, and in an input that is
//! UTF-8 every position reached is the boundary of a character.

use vstd::prelude::*;
use vstd::utf8::{encode_utf8, is_char_boundary, valid_utf8};
use crate::chars::{
    lemma_between_boundaries, lemma_match_insensitive_on_chars, lemma_match_string_on_chars,
    lemma_scalar_on_chars, lemma_scan_on_chars,
};
use crate::context::spans_within;
use crate::cursor::{encodings, occurs_any_at, scan_to_any};
use crate::grammar::{expr_size, Atomicity, ExprModel, Grammar, TokenModel};
use crate::literal::decode_literal;
use crate::semantics::{
    comment_round, comment_rounds, dispatch, entered, eval, goes_on, join, mandatory, more,
    one_less, or_stay, repeat, rounds_left, skip, skip_then, standing, star, then, Outcome,
    Progress, Scope,
};

verus! {

broadcast use vstd::utf8::encode_utf8_valid_utf8;

/// The input is UTF-8, and the position and both ends of every span on the capture stack
/// are boundaries of characters.
pub open spec fn on_chars(input: Seq<u8>, pos: int, stack: Seq<(usize, usize)>) -> bool {
    &&& valid_utf8(input)
    &&& is_char_boundary(input, pos)
    &&& forall|i: int|
        0 <= i < stack.len() ==> is_char_boundary(input, (#[trigger] stack[i]).0 as int)
            && is_char_boundary(input, stack[i].1 as int)
}

/// Both ends of every token are boundaries of characters.
pub open spec fn tokens_on_chars(input: Seq<u8>, tokens: Seq<TokenModel>) -> bool {
    forall|i: int|
        0 <= i < tokens.len() ==> is_char_boundary(input, (#[trigger] tokens[i]).start)
            && is_char_boundary(input, tokens[i].end)
}

/// Every token lies between `low` and `high` and does not end before it starts.
pub open spec fn tokens_within(tokens: Seq<TokenModel>, low: int, high: int) -> bool {
    forall|i: int|
        0 <= i < tokens.len() ==> low <= (#[trigger] tokens[i]).start <= tokens[i].end <= high
}

/// The tokens come in the order of the input, and of any two, the later one lies inside
/// the earlier one or behind it.
pub open spec fn tokens_nested(tokens: Seq<TokenModel>) -> bool {
    forall|i: int, j: int|
        0 <= i < j < tokens.len() ==> (#[trigger] tokens[i]).start <= (#[trigger] tokens[j]).start
            && (tokens[j].end <= tokens[i].end || tokens[i].end <= tokens[j].start)
}

/// What holds of the outcome of every attempt made at `pos` with the capture stack
/// `stack`.
///
/// A match ends at or behind `pos` and inside the input; the spans that it leaves on the
/// capture stack lie inside the input; its tokens lie between `pos` and its end, are
/// nested and come in the order of the input. A failure is recorded at or behind `pos`
/// and inside the input. Inside a lookahead a match emits no token, and what it leaves on
/// the capture stack is the stack of before or the lower part of it. Where the attempt
/// starts on characters, as [`on_chars`] says, a match ends on characters, and so do its
/// tokens.
pub open spec fn orderly(
    input: Seq<u8>,
    pos: int,
    scope: Scope,
    stack: Seq<(usize, usize)>,
    outcome: Outcome,
) -> bool {
    match outcome {
        Outcome::Matched(made) => {
            &&& pos <= made.end <= input.len()
            &&& spans_within(made.stack, input.len())
            &&& tokens_within(made.tokens, pos, made.end)
            &&& tokens_nested(made.tokens)
            &&& made.furthest <= input.len()
            &&& scope.lookahead ==> made.tokens.len() == 0 && made.stack.is_prefix_of(stack)
            &&& on_chars(input, pos, stack) ==> on_chars(input, made.end, made.stack)
                && tokens_on_chars(input, made.tokens)
        },
        Outcome::Failed { furthest } => pos <= furthest <= input.len(),
        Outcome::Fatal(_) => true,
    }
}

/// Where to attempt: inside the input, with a capture stack of spans of the input.
pub open spec fn placed(input: Seq<u8>, pos: int, stack: Seq<(usize, usize)>) -> bool {
    &&& 0 <= pos <= input.len()
    &&& input.len() <= usize::MAX
    &&& spans_within(stack, input.len())
}

/// One orderly step after another is orderly.
pub proof fn lemma_orderly_then(
    input: Seq<u8>,
    pos: int,
    scope: Scope,
    stack: Seq<(usize, usize)>,
    first: Progress,
    next: Outcome,
)
    requires
        orderly(input, pos, scope, stack, Outcome::Matched(first)),
        orderly(input, first.end, scope, first.stack, next),
    ensures
        orderly(input, pos, scope, stack, then(first, next)),
{
    match next {
        Outcome::Matched(second) => {
            let both = join(first, second);
            assert forall|i: int| 0 <= i < both.tokens.len() implies pos <= (
            #[trigger] both.tokens[i]).start <= both.tokens[i].end <= both.end by {
                if i < first.tokens.len() {
                    assert(both.tokens[i] == first.tokens[i]);
                } else {
                    assert(both.tokens[i] == second.tokens[i - first.tokens.len()]);
                }
            }
            if on_chars(input, pos, stack) {
                assert forall|i: int| 0 <= i < both.tokens.len() implies is_char_boundary(
                    input,
                    (#[trigger] both.tokens[i]).start,
                ) && is_char_boundary(input, both.tokens[i].end) by {
                    if i < first.tokens.len() {
                        assert(both.tokens[i] == first.tokens[i]);
                    } else {
                        assert(both.tokens[i] == second.tokens[i - first.tokens.len()]);
                    }
                }
            }
            assert forall|i: int, j: int| 0 <= i < j < both.tokens.len() implies (
            #[trigger] both.tokens[i]).start <= (#[trigger] both.tokens[j]).start && (
            both.tokens[j].end <= both.tokens[i].end || both.tokens[i].end
                <= both.tokens[j].start) by {
                if j < first.tokens.len() {
                    assert(both.tokens[i] == first.tokens[i]);
                    assert(both.tokens[j] == first.tokens[j]);
                } else if i < first.tokens.len() {
                    assert(both.tokens[i] == first.tokens[i]);
                    assert(both.tokens[j] == second.tokens[j - first.tokens.len()]);
                } else {
                    assert(both.tokens[i] == second.tokens[i - first.tokens.len()]);
                    assert(both.tokens[j] == second.tokens[j - first.tokens.len()]);
                }
            }
        },
        _ => {},
    }
}

/// An orderly attempt that may fail is orderly.
pub proof fn lemma_orderly_or_stay(
    input: Seq<u8>,
    pos: int,
    scope: Scope,
    stack: Seq<(usize, usize)>,
    attempt: Outcome,
)
    requires
        placed(input, pos, stack),
        orderly(input, pos, scope, stack, attempt),
    ensures
        orderly(input, pos, scope, stack, or_stay(attempt, pos, stack)),
{
}

/// A rule's own token around the orderly outcome of its body is orderly.
pub proof fn lemma_orderly_entered(
    input: Seq<u8>,
    name: Seq<char>,
    emit: bool,
    pos: int,
    scope: Scope,
    stack: Seq<(usize, usize)>,
    body: Outcome,
)
    requires
        orderly(input, pos, scope, stack, body),
        emit ==> !scope.lookahead,
    ensures
        orderly(input, pos, scope, stack, entered(name, emit, pos, body)),
{
    match body {
        Outcome::Matched(inner) => {
            if emit {
                let own = TokenModel { rule: name, start: pos, end: inner.end };
                let tokens = seq![own] + inner.tokens;
                assert forall|i: int| 0 <= i < tokens.len() implies pos <= (
                #[trigger] tokens[i]).start <= tokens[i].end <= inner.end by {
                    if i > 0 {
                        assert(tokens[i] == inner.tokens[i - 1]);
                    }
                }
                if on_chars(input, pos, stack) {
                    assert forall|i: int| 0 <= i < tokens.len() implies is_char_boundary(
                        input,
                        (#[trigger] tokens[i]).start,
                    ) && is_char_boundary(input, tokens[i].end) by {
                        if i > 0 {
                            assert(tokens[i] == inner.tokens[i - 1]);
                        }
                    }
                }
                assert forall|i: int, j: int| 0 <= i < j < tokens.len() implies (
                #[trigger] tokens[i]).start <= (#[trigger] tokens[j]).start && (tokens[j].end
                    <= tokens[i].end || tokens[i].end <= tokens[j].start) by {
                    assert(tokens[j] == inner.tokens[j - 1]);
                    if i > 0 {
                        assert(tokens[i] == inner.tokens[i - 1]);
                    }
                }
            }
        },
        _ => {},
    }
}

/// Entering a rule is orderly.
pub proof fn lemma_dispatch_orderly(
    grammar: Grammar,
    input: Seq<u8>,
    name: Seq<char>,
    pos: int,
    scope: Scope,
    stack: Seq<(usize, usize)>,
    depth: nat,
)
    requires
        placed(input, pos, stack),
    ensures
        orderly(input, pos, scope, stack, dispatch(grammar, input, name, pos, scope, stack, depth)),
    decreases depth, 0nat, 0nat, 0nat,
{
    if on_chars(input, pos, stack) {
        lemma_scalar_on_chars(input, pos);
        if stack.len() > 0 {
            let top = stack.last();
            lemma_between_boundaries(input, top.0 as int, top.1 as int);
            lemma_match_string_on_chars(input, pos, crate::semantics::span_text(input, top));
        }
    }
    if name == "any"@ {
    } else if name == "eoi"@ {
        lemma_orderly_entered(
            input,
            name,
            crate::semantics::emits(scope),
            pos,
            scope,
            stack,
            crate::semantics::leaf(
                if pos == input.len() {
                    Some(pos)
                } else {
                    None
                },
                pos,
                stack,
            ),
        );
    } else if name == "soi"@ {
    } else if name == "peek"@ {
    } else if name == "pop"@ {
        if stack.len() > 0 {
            assert(stack.drop_last().is_prefix_of(stack));
        }
    } else if !grammar.contains_key(name) {
    } else if depth == 0 {
    } else {
        let rule = grammar[name];
        let wrap = crate::semantics::wrapping(
            rule.kind,
            crate::semantics::is_separator(name),
            scope.atomicity,
        );
        let inner = Scope { atomicity: wrap.body, lookahead: scope.lookahead };
        lemma_eval_orderly(grammar, input, rule.body, pos, inner, stack, (depth - 1) as nat);
        lemma_orderly_entered(
            input,
            name,
            wrap.token && crate::semantics::emits(
                Scope { atomicity: wrap.entry, lookahead: scope.lookahead },
            ),
            pos,
            scope,
            stack,
            eval(grammar, input, rule.body, pos, inner, stack, (depth - 1) as nat),
        );
    }
}

/// Evaluating an expression is orderly.
pub proof fn lemma_eval_orderly(
    grammar: Grammar,
    input: Seq<u8>,
    expr: ExprModel,
    pos: int,
    scope: Scope,
    stack: Seq<(usize, usize)>,
    depth: nat,
)
    requires
        placed(input, pos, stack),
    ensures
        orderly(input, pos, scope, stack, eval(grammar, input, expr, pos, scope, stack, depth)),
    decreases depth, 1 + expr_size(expr), 0nat, 0nat,
{
    match expr {
        ExprModel::Literal(raw) => {
            if on_chars(input, pos, stack) && decode_literal(raw) is Some {
                lemma_match_string_on_chars(input, pos, encode_utf8(decode_literal(raw)->0));
            }
        },
        ExprModel::LiteralInsensitive(raw) => {
            if on_chars(input, pos, stack) && decode_literal(raw) is Some {
                lemma_match_insensitive_on_chars(input, pos, encode_utf8(decode_literal(raw)->0));
            }
        },
        ExprModel::CharRange(_, _) => {
            if on_chars(input, pos, stack) {
                lemma_scalar_on_chars(input, pos);
            }
        },
        ExprModel::RuleRef(name) => {
            lemma_dispatch_orderly(grammar, input, name, pos, scope, stack, depth);
        },
        ExprModel::PositiveLookahead(inner) => {
            lemma_eval_orderly(
                grammar,
                input,
                *inner,
                pos,
                Scope { lookahead: true, ..scope },
                stack,
                depth,
            );
        },
        ExprModel::NegativeLookahead(inner) => {
            lemma_eval_orderly(
                grammar,
                input,
                *inner,
                pos,
                Scope { lookahead: true, ..scope },
                stack,
                depth,
            );
        },
        ExprModel::Sequence(lhs, rhs) => {
            lemma_eval_orderly(grammar, input, *lhs, pos, scope, stack, depth);
            match eval(grammar, input, *lhs, pos, scope, stack, depth) {
                Outcome::Matched(first) => {
                    lemma_skip_then_orderly(
                        grammar,
                        input,
                        *rhs,
                        first.end,
                        scope,
                        first.stack,
                        depth,
                    );
                    lemma_orderly_then(
                        input,
                        pos,
                        scope,
                        stack,
                        first,
                        skip_then(grammar, input, *rhs, first.end, scope, first.stack, depth),
                    );
                },
                _ => {},
            }
        },
        ExprModel::OrderedChoice(lhs, rhs) => {
            lemma_eval_orderly(grammar, input, *lhs, pos, scope, stack, depth);
            match eval(grammar, input, *lhs, pos, scope, stack, depth) {
                Outcome::Failed { furthest } => {
                    lemma_eval_orderly(grammar, input, *rhs, pos, scope, stack, depth);
                    lemma_orderly_then(
                        input,
                        pos,
                        scope,
                        stack,
                        Progress { furthest, ..standing(pos, stack) },
                        eval(grammar, input, *rhs, pos, scope, stack, depth),
                    );
                },
                _ => {},
            }
        },
        ExprModel::Optional(inner) => {
            lemma_eval_orderly(grammar, input, *inner, pos, scope, stack, depth);
        },
        ExprModel::Repeat(inner) => {
            lemma_repeat_orderly(grammar, input, *inner, None, None, pos, scope, stack, depth);
        },
        ExprModel::RepeatOnce(inner) => {
            lemma_repeat_orderly(grammar, input, *inner, Some(1), None, pos, scope, stack, depth);
        },
        ExprModel::RepeatExact(inner, count) => {
            lemma_repeat_orderly(
                grammar,
                input,
                *inner,
                Some(count),
                Some(count),
                pos,
                scope,
                stack,
                depth,
            );
        },
        ExprModel::RepeatMin(inner, min) => {
            lemma_repeat_orderly(grammar, input, *inner, Some(min), None, pos, scope, stack, depth);
        },
        ExprModel::RepeatMax(inner, max) => {
            lemma_repeat_orderly(grammar, input, *inner, None, Some(max), pos, scope, stack, depth);
        },
        ExprModel::RepeatMinMax(inner, min, max) => {
            lemma_repeat_orderly(
                grammar,
                input,
                *inner,
                Some(min),
                Some(max),
                pos,
                scope,
                stack,
                depth,
            );
        },
        ExprModel::Capture(inner) => {
            lemma_eval_orderly(grammar, input, *inner, pos, scope, stack, depth);
        },
        ExprModel::ScanToAny(texts) => {
            lemma_scan_forward(input, pos, encodings(texts));
            if on_chars(input, pos, stack) {
                lemma_scan_on_chars(input, pos, texts);
            }
        },
    }
}

/// A scan finds nothing before the position it starts at, and nothing outside the input.
pub proof fn lemma_scan_forward(input: Seq<u8>, pos: int, texts: Seq<Seq<u8>>)
    ensures
        scan_to_any(input, pos, texts) matches Some(at) ==> pos <= at <= input.len(),
    decreases input.len() - pos,
{
    if 0 <= pos < input.len() && !occurs_any_at(input, pos, texts) {
        lemma_scan_forward(input, pos + 1, texts);
    }
}

/// A skip and then an expression is orderly.
pub proof fn lemma_skip_then_orderly(
    grammar: Grammar,
    input: Seq<u8>,
    expr: ExprModel,
    pos: int,
    scope: Scope,
    stack: Seq<(usize, usize)>,
    depth: nat,
)
    requires
        placed(input, pos, stack),
    ensures
        orderly(
            input,
            pos,
            scope,
            stack,
            skip_then(grammar, input, expr, pos, scope, stack, depth),
        ),
    decreases depth, 1 + expr_size(expr), 1nat, 0nat,
{
    lemma_skip_orderly(grammar, input, pos, scope, stack, depth);
    match skip(grammar, input, pos, scope, stack, depth) {
        Outcome::Matched(skipped) => {
            lemma_eval_orderly(grammar, input, expr, skipped.end, scope, skipped.stack, depth);
            lemma_orderly_then(
                input,
                pos,
                scope,
                stack,
                skipped,
                eval(grammar, input, expr, skipped.end, scope, skipped.stack, depth),
            );
        },
        _ => {},
    }
}

/// The occurrences that must match are orderly.
pub proof fn lemma_mandatory_orderly(
    grammar: Grammar,
    input: Seq<u8>,
    expr: ExprModel,
    count: nat,
    pos: int,
    scope: Scope,
    stack: Seq<(usize, usize)>,
    depth: nat,
)
    requires
        placed(input, pos, stack),
    ensures
        orderly(
            input,
            pos,
            scope,
            stack,
            mandatory(grammar, input, expr, count, pos, scope, stack, depth),
        ),
    decreases depth, 1 + expr_size(expr), 2nat, count,
{
    if count <= 1 {
        lemma_eval_orderly(grammar, input, expr, pos, scope, stack, depth);
    } else {
        lemma_mandatory_orderly(
            grammar,
            input,
            expr,
            (count - 1) as nat,
            pos,
            scope,
            stack,
            depth,
        );
        match mandatory(grammar, input, expr, (count - 1) as nat, pos, scope, stack, depth) {
            Outcome::Matched(before) => {
                lemma_skip_then_orderly(
                    grammar,
                    input,
                    expr,
                    before.end,
                    scope,
                    before.stack,
                    depth,
                );
                lemma_orderly_then(
                    input,
                    pos,
                    scope,
                    stack,
                    before,
                    skip_then(grammar, input, expr, before.end, scope, before.stack, depth),
                );
            },
            _ => {},
        }
    }
}

/// The further occurrences of a repetition are orderly, and never a failure.
pub proof fn lemma_more_orderly(
    grammar: Grammar,
    input: Seq<u8>,
    expr: ExprModel,
    left: Option<nat>,
    pos: int,
    scope: Scope,
    stack: Seq<(usize, usize)>,
    depth: nat,
)
    requires
        placed(input, pos, stack),
    ensures
        orderly(
            input,
            pos,
            scope,
            stack,
            more(grammar, input, expr, left, pos, scope, stack, depth),
        ),
        !(more(grammar, input, expr, left, pos, scope, stack, depth) is Failed),
    decreases depth, 1 + expr_size(expr), 3nat, (if left is Some {
        left->0 as int
    } else {
        input.len() - pos
    }),
{
    if left != Some(0nat) {
        lemma_skip_then_orderly(grammar, input, expr, pos, scope, stack, depth);
        match skip_then(grammar, input, expr, pos, scope, stack, depth) {
            Outcome::Matched(round) => {
                if goes_on(input, left is Some, pos, round.end) {
                    lemma_more_orderly(
                        grammar,
                        input,
                        expr,
                        one_less(left),
                        round.end,
                        scope,
                        round.stack,
                        depth,
                    );
                    lemma_orderly_then(
                        input,
                        pos,
                        scope,
                        stack,
                        round,
                        more(
                            grammar,
                            input,
                            expr,
                            one_less(left),
                            round.end,
                            scope,
                            round.stack,
                            depth,
                        ),
                    );
                }
            },
            _ => {},
        }
    }
}

/// A repetition is orderly.
pub proof fn lemma_repeat_orderly(
    grammar: Grammar,
    input: Seq<u8>,
    expr: ExprModel,
    min: Option<u32>,
    max: Option<u32>,
    pos: int,
    scope: Scope,
    stack: Seq<(usize, usize)>,
    depth: nat,
)
    requires
        placed(input, pos, stack),
    ensures
        orderly(
            input,
            pos,
            scope,
            stack,
            repeat(grammar, input, expr, min, max, pos, scope, stack, depth),
        ),
    decreases depth, 1 + expr_size(expr), 4nat, 0nat,
{
    let first = if min is Some && min->0 > 0 {
        lemma_mandatory_orderly(grammar, input, expr, min->0 as nat, pos, scope, stack, depth);
        mandatory(grammar, input, expr, min->0 as nat, pos, scope, stack, depth)
    } else {
        lemma_eval_orderly(grammar, input, expr, pos, scope, stack, depth);
        or_stay(eval(grammar, input, expr, pos, scope, stack, depth), pos, stack)
    };
    match first {
        Outcome::Matched(begun) => {
            lemma_more_orderly(
                grammar,
                input,
                expr,
                rounds_left(min, max),
                begun.end,
                scope,
                begun.stack,
                depth,
            );
            lemma_orderly_then(
                input,
                pos,
                scope,
                stack,
                begun,
                more(
                    grammar,
                    input,
                    expr,
                    rounds_left(min, max),
                    begun.end,
                    scope,
                    begun.stack,
                    depth,
                ),
            );
        },
        _ => {},
    }
}

/// The matches of a rule, one behind the other, are orderly, and never a failure.
pub proof fn lemma_star_orderly(
    grammar: Grammar,
    input: Seq<u8>,
    name: Seq<char>,
    pos: int,
    scope: Scope,
    stack: Seq<(usize, usize)>,
    depth: nat,
)
    requires
        placed(input, pos, stack),
    ensures
        orderly(input, pos, scope, stack, star(grammar, input, name, pos, scope, stack, depth)),
        !(star(grammar, input, name, pos, scope, stack, depth) is Failed),
    decreases depth, 0nat, 1nat, input.len() - pos,
{
    lemma_dispatch_orderly(grammar, input, name, pos, scope, stack, depth);
    match dispatch(grammar, input, name, pos, scope, stack, depth) {
        Outcome::Matched(round) => {
            if goes_on(input, false, pos, round.end) {
                lemma_star_orderly(grammar, input, name, round.end, scope, round.stack, depth);
                lemma_orderly_then(
                    input,
                    pos,
                    scope,
                    stack,
                    round,
                    star(grammar, input, name, round.end, scope, round.stack, depth),
                );
            }
        },
        _ => {},
    }
}

/// A comment and the whitespace behind it are orderly.
pub proof fn lemma_comment_round_orderly(
    grammar: Grammar,
    input: Seq<u8>,
    pos: int,
    scope: Scope,
    stack: Seq<(usize, usize)>,
    depth: nat,
)
    requires
        placed(input, pos, stack),
    ensures
        orderly(input, pos, scope, stack, comment_round(grammar, input, pos, scope, stack, depth)),
    decreases depth, 0nat, 2nat, 0nat,
{
    lemma_dispatch_orderly(grammar, input, "comment"@, pos, scope, stack, depth);
    match dispatch(grammar, input, "comment"@, pos, scope, stack, depth) {
        Outcome::Matched(comment) => {
            lemma_star_orderly(
                grammar,
                input,
                "whitespace"@,
                comment.end,
                scope,
                comment.stack,
                depth,
            );
            lemma_orderly_then(
                input,
                pos,
                scope,
                stack,
                comment,
                star(grammar, input, "whitespace"@, comment.end, scope, comment.stack, depth),
            );
        },
        _ => {},
    }
}

/// The comments, each with the whitespace behind it, are orderly, and never a failure.
pub proof fn lemma_comment_rounds_orderly(
    grammar: Grammar,
    input: Seq<u8>,
    pos: int,
    scope: Scope,
    stack: Seq<(usize, usize)>,
    depth: nat,
)
    requires
        placed(input, pos, stack),
    ensures
        orderly(
            input,
            pos,
            scope,
            stack,
            comment_rounds(grammar, input, pos, scope, stack, depth),
        ),
        !(comment_rounds(grammar, input, pos, scope, stack, depth) is Failed),
    decreases depth, 0nat, 3nat, input.len() - pos,
{
    lemma_comment_round_orderly(grammar, input, pos, scope, stack, depth);
    match comment_round(grammar, input, pos, scope, stack, depth) {
        Outcome::Matched(round) => {
            if goes_on(input, false, pos, round.end) {
                lemma_comment_rounds_orderly(
                    grammar,
                    input,
                    round.end,
                    scope,
                    round.stack,
                    depth,
                );
                lemma_orderly_then(
                    input,
                    pos,
                    scope,
                    stack,
                    round,
                    comment_rounds(grammar, input, round.end, scope, round.stack, depth),
                );
            }
        },
        _ => {},
    }
}

/// A skip of separators is orderly and never fails: it ends at the position it began at
/// or behind it. Where the atomicity in force is not `NonAtomic`, it does nothing at all.
pub proof fn lemma_skip_orderly(
    grammar: Grammar,
    input: Seq<u8>,
    pos: int,
    scope: Scope,
    stack: Seq<(usize, usize)>,
    depth: nat,
)
    requires
        placed(input, pos, stack),
    ensures
        orderly(input, pos, scope, stack, skip(grammar, input, pos, scope, stack, depth)),
        !(skip(grammar, input, pos, scope, stack, depth) is Failed),
        scope.atomicity != Atomicity::NonAtomic ==> skip(
            grammar,
            input,
            pos,
            scope,
            stack,
            depth,
        ) == Outcome::Matched(standing(pos, stack)),
    decreases depth, 0nat, 4nat, 0nat,
{
    let spaces = grammar.contains_key("whitespace"@);
    let comments = grammar.contains_key("comment"@);
    if scope.atomicity != Atomicity::NonAtomic || (!spaces && !comments) {
    } else if !comments {
        lemma_star_orderly(grammar, input, "whitespace"@, pos, scope, stack, depth);
    } else if !spaces {
        lemma_star_orderly(grammar, input, "comment"@, pos, scope, stack, depth);
    } else {
        lemma_star_orderly(grammar, input, "whitespace"@, pos, scope, stack, depth);
        match star(grammar, input, "whitespace"@, pos, scope, stack, depth) {
            Outcome::Matched(leading) => {
                lemma_comment_rounds_orderly(
                    grammar,
                    input,
                    leading.end,
                    scope,
                    leading.stack,
                    depth,
                );
                lemma_orderly_then(
                    input,
                    pos,
                    scope,
                    stack,
                    leading,
                    comment_rounds(grammar, input, leading.end, scope, leading.stack, depth),
                );
            },
            _ => {},
        }
    }
}

/// Whether `name` is one of the five names that are taken before the grammar is asked.
pub open spec fn is_reserved(name: Seq<char>) -> bool {
    name == "any"@ || name == "eoi"@ || name == "soi"@ || name == "peek"@ || name == "pop"@
}

/// A reserved name means the same in every grammar, whatever rules the grammar has, and
/// at every depth.
pub proof fn lemma_reserved_names(
    grammar: Grammar,
    other: Grammar,
    input: Seq<u8>,
    name: Seq<char>,
    pos: int,
    scope: Scope,
    stack: Seq<(usize, usize)>,
    depth: nat,
    other_depth: nat,
)
    requires
        is_reserved(name),
    ensures
        dispatch(grammar, input, name, pos, scope, stack, depth) == dispatch(
            other,
            input,
            name,
            pos,
            scope,
            stack,
            other_depth,
        ),
{
}

/// An option never fails, and a lookahead that matches consumes nothing, emits nothing
/// and leaves the capture stack as it was.
pub proof fn lemma_option_and_lookahead(
    grammar: Grammar,
    input: Seq<u8>,
    inner: ExprModel,
    pos: int,
    scope: Scope,
    stack: Seq<(usize, usize)>,
    depth: nat,
)
    ensures
        !(eval(grammar, input, ExprModel::Optional(Box::new(inner)), pos, scope, stack, depth)
            is Failed),
        eval(
            grammar,
            input,
            ExprModel::PositiveLookahead(Box::new(inner)),
            pos,
            scope,
            stack,
            depth,
        ) matches Outcome::Matched(made) ==> made.end == pos && made.stack == stack
            && made.tokens.len() == 0,
        eval(
            grammar,
            input,
            ExprModel::NegativeLookahead(Box::new(inner)),
            pos,
            scope,
            stack,
            depth,
        ) matches Outcome::Matched(made) ==> made.end == pos && made.stack == stack
            && made.tokens.len() == 0,
{
}

/// The tokens of a parse lie inside the input, are nested, come in the order of the
/// input, and begin and end at boundaries of characters; a failure lies inside the input.
pub proof fn lemma_parse_orderly(grammar: Grammar, text: Seq<char>, start: Seq<char>, depth: nat)
    requires
        encode_utf8(text).len() <= usize::MAX,
    ensures
        match crate::semantics::parse(grammar, encode_utf8(text), start, depth) {
            crate::semantics::Parsed::Tokens(tokens) => {
                &&& tokens_within(tokens, 0, encode_utf8(text).len() as int)
                &&& tokens_nested(tokens)
                &&& tokens_on_chars(encode_utf8(text), tokens)
            },
            crate::semantics::Parsed::FailureAt(furthest) => furthest <= encode_utf8(text).len(),
            crate::semantics::Parsed::Fatal(_) => true,
        },
{
    let input = encode_utf8(text);
    let scope = Scope { atomicity: Atomicity::NonAtomic, lookahead: false };
    lemma_dispatch_orderly(grammar, input, start, 0, scope, Seq::empty(), depth);
    match dispatch(grammar, input, start, 0, scope, Seq::empty(), depth) {
        Outcome::Matched(done) => {
            assert forall|i: int| 0 <= i < done.tokens.len() implies 0 <= (
            #[trigger] done.tokens[i]).start <= done.tokens[i].end <= input.len() by {}
        },
        _ => {},
    }
}

} // verus!
