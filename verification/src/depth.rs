//! The depth limit: it decides only whether a parse runs out of depth. An outcome that is
//! not `DepthExceeded` is the outcome at every greater depth.

use vstd::prelude::*;
use crate::grammar::{expr_size, Atomicity, ExprModel, Grammar};
use crate::semantics::{
    comment_round, comment_rounds, dispatch, eval, goes_on, is_separator, mandatory, more,
    one_less, parse, repeat, rounds_left, skip, skip_then, star, wrapping, FatalError, Outcome,
    Parsed, Scope,
};

verus! {

/// The outcome is not that the depth ran out.
pub open spec fn settled(outcome: Outcome) -> bool {
    outcome != Outcome::Fatal(FatalError::DepthExceeded)
}

/// Entering a rule: a settled outcome stays as it is at a greater depth.
pub proof fn lemma_dispatch_deeper(
    grammar: Grammar,
    input: Seq<u8>,
    name: Seq<char>,
    pos: int,
    scope: Scope,
    stack: Seq<(usize, usize)>,
    depth: nat,
    deeper: nat,
)
    requires
        depth <= deeper,
        settled(dispatch(grammar, input, name, pos, scope, stack, depth)),
    ensures
        dispatch(grammar, input, name, pos, scope, stack, deeper) == dispatch(
            grammar,
            input,
            name,
            pos,
            scope,
            stack,
            depth,
        ),
    decreases depth, 0nat, 0nat, 0nat,
{
    if name == "any"@ || name == "eoi"@ || name == "soi"@ || name == "peek"@ || name == "pop"@
        || !grammar.contains_key(name) || depth == 0 {
    } else {
        let rule = grammar[name];
        let wrap = wrapping(rule.kind, is_separator(name), scope.atomicity);
        lemma_eval_deeper(
            grammar,
            input,
            rule.body,
            pos,
            Scope { atomicity: wrap.body, lookahead: scope.lookahead },
            stack,
            (depth - 1) as nat,
            (deeper - 1) as nat,
        );
    }
}

/// Evaluating an expression: a settled outcome stays as it is at a greater depth.
pub proof fn lemma_eval_deeper(
    grammar: Grammar,
    input: Seq<u8>,
    expr: ExprModel,
    pos: int,
    scope: Scope,
    stack: Seq<(usize, usize)>,
    depth: nat,
    deeper: nat,
)
    requires
        depth <= deeper,
        settled(eval(grammar, input, expr, pos, scope, stack, depth)),
    ensures
        eval(grammar, input, expr, pos, scope, stack, deeper) == eval(
            grammar,
            input,
            expr,
            pos,
            scope,
            stack,
            depth,
        ),
    decreases depth, 1 + expr_size(expr), 0nat, 0nat,
{
    match expr {
        ExprModel::Literal(_) => {},
        ExprModel::LiteralInsensitive(_) => {},
        ExprModel::CharRange(_, _) => {},
        ExprModel::ScanToAny(_) => {},
        ExprModel::RuleRef(name) => {
            lemma_dispatch_deeper(grammar, input, name, pos, scope, stack, depth, deeper);
        },
        ExprModel::PositiveLookahead(inner) => {
            lemma_eval_deeper(
                grammar,
                input,
                *inner,
                pos,
                Scope { lookahead: true, ..scope },
                stack,
                depth,
                deeper,
            );
        },
        ExprModel::NegativeLookahead(inner) => {
            lemma_eval_deeper(
                grammar,
                input,
                *inner,
                pos,
                Scope { lookahead: true, ..scope },
                stack,
                depth,
                deeper,
            );
        },
        ExprModel::Sequence(lhs, rhs) => {
            lemma_eval_deeper(grammar, input, *lhs, pos, scope, stack, depth, deeper);
            match eval(grammar, input, *lhs, pos, scope, stack, depth) {
                Outcome::Matched(first) => {
                    lemma_skip_then_deeper(
                        grammar,
                        input,
                        *rhs,
                        first.end,
                        scope,
                        first.stack,
                        depth,
                        deeper,
                    );
                },
                _ => {},
            }
        },
        ExprModel::OrderedChoice(lhs, rhs) => {
            lemma_eval_deeper(grammar, input, *lhs, pos, scope, stack, depth, deeper);
            match eval(grammar, input, *lhs, pos, scope, stack, depth) {
                Outcome::Failed { .. } => {
                    lemma_eval_deeper(grammar, input, *rhs, pos, scope, stack, depth, deeper);
                },
                _ => {},
            }
        },
        ExprModel::Optional(inner) => {
            lemma_eval_deeper(grammar, input, *inner, pos, scope, stack, depth, deeper);
        },
        ExprModel::Capture(inner) => {
            lemma_eval_deeper(grammar, input, *inner, pos, scope, stack, depth, deeper);
        },
        ExprModel::Repeat(inner) => {
            lemma_repeat_deeper(
                grammar,
                input,
                *inner,
                None,
                None,
                pos,
                scope,
                stack,
                depth,
                deeper,
            );
        },
        ExprModel::RepeatOnce(inner) => {
            lemma_repeat_deeper(
                grammar,
                input,
                *inner,
                Some(1),
                None,
                pos,
                scope,
                stack,
                depth,
                deeper,
            );
        },
        ExprModel::RepeatExact(inner, count) => {
            lemma_repeat_deeper(
                grammar,
                input,
                *inner,
                Some(count),
                Some(count),
                pos,
                scope,
                stack,
                depth,
                deeper,
            );
        },
        ExprModel::RepeatMin(inner, min) => {
            lemma_repeat_deeper(
                grammar,
                input,
                *inner,
                Some(min),
                None,
                pos,
                scope,
                stack,
                depth,
                deeper,
            );
        },
        ExprModel::RepeatMax(inner, max) => {
            lemma_repeat_deeper(
                grammar,
                input,
                *inner,
                None,
                Some(max),
                pos,
                scope,
                stack,
                depth,
                deeper,
            );
        },
        ExprModel::RepeatMinMax(inner, min, max) => {
            lemma_repeat_deeper(
                grammar,
                input,
                *inner,
                Some(min),
                Some(max),
                pos,
                scope,
                stack,
                depth,
                deeper,
            );
        },
    }
}

/// A skip and then an expression: a settled outcome stays as it is at a greater depth.
pub proof fn lemma_skip_then_deeper(
    grammar: Grammar,
    input: Seq<u8>,
    expr: ExprModel,
    pos: int,
    scope: Scope,
    stack: Seq<(usize, usize)>,
    depth: nat,
    deeper: nat,
)
    requires
        depth <= deeper,
        settled(skip_then(grammar, input, expr, pos, scope, stack, depth)),
    ensures
        skip_then(grammar, input, expr, pos, scope, stack, deeper) == skip_then(
            grammar,
            input,
            expr,
            pos,
            scope,
            stack,
            depth,
        ),
    decreases depth, 1 + expr_size(expr), 1nat, 0nat,
{
    lemma_skip_deeper(grammar, input, pos, scope, stack, depth, deeper);
    match skip(grammar, input, pos, scope, stack, depth) {
        Outcome::Matched(skipped) => {
            lemma_eval_deeper(
                grammar,
                input,
                expr,
                skipped.end,
                scope,
                skipped.stack,
                depth,
                deeper,
            );
        },
        _ => {},
    }
}

/// The occurrences that must match: a settled outcome stays as it is at a greater depth.
pub proof fn lemma_mandatory_deeper(
    grammar: Grammar,
    input: Seq<u8>,
    expr: ExprModel,
    count: nat,
    pos: int,
    scope: Scope,
    stack: Seq<(usize, usize)>,
    depth: nat,
    deeper: nat,
)
    requires
        depth <= deeper,
        settled(mandatory(grammar, input, expr, count, pos, scope, stack, depth)),
    ensures
        mandatory(grammar, input, expr, count, pos, scope, stack, deeper) == mandatory(
            grammar,
            input,
            expr,
            count,
            pos,
            scope,
            stack,
            depth,
        ),
    decreases depth, 1 + expr_size(expr), 2nat, count,
{
    if count <= 1 {
        lemma_eval_deeper(grammar, input, expr, pos, scope, stack, depth, deeper);
    } else {
        lemma_mandatory_deeper(
            grammar,
            input,
            expr,
            (count - 1) as nat,
            pos,
            scope,
            stack,
            depth,
            deeper,
        );
        match mandatory(grammar, input, expr, (count - 1) as nat, pos, scope, stack, depth) {
            Outcome::Matched(before) => {
                lemma_skip_then_deeper(
                    grammar,
                    input,
                    expr,
                    before.end,
                    scope,
                    before.stack,
                    depth,
                    deeper,
                );
            },
            _ => {},
        }
    }
}

/// The further occurrences of a repetition: a settled outcome stays as it is at a
/// greater depth.
pub proof fn lemma_more_deeper(
    grammar: Grammar,
    input: Seq<u8>,
    expr: ExprModel,
    left: Option<nat>,
    pos: int,
    scope: Scope,
    stack: Seq<(usize, usize)>,
    depth: nat,
    deeper: nat,
)
    requires
        depth <= deeper,
        settled(more(grammar, input, expr, left, pos, scope, stack, depth)),
    ensures
        more(grammar, input, expr, left, pos, scope, stack, deeper) == more(
            grammar,
            input,
            expr,
            left,
            pos,
            scope,
            stack,
            depth,
        ),
    decreases depth, 1 + expr_size(expr), 3nat, (if left is Some {
        left->0 as int
    } else {
        input.len() - pos
    }),
{
    if left != Some(0nat) {
        lemma_skip_then_deeper(grammar, input, expr, pos, scope, stack, depth, deeper);
        match skip_then(grammar, input, expr, pos, scope, stack, depth) {
            Outcome::Matched(round) => {
                if goes_on(input, left is Some, pos, round.end) {
                    lemma_more_deeper(
                        grammar,
                        input,
                        expr,
                        one_less(left),
                        round.end,
                        scope,
                        round.stack,
                        depth,
                        deeper,
                    );
                }
            },
            _ => {},
        }
    }
}

/// A repetition: a settled outcome stays as it is at a greater depth.
pub proof fn lemma_repeat_deeper(
    grammar: Grammar,
    input: Seq<u8>,
    expr: ExprModel,
    min: Option<u32>,
    max: Option<u32>,
    pos: int,
    scope: Scope,
    stack: Seq<(usize, usize)>,
    depth: nat,
    deeper: nat,
)
    requires
        depth <= deeper,
        settled(repeat(grammar, input, expr, min, max, pos, scope, stack, depth)),
    ensures
        repeat(grammar, input, expr, min, max, pos, scope, stack, deeper) == repeat(
            grammar,
            input,
            expr,
            min,
            max,
            pos,
            scope,
            stack,
            depth,
        ),
    decreases depth, 1 + expr_size(expr), 4nat, 0nat,
{
    let first = if min is Some && min->0 > 0 {
        lemma_mandatory_deeper(
            grammar,
            input,
            expr,
            min->0 as nat,
            pos,
            scope,
            stack,
            depth,
            deeper,
        );
        mandatory(grammar, input, expr, min->0 as nat, pos, scope, stack, depth)
    } else {
        lemma_eval_deeper(grammar, input, expr, pos, scope, stack, depth, deeper);
        crate::semantics::or_stay(
            eval(grammar, input, expr, pos, scope, stack, depth),
            pos,
            stack,
        )
    };
    match first {
        Outcome::Matched(begun) => {
            lemma_more_deeper(
                grammar,
                input,
                expr,
                rounds_left(min, max),
                begun.end,
                scope,
                begun.stack,
                depth,
                deeper,
            );
        },
        _ => {},
    }
}

/// The matches of a rule, one behind the other: a settled outcome stays as it is at a
/// greater depth.
pub proof fn lemma_star_deeper(
    grammar: Grammar,
    input: Seq<u8>,
    name: Seq<char>,
    pos: int,
    scope: Scope,
    stack: Seq<(usize, usize)>,
    depth: nat,
    deeper: nat,
)
    requires
        depth <= deeper,
        settled(star(grammar, input, name, pos, scope, stack, depth)),
    ensures
        star(grammar, input, name, pos, scope, stack, deeper) == star(
            grammar,
            input,
            name,
            pos,
            scope,
            stack,
            depth,
        ),
    decreases depth, 0nat, 1nat, input.len() - pos,
{
    lemma_dispatch_deeper(grammar, input, name, pos, scope, stack, depth, deeper);
    match dispatch(grammar, input, name, pos, scope, stack, depth) {
        Outcome::Matched(round) => {
            if goes_on(input, false, pos, round.end) {
                lemma_star_deeper(
                    grammar,
                    input,
                    name,
                    round.end,
                    scope,
                    round.stack,
                    depth,
                    deeper,
                );
            }
        },
        _ => {},
    }
}

/// A comment and the whitespace behind it: a settled outcome stays as it is at a greater
/// depth.
pub proof fn lemma_comment_round_deeper(
    grammar: Grammar,
    input: Seq<u8>,
    pos: int,
    scope: Scope,
    stack: Seq<(usize, usize)>,
    depth: nat,
    deeper: nat,
)
    requires
        depth <= deeper,
        settled(comment_round(grammar, input, pos, scope, stack, depth)),
    ensures
        comment_round(grammar, input, pos, scope, stack, deeper) == comment_round(
            grammar,
            input,
            pos,
            scope,
            stack,
            depth,
        ),
    decreases depth, 0nat, 2nat, 0nat,
{
    lemma_dispatch_deeper(grammar, input, "comment"@, pos, scope, stack, depth, deeper);
    match dispatch(grammar, input, "comment"@, pos, scope, stack, depth) {
        Outcome::Matched(comment) => {
            lemma_star_deeper(
                grammar,
                input,
                "whitespace"@,
                comment.end,
                scope,
                comment.stack,
                depth,
                deeper,
            );
        },
        _ => {},
    }
}

/// The comments, each with the whitespace behind it: a settled outcome stays as it is at
/// a greater depth.
pub proof fn lemma_comment_rounds_deeper(
    grammar: Grammar,
    input: Seq<u8>,
    pos: int,
    scope: Scope,
    stack: Seq<(usize, usize)>,
    depth: nat,
    deeper: nat,
)
    requires
        depth <= deeper,
        settled(comment_rounds(grammar, input, pos, scope, stack, depth)),
    ensures
        comment_rounds(grammar, input, pos, scope, stack, deeper) == comment_rounds(
            grammar,
            input,
            pos,
            scope,
            stack,
            depth,
        ),
    decreases depth, 0nat, 3nat, input.len() - pos,
{
    lemma_comment_round_deeper(grammar, input, pos, scope, stack, depth, deeper);
    match comment_round(grammar, input, pos, scope, stack, depth) {
        Outcome::Matched(round) => {
            if goes_on(input, false, pos, round.end) {
                lemma_comment_rounds_deeper(
                    grammar,
                    input,
                    round.end,
                    scope,
                    round.stack,
                    depth,
                    deeper,
                );
            }
        },
        _ => {},
    }
}

/// A skip of separators: a settled outcome stays as it is at a greater depth.
pub proof fn lemma_skip_deeper(
    grammar: Grammar,
    input: Seq<u8>,
    pos: int,
    scope: Scope,
    stack: Seq<(usize, usize)>,
    depth: nat,
    deeper: nat,
)
    requires
        depth <= deeper,
        settled(skip(grammar, input, pos, scope, stack, depth)),
    ensures
        skip(grammar, input, pos, scope, stack, deeper) == skip(
            grammar,
            input,
            pos,
            scope,
            stack,
            depth,
        ),
    decreases depth, 0nat, 4nat, 0nat,
{
    let spaces = grammar.contains_key("whitespace"@);
    let comments = grammar.contains_key("comment"@);
    if scope.atomicity != Atomicity::NonAtomic || (!spaces && !comments) {
    } else if !comments {
        lemma_star_deeper(grammar, input, "whitespace"@, pos, scope, stack, depth, deeper);
    } else if !spaces {
        lemma_star_deeper(grammar, input, "comment"@, pos, scope, stack, depth, deeper);
    } else {
        lemma_star_deeper(grammar, input, "whitespace"@, pos, scope, stack, depth, deeper);
        match star(grammar, input, "whitespace"@, pos, scope, stack, depth) {
            Outcome::Matched(leading) => {
                lemma_comment_rounds_deeper(
                    grammar,
                    input,
                    leading.end,
                    scope,
                    leading.stack,
                    depth,
                    deeper,
                );
            },
            _ => {},
        }
    }
}

/// A parse that does not run out of depth has the same result at every greater depth.
pub proof fn lemma_parse_deeper(
    grammar: Grammar,
    input: Seq<u8>,
    start: Seq<char>,
    depth: nat,
    deeper: nat,
)
    requires
        depth <= deeper,
        parse(grammar, input, start, depth) != Parsed::Fatal(FatalError::DepthExceeded),
    ensures
        parse(grammar, input, start, deeper) == parse(grammar, input, start, depth),
{
    lemma_dispatch_deeper(
        grammar,
        input,
        start,
        0,
        Scope { atomicity: Atomicity::NonAtomic, lookahead: false },
        Seq::empty(),
        depth,
        deeper,
    );
}

} // verus!
