//! Evaluating an expression of the grammar.

use vstd::prelude::*;
use vstd::string::StrSliceExecFns;
use crate::attempt::{finish, follows, in_bounds, undone, Attempt};
use crate::context::{spans_within, Context};
use crate::cursor::{match_insensitive_at, match_range_at, match_string_at, scan_to_any_at};
use crate::grammar::{expr_size, Expr, ExprModel};
use crate::literal::unescape;
use crate::semantics::{char_of, eval, skip, skip_then, standing, FatalError, Progress, Scope};
use crate::vm::Vm;

verus! {

/// The first character of the text that a character literal denotes.
pub fn first_char(raw: &String) -> (first: Option<char>)
    ensures
        first == char_of(raw@),
{
    match unescape(raw.as_str()) {
        Some(text) => {
            if text.as_str().unicode_len() > 0 {
                Some(text.as_str().get_char(0))
            } else {
                None
            }
        },
        None => None,
    }
}

impl Vm {
    /// Evaluates `expr` at `pos`.
    pub fn parse_expr(
        &self,
        input: &[u8],
        expr: &Expr,
        pos: usize,
        scope: Scope,
        ctx: &mut Context,
        depth: usize,
    ) -> (result: Attempt)
        requires
            pos <= input@.len(),
            spans_within(old(ctx).captures(), input@.len()),
        ensures
            follows(
                *old(ctx),
                *final(ctx),
                pos,
                result,
                eval(self@, input@, expr@, pos as int, scope, old(ctx).captures(), depth as nat),
            ),
            in_bounds(input@.len(), *final(ctx), pos, result),
            undone(*old(ctx), *final(ctx), result),
        decreases depth, 1 + expr_size(expr@), 0nat, 0nat,
    {
        match expr {
            Expr::Literal(raw) => match unescape(raw.as_str()) {
                Some(text) => finish(
                    match_string_at(input, pos, text.as_str().as_bytes()),
                    pos,
                    ctx,
                ),
                None => Err(FatalError::InvalidLiteral),
            },
            Expr::LiteralInsensitive(raw) => match unescape(raw.as_str()) {
                Some(text) => finish(
                    match_insensitive_at(input, pos, text.as_str().as_bytes()),
                    pos,
                    ctx,
                ),
                None => Err(FatalError::InvalidLiteral),
            },
            Expr::CharRange(low, high) => match (first_char(low), first_char(high)) {
                (Some(first), Some(last)) => finish(
                    match_range_at(input, pos, first, last),
                    pos,
                    ctx,
                ),
                _ => Err(FatalError::InvalidLiteral),
            },
            Expr::RuleRef(name) => self.parse_rule(input, name.as_str(), pos, scope, ctx, depth),
            Expr::PositiveLookahead(inner) => self.lookahead(
                input,
                &**inner,
                true,
                pos,
                scope,
                ctx,
                depth,
            ),
            Expr::NegativeLookahead(inner) => self.lookahead(
                input,
                &**inner,
                false,
                pos,
                scope,
                ctx,
                depth,
            ),
            Expr::Sequence(lhs, rhs) => self.sequence(input, &**lhs, &**rhs, pos, scope, ctx, depth),
            Expr::OrderedChoice(lhs, rhs) => self.choice(
                input,
                &**lhs,
                &**rhs,
                pos,
                scope,
                ctx,
                depth,
            ),
            Expr::Optional(inner) => self.optional(input, &**inner, pos, scope, ctx, depth),
            Expr::Repeat(inner) => self.repeat(input, &**inner, None, None, pos, scope, ctx, depth),
            Expr::RepeatOnce(inner) => self.repeat(
                input,
                &**inner,
                Some(1),
                None,
                pos,
                scope,
                ctx,
                depth,
            ),
            Expr::RepeatExact(inner, count) => self.repeat(
                input,
                &**inner,
                Some(*count),
                Some(*count),
                pos,
                scope,
                ctx,
                depth,
            ),
            Expr::RepeatMin(inner, min) => self.repeat(
                input,
                &**inner,
                Some(*min),
                None,
                pos,
                scope,
                ctx,
                depth,
            ),
            Expr::RepeatMax(inner, max) => self.repeat(
                input,
                &**inner,
                None,
                Some(*max),
                pos,
                scope,
                ctx,
                depth,
            ),
            Expr::RepeatMinMax(inner, min, max) => self.repeat(
                input,
                &**inner,
                Some(*min),
                Some(*max),
                pos,
                scope,
                ctx,
                depth,
            ),
            Expr::Capture(inner) => self.capture(input, &**inner, pos, scope, ctx, depth),
            Expr::ScanToAny(strings) => finish(scan_to_any_at(input, pos, strings), pos, ctx),
        }
    }

    /// Evaluates a lookahead: `inner` is attempted at `pos`, and whatever comes of it,
    /// nothing is consumed and the capture stack and the tokens are those of before. A
    /// positive lookahead matches where `inner` matches, a negative one where it does not.
    pub fn lookahead(
        &self,
        input: &[u8],
        inner: &Expr,
        positive: bool,
        pos: usize,
        scope: Scope,
        ctx: &mut Context,
        depth: usize,
    ) -> (result: Attempt)
        requires
            pos <= input@.len(),
            spans_within(old(ctx).captures(), input@.len()),
        ensures
            follows(
                *old(ctx),
                *final(ctx),
                pos,
                result,
                eval(
                    self@,
                    input@,
                    if positive {
                        ExprModel::PositiveLookahead(Box::new(inner@))
                    } else {
                        ExprModel::NegativeLookahead(Box::new(inner@))
                    },
                    pos as int,
                    scope,
                    old(ctx).captures(),
                    depth as nat,
                ),
            ),
            in_bounds(input@.len(), *final(ctx), pos, result),
            undone(*old(ctx), *final(ctx), result),
        decreases depth, 1 + expr_size(inner@), 5nat, 0nat,
    {
        let ghost base = *ctx;
        let within = Scope { atomicity: scope.atomicity, lookahead: true };
        let ghost seen = eval(
            self@,
            input@,
            inner@,
            pos as int,
            within,
            base.captures(),
            depth as nat,
        );
        let mark = ctx.mark();
        match self.parse_expr(input, inner, pos, within, ctx, depth) {
            Ok(Ok(_)) => {
                ctx.rewind(mark);
                assert(ctx.emitted() =~= base.emitted());
                if positive {
                    proof {
                        ctx.lemma_unchanged(base, pos as int, seen->Matched_0.furthest);
                    }
                    Ok(Ok(pos))
                } else {
                    ctx.fail_at(pos);
                    Ok(Err(pos))
                }
            },
            Ok(Err(_)) => {
                ctx.commit();
                if positive {
                    ctx.fail_at(pos);
                    Ok(Err(pos))
                } else {
                    proof {
                        ctx.lemma_unchanged(base, pos as int, seen->Failed_furthest);
                    }
                    Ok(Ok(pos))
                }
            },
            Err(error) => Err(error),
        }
    }

    /// Evaluates a sequence: `lhs`, a skip of separators, and `rhs`. Where any of them
    /// fails, all of it is undone.
    pub fn sequence(
        &self,
        input: &[u8],
        lhs: &Expr,
        rhs: &Expr,
        pos: usize,
        scope: Scope,
        ctx: &mut Context,
        depth: usize,
    ) -> (result: Attempt)
        requires
            pos <= input@.len(),
            spans_within(old(ctx).captures(), input@.len()),
        ensures
            follows(
                *old(ctx),
                *final(ctx),
                pos,
                result,
                eval(
                    self@,
                    input@,
                    ExprModel::Sequence(Box::new(lhs@), Box::new(rhs@)),
                    pos as int,
                    scope,
                    old(ctx).captures(),
                    depth as nat,
                ),
            ),
            in_bounds(input@.len(), *final(ctx), pos, result),
            undone(*old(ctx), *final(ctx), result),
        decreases depth, 1 + expr_size(lhs@) + expr_size(rhs@), 5nat, 0nat,
    {
        let ghost base = *ctx;
        let ghost first = eval(
            self@,
            input@,
            lhs@,
            pos as int,
            scope,
            base.captures(),
            depth as nat,
        );
        let mark = ctx.mark();
        let ghost marked = *ctx;
        match self.parse_expr(input, lhs, pos, scope, ctx, depth) {
            Ok(Ok(mid)) => {
                let ghost halfway = *ctx;
                let ghost second = skip_then(
                    self@,
                    input@,
                    rhs@,
                    mid as int,
                    scope,
                    halfway.captures(),
                    depth as nat,
                );
                match self.skip_then(input, rhs, mid, scope, ctx, depth) {
                    Ok(Ok(end)) => {
                        let ghost done = *ctx;
                        ctx.commit();
                        proof {
                            done.lemma_joined(marked, halfway, first->Matched_0, second->Matched_0);
                        }
                        Ok(Ok(end))
                    },
                    Ok(Err(_)) => {
                        ctx.rewind(mark);
                        assert(ctx.emitted() =~= base.emitted());
                        Ok(Err(pos))
                    },
                    Err(error) => Err(error),
                }
            },
            Ok(Err(_)) => {
                ctx.commit();
                Ok(Err(pos))
            },
            Err(error) => Err(error),
        }
    }

    /// Evaluates an ordered choice: `lhs`, and where that fails, `rhs` from the same
    /// position and the same state.
    pub fn choice(
        &self,
        input: &[u8],
        lhs: &Expr,
        rhs: &Expr,
        pos: usize,
        scope: Scope,
        ctx: &mut Context,
        depth: usize,
    ) -> (result: Attempt)
        requires
            pos <= input@.len(),
            spans_within(old(ctx).captures(), input@.len()),
        ensures
            follows(
                *old(ctx),
                *final(ctx),
                pos,
                result,
                eval(
                    self@,
                    input@,
                    ExprModel::OrderedChoice(Box::new(lhs@), Box::new(rhs@)),
                    pos as int,
                    scope,
                    old(ctx).captures(),
                    depth as nat,
                ),
            ),
            in_bounds(input@.len(), *final(ctx), pos, result),
            undone(*old(ctx), *final(ctx), result),
        decreases depth, 1 + expr_size(lhs@) + expr_size(rhs@), 5nat, 0nat,
    {
        let ghost base = *ctx;
        let ghost first = eval(
            self@,
            input@,
            lhs@,
            pos as int,
            scope,
            base.captures(),
            depth as nat,
        );
        let ghost second = eval(
            self@,
            input@,
            rhs@,
            pos as int,
            scope,
            base.captures(),
            depth as nat,
        );
        match self.parse_expr(input, lhs, pos, scope, ctx, depth) {
            Ok(Err(_)) => {
                let ghost failed = *ctx;
                let result = self.parse_expr(input, rhs, pos, scope, ctx, depth);
                proof {
                    let stayed = Progress {
                        furthest: first->Failed_furthest,
                        ..standing(pos as int, base.captures())
                    };
                    failed.lemma_unchanged(base, pos as int, first->Failed_furthest);
                    if second is Matched {
                        ctx.lemma_joined(base, failed, stayed, second->Matched_0);
                    }
                }
                result
            },
            other => other,
        }
    }

    /// Evaluates an option: `inner`, and where that fails, nothing.
    pub fn optional(
        &self,
        input: &[u8],
        inner: &Expr,
        pos: usize,
        scope: Scope,
        ctx: &mut Context,
        depth: usize,
    ) -> (result: Attempt)
        requires
            pos <= input@.len(),
            spans_within(old(ctx).captures(), input@.len()),
        ensures
            follows(
                *old(ctx),
                *final(ctx),
                pos,
                result,
                eval(
                    self@,
                    input@,
                    ExprModel::Optional(Box::new(inner@)),
                    pos as int,
                    scope,
                    old(ctx).captures(),
                    depth as nat,
                ),
            ),
            in_bounds(input@.len(), *final(ctx), pos, result),
            undone(*old(ctx), *final(ctx), result),
        decreases depth, 1 + expr_size(inner@), 5nat, 0nat,
    {
        let ghost base = *ctx;
        let ghost tried = eval(
            self@,
            input@,
            inner@,
            pos as int,
            scope,
            base.captures(),
            depth as nat,
        );
        match self.parse_expr(input, inner, pos, scope, ctx, depth) {
            Ok(Err(_)) => {
                proof {
                    ctx.lemma_unchanged(base, pos as int, tried->Failed_furthest);
                }
                Ok(Ok(pos))
            },
            other => other,
        }
    }

    /// Evaluates a capture: `inner`, and where it matches outside a lookahead, the span
    /// that it matched is pushed onto the capture stack.
    pub fn capture(
        &self,
        input: &[u8],
        inner: &Expr,
        pos: usize,
        scope: Scope,
        ctx: &mut Context,
        depth: usize,
    ) -> (result: Attempt)
        requires
            pos <= input@.len(),
            spans_within(old(ctx).captures(), input@.len()),
        ensures
            follows(
                *old(ctx),
                *final(ctx),
                pos,
                result,
                eval(
                    self@,
                    input@,
                    ExprModel::Capture(Box::new(inner@)),
                    pos as int,
                    scope,
                    old(ctx).captures(),
                    depth as nat,
                ),
            ),
            in_bounds(input@.len(), *final(ctx), pos, result),
            undone(*old(ctx), *final(ctx), result),
        decreases depth, 1 + expr_size(inner@), 5nat, 0nat,
    {
        match self.parse_expr(input, inner, pos, scope, ctx, depth) {
            Ok(Ok(end)) => {
                if !scope.lookahead {
                    ctx.push((pos, end));
                }
                Ok(Ok(end))
            },
            other => other,
        }
    }

    /// Skips separators at `pos` and then evaluates `expr`. Where `expr` fails, the skip is
    /// undone.
    pub fn skip_then(
        &self,
        input: &[u8],
        expr: &Expr,
        pos: usize,
        scope: Scope,
        ctx: &mut Context,
        depth: usize,
    ) -> (result: Attempt)
        requires
            pos <= input@.len(),
            spans_within(old(ctx).captures(), input@.len()),
        ensures
            follows(
                *old(ctx),
                *final(ctx),
                pos,
                result,
                skip_then(self@, input@, expr@, pos as int, scope, old(ctx).captures(), depth as nat),
            ),
            in_bounds(input@.len(), *final(ctx), pos, result),
            undone(*old(ctx), *final(ctx), result),
        decreases depth, 1 + expr_size(expr@), 1nat, 0nat,
    {
        let ghost base = *ctx;
        let mark = ctx.mark();
        let ghost marked = *ctx;
        match self.skip(input, pos, scope, ctx, depth) {
            Ok(Ok(mid)) => {
                let ghost halfway = *ctx;
                match self.parse_expr(input, expr, mid, scope, ctx, depth) {
                    Ok(Ok(end)) => {
                        let ghost done = *ctx;
                        ctx.commit();
                        proof {
                            let first = skip(
                                self@,
                                input@,
                                pos as int,
                                scope,
                                base.captures(),
                                depth as nat,
                            )->Matched_0;
                            let second = eval(
                                self@,
                                input@,
                                expr@,
                                mid as int,
                                scope,
                                halfway.captures(),
                                depth as nat,
                            )->Matched_0;
                            done.lemma_joined(marked, halfway, first, second);
                        }
                        Ok(Ok(end))
                    },
                    Ok(Err(_)) => {
                        ctx.rewind(mark);
                        assert(ctx.emitted() =~= base.emitted());
                        Ok(Err(pos))
                    },
                    Err(error) => Err(error),
                }
            },
            Ok(Err(_)) => {
                ctx.commit();
                Ok(Err(pos))
            },
            Err(error) => Err(error),
        }
    }
}

} // verus!
