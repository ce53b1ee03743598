//! Entering a rule: the names that are taken before the grammar is asked, and the
//! wrapping of a rule of the grammar.

use vstd::prelude::*;
use vstd::slice::slice_subrange;
use crate::attempt::{finish, follows, in_bounds, undone, Attempt};
use crate::context::{spans_within, Context};
use crate::cursor::{advance_at, match_string_at, same_text};
use crate::grammar::{Atomicity, RuleKind, TokenModel};
use crate::semantics::{dispatch, emits, eval, wrapping, FatalError, Scope, Wrapping};
use crate::vm::Vm;

verus! {

/// The wrapping of a rule of `kind`, entered where `current` is in force.
pub fn wrap_rule(kind: RuleKind, separator: bool, current: Atomicity) -> (wrap: Wrapping)
    ensures
        wrap == wrapping(kind, separator, current),
{
    if separator {
        Wrapping {
            token: matches!(kind, RuleKind::Normal | RuleKind::Atomic),
            entry: current,
            body: Atomicity::Atomic,
        }
    } else {
        match kind {
            RuleKind::Normal => Wrapping { token: true, entry: current, body: current },
            RuleKind::Silent => Wrapping { token: false, entry: current, body: current },
            RuleKind::Atomic => Wrapping { token: true, entry: current, body: Atomicity::Atomic },
            RuleKind::CompoundAtomic => Wrapping {
                token: true,
                entry: Atomicity::CompoundAtomic,
                body: Atomicity::Atomic,
            },
            RuleKind::NonAtomic => Wrapping {
                token: true,
                entry: Atomicity::NonAtomic,
                body: Atomicity::NonAtomic,
            },
        }
    }
}

/// Whether a rule entered in `scope` emits its token.
pub fn emits_in(scope: Scope) -> (emit: bool)
    ensures
        emit == emits(scope),
{
    !scope.lookahead && !matches!(scope.atomicity, Atomicity::Atomic)
}

impl Vm {
    /// Enters the rule `name` at `pos`.
    pub fn parse_rule(
        &self,
        input: &[u8],
        name: &str,
        pos: usize,
        scope: Scope,
        ctx: &mut Context,
        depth: usize,
    ) -> (result: Attempt)
        requires
            pos <= input@.len(),
            spans_within(old(ctx).captures(), input@.len()),
        ensures
            follows(
                *old(ctx),
                *final(ctx),
                pos,
                result,
                dispatch(self@, input@, name@, pos as int, scope, old(ctx).captures(), depth as nat),
            ),
            in_bounds(input@.len(), *final(ctx), pos, result),
            undone(*old(ctx), *final(ctx), result),
        decreases depth, 0nat, 0nat, 0nat,
    {
        let ghost base = *ctx;
        if same_text(name, "any") {
            return finish(advance_at(input, pos), pos, ctx);
        }
        if same_text(name, "eoi") {
            if pos != input.len() {
                return finish(None, pos, ctx);
            }
            if emits_in(scope) {
                let _ = ctx.open_token(name.to_owned(), pos);
                proof {
                    base.lemma_standing(pos as int);
                    let token = TokenModel {
                        rule: name@,
                        start: pos as int,
                        end: pos as int,
                    };
                    assert(base.emitted().push(token) =~= base.emitted() + (seq![token]
                        + Seq::<TokenModel>::empty()));
                }
                return Ok(Ok(pos));
            }
            return finish(Some(pos), pos, ctx);
        }
        if same_text(name, "soi") {
            return finish(
                if pos == 0 {
                    Some(pos)
                } else {
                    None
                },
                pos,
                ctx,
            );
        }
        if same_text(name, "peek") {
            return match ctx.top() {
                Some(span) => {
                    let text = slice_subrange(input, span.0, span.1);
                    finish(match_string_at(input, pos, text), pos, ctx)
                },
                None => Err(FatalError::EmptyStack),
            };
        }
        if same_text(name, "pop") {
            return match ctx.top() {
                Some(span) => {
                    let text = slice_subrange(input, span.0, span.1);
                    let found = match_string_at(input, pos, text);
                    if found.is_some() {
                        ctx.pop();
                    }
                    finish(found, pos, ctx)
                },
                None => Err(FatalError::EmptyStack),
            };
        }
        match self.rule(name) {
            None => Err(FatalError::UndefinedRule),
            Some(rule) => {
                if depth == 0 {
                    return Err(FatalError::DepthExceeded);
                }
                let separator = same_text(name, "whitespace") || same_text(name, "comment");
                let wrap = wrap_rule(rule.kind, separator, scope.atomicity);
                let inner = Scope { atomicity: wrap.body, lookahead: scope.lookahead };
                if wrap.token && emits_in(
                    Scope { atomicity: wrap.entry, lookahead: scope.lookahead },
                ) {
                    let index = ctx.open_token(name.to_owned(), pos);
                    let ghost opened = *ctx;
                    match self.parse_expr(input, &rule.body, pos, inner, ctx, depth - 1) {
                        Ok(Ok(end)) => {
                            let ghost evaluated = *ctx;
                            ctx.close_token(index, end);
                            proof {
                                let made = eval(
                                    self@,
                                    input@,
                                    rule.body@,
                                    pos as int,
                                    inner,
                                    base.captures(),
                                    (depth - 1) as nat,
                                )->Matched_0;
                                let token = TokenModel {
                                    rule: name@,
                                    start: pos as int,
                                    end: end as int,
                                };
                                assert(evaluated.emitted() =~= opened.emitted() + made.tokens);
                                assert(ctx.emitted() =~= base.emitted() + (seq![token]
                                    + made.tokens));
                            }
                            Ok(Ok(end))
                        },
                        Ok(Err(_)) => {
                            ctx.drop_token(index);
                            assert(ctx.emitted() =~= base.emitted());
                            Ok(Err(pos))
                        },
                        Err(error) => Err(error),
                    }
                } else {
                    self.parse_expr(input, &rule.body, pos, inner, ctx, depth - 1)
                }
            },
        }
    }
}

} // verus!
