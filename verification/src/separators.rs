//! Separators: the whitespace and the comments that are skipped between the parts of a
//! sequence and the rounds of a repetition.

use vstd::prelude::*;
use crate::attempt::{finish, follows, in_bounds, undone, Attempt};
use crate::context::{spans_within, Context};
use crate::grammar::Atomicity;
use crate::semantics::{
    comment_round, comment_rounds, dispatch, join, lemma_standing_then, lemma_then_join,
    lemma_then_standing, skip, standing, star, then, Scope,
};
use crate::vm::Vm;

verus! {

impl Vm {
    /// Takes as many matches of the rule `name` as there are, one behind the other.
    pub fn star(
        &self,
        input: &[u8],
        name: &str,
        pos: usize,
        scope: Scope,
        ctx: &mut Context,
        depth: usize,
    ) -> (result: Attempt)
        requires
            pos <= input@.len(),
            spans_within(old(ctx).captures(), input@.len()),
        ensures
            follows(
                *old(ctx),
                *final(ctx),
                pos,
                result,
                star(self@, input@, name@, pos as int, scope, old(ctx).captures(), depth as nat),
            ),
            in_bounds(input@.len(), *final(ctx), pos, result),
            undone(*old(ctx), *final(ctx), result),
        decreases depth, 0nat, 1nat, 0nat,
    {
        let ghost base = *ctx;
        let ghost total = star(
            self@,
            input@,
            name@,
            pos as int,
            scope,
            base.captures(),
            depth as nat,
        );
        let ghost mut acc = standing(pos as int, base.captures());
        let mut cur = pos;
        proof {
            base.lemma_standing(pos as int);
            lemma_standing_then(pos as int, base.captures(), total);
        }
        loop
            invariant
                base == *old(ctx),
                total == star(
                    self@,
                    input@,
                    name@,
                    pos as int,
                    scope,
                    base.captures(),
                    depth as nat,
                ),
                pos <= cur <= input@.len(),
                spans_within(ctx.captures(), input@.len()),
                acc.end == cur,
                ctx.reached(base, acc),
                ctx.saved() == base.saved(),
                then(
                    acc,
                    star(self@, input@, name@, cur as int, scope, ctx.captures(), depth as nat),
                ) == total,
            decreases input@.len() - cur,
        {
            let ghost before = *ctx;
            let ghost round = dispatch(
                self@,
                input@,
                name@,
                cur as int,
                scope,
                before.captures(),
                depth as nat,
            );
            match self.parse_rule(input, name, cur, scope, ctx, depth) {
                Ok(Ok(end)) => {
                    proof {
                        ctx.lemma_joined(base, before, acc, round->Matched_0);
                    }
                    if end <= cur {
                        return Ok(Ok(end));
                    }
                    proof {
                        lemma_then_join(
                            acc,
                            round->Matched_0,
                            star(
                                self@,
                                input@,
                                name@,
                                end as int,
                                scope,
                                ctx.captures(),
                                depth as nat,
                            ),
                        );
                        acc = join(acc, round->Matched_0);
                    }
                    cur = end;
                },
                Ok(Err(_)) => {
                    proof {
                        lemma_then_standing(acc, round->Failed_furthest);
                    }
                    return Ok(Ok(cur));
                },
                Err(error) => {
                    return Err(error);
                },
            }
        }
    }

    /// Takes one comment and the whitespace behind it.
    pub fn comment_round(
        &self,
        input: &[u8],
        pos: usize,
        scope: Scope,
        ctx: &mut Context,
        depth: usize,
    ) -> (result: Attempt)
        requires
            pos <= input@.len(),
            spans_within(old(ctx).captures(), input@.len()),
        ensures
            follows(
                *old(ctx),
                *final(ctx),
                pos,
                result,
                comment_round(self@, input@, pos as int, scope, old(ctx).captures(), depth as nat),
            ),
            in_bounds(input@.len(), *final(ctx), pos, result),
            undone(*old(ctx), *final(ctx), result),
        decreases depth, 0nat, 2nat, 0nat,
    {
        let ghost base = *ctx;
        let mark = ctx.mark();
        let ghost marked = *ctx;
        match self.parse_rule(input, "comment", pos, scope, ctx, depth) {
            Ok(Ok(mid)) => {
                let ghost halfway = *ctx;
                match self.star(input, "whitespace", mid, scope, ctx, depth) {
                    Ok(Ok(end)) => {
                        let ghost done = *ctx;
                        ctx.commit();
                        proof {
                            let first = dispatch(
                                self@,
                                input@,
                                "comment"@,
                                pos as int,
                                scope,
                                base.captures(),
                                depth as nat,
                            )->Matched_0;
                            let second = star(
                                self@,
                                input@,
                                "whitespace"@,
                                mid as int,
                                scope,
                                halfway.captures(),
                                depth as nat,
                            )->Matched_0;
                            done.lemma_joined(marked, halfway, first, second);
                        }
                        Ok(Ok(end))
                    },
                    Ok(Err(_)) => {
                        ctx.rewind(mark);
                        assert(ctx.emitted() =~= base.emitted());
                        Ok(Err(pos))
                    },
                    Err(error) => Err(error),
                }
            },
            Ok(Err(_)) => {
                ctx.commit();
                Ok(Err(pos))
            },
            Err(error) => Err(error),
        }
    }

    /// Takes as many comments, each with the whitespace behind it, as there are.
    pub fn comment_rounds(
        &self,
        input: &[u8],
        pos: usize,
        scope: Scope,
        ctx: &mut Context,
        depth: usize,
    ) -> (result: Attempt)
        requires
            pos <= input@.len(),
            spans_within(old(ctx).captures(), input@.len()),
        ensures
            follows(
                *old(ctx),
                *final(ctx),
                pos,
                result,
                comment_rounds(self@, input@, pos as int, scope, old(ctx).captures(), depth as nat),
            ),
            in_bounds(input@.len(), *final(ctx), pos, result),
            undone(*old(ctx), *final(ctx), result),
        decreases depth, 0nat, 3nat, 0nat,
    {
        let ghost base = *ctx;
        let ghost total = comment_rounds(
            self@,
            input@,
            pos as int,
            scope,
            base.captures(),
            depth as nat,
        );
        let ghost mut acc = standing(pos as int, base.captures());
        let mut cur = pos;
        proof {
            base.lemma_standing(pos as int);
            lemma_standing_then(pos as int, base.captures(), total);
        }
        loop
            invariant
                base == *old(ctx),
                total == comment_rounds(
                    self@,
                    input@,
                    pos as int,
                    scope,
                    base.captures(),
                    depth as nat,
                ),
                pos <= cur <= input@.len(),
                spans_within(ctx.captures(), input@.len()),
                acc.end == cur,
                ctx.reached(base, acc),
                ctx.saved() == base.saved(),
                then(
                    acc,
                    comment_rounds(self@, input@, cur as int, scope, ctx.captures(), depth as nat),
                ) == total,
            decreases input@.len() - cur,
        {
            let ghost before = *ctx;
            let ghost round = comment_round(
                self@,
                input@,
                cur as int,
                scope,
                before.captures(),
                depth as nat,
            );
            match self.comment_round(input, cur, scope, ctx, depth) {
                Ok(Ok(end)) => {
                    proof {
                        ctx.lemma_joined(base, before, acc, round->Matched_0);
                    }
                    if end <= cur {
                        return Ok(Ok(end));
                    }
                    proof {
                        lemma_then_join(
                            acc,
                            round->Matched_0,
                            comment_rounds(
                                self@,
                                input@,
                                end as int,
                                scope,
                                ctx.captures(),
                                depth as nat,
                            ),
                        );
                        acc = join(acc, round->Matched_0);
                    }
                    cur = end;
                },
                Ok(Err(_)) => {
                    proof {
                        lemma_then_standing(acc, round->Failed_furthest);
                    }
                    return Ok(Ok(cur));
                },
                Err(error) => {
                    return Err(error);
                },
            }
        }
    }

    /// Skips the separators at `pos`. A skip never fails, and it does nothing unless the
    /// atomicity in force is `NonAtomic`.
    pub fn skip(
        &self,
        input: &[u8],
        pos: usize,
        scope: Scope,
        ctx: &mut Context,
        depth: usize,
    ) -> (result: Attempt)
        requires
            pos <= input@.len(),
            spans_within(old(ctx).captures(), input@.len()),
        ensures
            follows(
                *old(ctx),
                *final(ctx),
                pos,
                result,
                skip(self@, input@, pos as int, scope, old(ctx).captures(), depth as nat),
            ),
            in_bounds(input@.len(), *final(ctx), pos, result),
            undone(*old(ctx), *final(ctx), result),
            result matches Ok(attempt) ==> attempt is Ok,
            scope.atomicity != Atomicity::NonAtomic ==> result == Ok::<
                Result<usize, usize>,
                crate::semantics::FatalError,
            >(Ok(pos)),
        decreases depth, 0nat, 4nat, 0nat,
    {
        proof {
            assert(input.len() == input@.len());
            crate::laws::lemma_skip_orderly(
                self@,
                input@,
                pos as int,
                scope,
                ctx.captures(),
                depth as nat,
            );
        }
        let ghost base = *ctx;
        let spaces = self.defines("whitespace");
        let comments = self.defines("comment");
        if !matches!(scope.atomicity, Atomicity::NonAtomic) || (!spaces && !comments) {
            return finish(Some(pos), pos, ctx);
        }
        if !comments {
            return self.star(input, "whitespace", pos, scope, ctx, depth);
        }
        if !spaces {
            return self.star(input, "comment", pos, scope, ctx, depth);
        }
        let mark = ctx.mark();
        let ghost marked = *ctx;
        match self.star(input, "whitespace", pos, scope, ctx, depth) {
            Ok(Ok(mid)) => {
                let ghost halfway = *ctx;
                match self.comment_rounds(input, mid, scope, ctx, depth) {
                    Ok(Ok(end)) => {
                        let ghost done = *ctx;
                        ctx.commit();
                        proof {
                            let first = star(
                                self@,
                                input@,
                                "whitespace"@,
                                pos as int,
                                scope,
                                base.captures(),
                                depth as nat,
                            )->Matched_0;
                            let second = comment_rounds(
                                self@,
                                input@,
                                mid as int,
                                scope,
                                halfway.captures(),
                                depth as nat,
                            )->Matched_0;
                            done.lemma_joined(marked, halfway, first, second);
                        }
                        Ok(Ok(end))
                    },
                    Ok(Err(_)) => {
                        ctx.rewind(mark);
                        assert(ctx.emitted() =~= base.emitted());
                        Ok(Err(pos))
                    },
                    Err(error) => Err(error),
                }
            },
            Ok(Err(_)) => {
                ctx.commit();
                Ok(Err(pos))
            },
            Err(error) => Err(error),
        }
    }
}

} // verus!
