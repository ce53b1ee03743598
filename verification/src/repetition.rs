//! Repetition: the occurrences that must match, and the further ones that are taken as
//! long as they match.

use vstd::prelude::*;
use crate::attempt::{follows, in_bounds, rounds_of, undone, Attempt};
use crate::context::{spans_within, Context};
use crate::grammar::{expr_size, Expr};
use crate::semantics::{
    eval, join, lemma_mandatory_settled, lemma_standing_then, lemma_then_join,
    lemma_then_standing, mandatory, more, one_less, or_stay, repeat, rounds_left, skip_then,
    standing, then, Outcome, Scope,
};
use crate::vm::Vm;

verus! {

impl Vm {
    /// Evaluates `count` occurrences of `expr`, each but the first after a skip of
    /// separators. All of them must match.
    pub fn mandatory(
        &self,
        input: &[u8],
        expr: &Expr,
        count: u32,
        pos: usize,
        scope: Scope,
        ctx: &mut Context,
        depth: usize,
    ) -> (result: Attempt)
        requires
            count >= 1,
            pos <= input@.len(),
            spans_within(old(ctx).captures(), input@.len()),
        ensures
            follows(
                *old(ctx),
                *final(ctx),
                pos,
                result,
                mandatory(
                    self@,
                    input@,
                    expr@,
                    count as nat,
                    pos as int,
                    scope,
                    old(ctx).captures(),
                    depth as nat,
                ),
            ),
            in_bounds(input@.len(), *final(ctx), pos, result),
            undone(*old(ctx), *final(ctx), result),
        decreases depth, 1 + expr_size(expr@), 2nat, 0nat,
    {
        let ghost base = *ctx;
        let mark = ctx.mark();
        let ghost marked = *ctx;
        let mut cur = match self.parse_expr(input, expr, pos, scope, ctx, depth) {
            Ok(Ok(end)) => end,
            Ok(Err(_)) => {
                ctx.commit();
                proof {
                    lemma_mandatory_settled(
                        self@,
                        input@,
                        expr@,
                        1,
                        count as nat,
                        pos as int,
                        scope,
                        base.captures(),
                        depth as nat,
                    );
                }
                return Ok(Err(pos));
            },
            Err(error) => {
                proof {
                    lemma_mandatory_settled(
                        self@,
                        input@,
                        expr@,
                        1,
                        count as nat,
                        pos as int,
                        scope,
                        base.captures(),
                        depth as nat,
                    );
                }
                return Err(error);
            },
        };
        let ghost mut acc = eval(
            self@,
            input@,
            expr@,
            pos as int,
            scope,
            base.captures(),
            depth as nat,
        )->Matched_0;
        let mut done: u32 = 1;
        while done < count
            invariant
                base == *old(ctx),
                spans_within(base.captures(), input@.len()),
                1 <= done <= count,
                pos <= cur <= input@.len(),
                mark == base.emitted().len(),
                spans_within(ctx.captures(), input@.len()),
                mandatory(
                    self@,
                    input@,
                    expr@,
                    done as nat,
                    pos as int,
                    scope,
                    base.captures(),
                    depth as nat,
                ) == Outcome::Matched(acc),
                acc.end == cur,
                ctx.reached(base, acc),
                ctx.saved() == base.saved().push(base.captures()),
            decreases count - done,
        {
            let ghost before = *ctx;
            let ghost round = skip_then(
                self@,
                input@,
                expr@,
                cur as int,
                scope,
                before.captures(),
                depth as nat,
            );
            match self.skip_then(input, expr, cur, scope, ctx, depth) {
                Ok(Ok(end)) => {
                    proof {
                        ctx.lemma_joined(base, before, acc, round->Matched_0);
                        acc = join(acc, round->Matched_0);
                    }
                    cur = end;
                    done = done + 1;
                },
                Ok(Err(_)) => {
                    ctx.rewind(mark);
                    proof {
                        assert(ctx.emitted() =~= base.emitted());
                        lemma_mandatory_settled(
                            self@,
                            input@,
                            expr@,
                            (done + 1) as nat,
                            count as nat,
                            pos as int,
                            scope,
                            base.captures(),
                            depth as nat,
                        );
                    }
                    return Ok(Err(pos));
                },
                Err(error) => {
                    proof {
                        lemma_mandatory_settled(
                            self@,
                            input@,
                            expr@,
                            (done + 1) as nat,
                            count as nat,
                            pos as int,
                            scope,
                            base.captures(),
                            depth as nat,
                        );
                    }
                    return Err(error);
                },
            }
        }
        ctx.commit();
        Ok(Ok(cur))
    }

    /// Takes further occurrences of `expr`, each after a skip of separators: at most `left`
    /// of them, and any number where `left` is absent.
    pub fn more(
        &self,
        input: &[u8],
        expr: &Expr,
        left: Option<u32>,
        pos: usize,
        scope: Scope,
        ctx: &mut Context,
        depth: usize,
    ) -> (result: Attempt)
        requires
            pos <= input@.len(),
            spans_within(old(ctx).captures(), input@.len()),
        ensures
            follows(
                *old(ctx),
                *final(ctx),
                pos,
                result,
                more(
                    self@,
                    input@,
                    expr@,
                    rounds_of(left),
                    pos as int,
                    scope,
                    old(ctx).captures(),
                    depth as nat,
                ),
            ),
            in_bounds(input@.len(), *final(ctx), pos, result),
            undone(*old(ctx), *final(ctx), result),
        decreases depth, 1 + expr_size(expr@), 3nat, 0nat,
    {
        let ghost base = *ctx;
        let ghost total = more(
            self@,
            input@,
            expr@,
            rounds_of(left),
            pos as int,
            scope,
            base.captures(),
            depth as nat,
        );
        let ghost mut acc = standing(pos as int, base.captures());
        let mut cur = pos;
        let mut rounds = left;
        proof {
            base.lemma_standing(pos as int);
            lemma_standing_then(pos as int, base.captures(), total);
        }
        loop
            invariant
                base == *old(ctx),
                total == more(
                    self@,
                    input@,
                    expr@,
                    rounds_of(left),
                    pos as int,
                    scope,
                    base.captures(),
                    depth as nat,
                ),
                pos <= cur <= input@.len(),
                spans_within(ctx.captures(), input@.len()),
                acc.end == cur,
                ctx.reached(base, acc),
                ctx.saved() == base.saved(),
                then(
                    acc,
                    more(
                        self@,
                        input@,
                        expr@,
                        rounds_of(rounds),
                        cur as int,
                        scope,
                        ctx.captures(),
                        depth as nat,
                    ),
                ) == total,
            decreases
                    (if rounds is Some {
                        rounds->0 as int
                    } else {
                        input@.len() - cur
                    }),
        {
            let ghost before = *ctx;
            let ghost round = skip_then(
                self@,
                input@,
                expr@,
                cur as int,
                scope,
                before.captures(),
                depth as nat,
            );
            if let Some(0) = rounds {
                proof {
                    lemma_then_standing(acc, 0);
                }
                return Ok(Ok(cur));
            }
            match self.skip_then(input, expr, cur, scope, ctx, depth) {
                Ok(Ok(end)) => {
                    proof {
                        ctx.lemma_joined(base, before, acc, round->Matched_0);
                    }
                    if rounds.is_none() && end <= cur {
                        return Ok(Ok(end));
                    }
                    proof {
                        lemma_then_join(
                            acc,
                            round->Matched_0,
                            more(
                                self@,
                                input@,
                                expr@,
                                one_less(rounds_of(rounds)),
                                end as int,
                                scope,
                                ctx.captures(),
                                depth as nat,
                            ),
                        );
                        acc = join(acc, round->Matched_0);
                    }
                    cur = end;
                    rounds = match rounds {
                        Some(count) => Some(count - 1),
                        None => None,
                    };
                },
                Ok(Err(_)) => {
                    proof {
                        lemma_then_standing(acc, round->Failed_furthest);
                    }
                    return Ok(Ok(cur));
                },
                Err(error) => {
                    return Err(error);
                },
            }
        }
    }

    /// Evaluates a repetition of `expr` with the bounds `min` and `max`, either of which
    /// may be absent.
    pub fn repeat(
        &self,
        input: &[u8],
        expr: &Expr,
        min: Option<u32>,
        max: Option<u32>,
        pos: usize,
        scope: Scope,
        ctx: &mut Context,
        depth: usize,
    ) -> (result: Attempt)
        requires
            pos <= input@.len(),
            spans_within(old(ctx).captures(), input@.len()),
        ensures
            follows(
                *old(ctx),
                *final(ctx),
                pos,
                result,
                repeat(
                    self@,
                    input@,
                    expr@,
                    min,
                    max,
                    pos as int,
                    scope,
                    old(ctx).captures(),
                    depth as nat,
                ),
            ),
            in_bounds(input@.len(), *final(ctx), pos, result),
            undone(*old(ctx), *final(ctx), result),
        decreases depth, 1 + expr_size(expr@), 4nat, 0nat,
    {
        let ghost base = *ctx;
        let mark = ctx.mark();
        let ghost marked = *ctx;
        let required: u32 = match min {
            Some(count) => count,
            None => 0,
        };
        let first = if required > 0 {
            self.mandatory(input, expr, required, pos, scope, ctx, depth)
        } else {
            match self.parse_expr(input, expr, pos, scope, ctx, depth) {
                Ok(Err(_)) => {
                    proof {
                        let furthest = eval(
                            self@,
                            input@,
                            expr@,
                            pos as int,
                            scope,
                            base.captures(),
                            depth as nat,
                        )->Failed_furthest;
                        ctx.lemma_unchanged(marked, pos as int, furthest);
                    }
                    Ok(Ok(pos))
                },
                other => other,
            }
        };
        let ghost begun = if min is Some && min->0 > 0 {
            mandatory(
                self@,
                input@,
                expr@,
                min->0 as nat,
                pos as int,
                scope,
                base.captures(),
                depth as nat,
            )
        } else {
            or_stay(
                eval(self@, input@, expr@, pos as int, scope, base.captures(), depth as nat),
                pos as int,
                base.captures(),
            )
        };
        match first {
            Ok(Ok(mid)) => {
                let ghost halfway = *ctx;
                let taken: u32 = if required > 0 {
                    required
                } else {
                    1
                };
                let left: Option<u32> = match max {
                    Some(limit) => Some(
                        if limit > taken {
                            limit - taken
                        } else {
                            0
                        },
                    ),
                    None => None,
                };
                match self.more(input, expr, left, mid, scope, ctx, depth) {
                    Ok(Ok(end)) => {
                        let ghost done = *ctx;
                        ctx.commit();
                        proof {
                            let further = more(
                                self@,
                                input@,
                                expr@,
                                rounds_left(min, max),
                                mid as int,
                                scope,
                                halfway.captures(),
                                depth as nat,
                            )->Matched_0;
                            done.lemma_joined(marked, halfway, begun->Matched_0, further);
                        }
                        Ok(Ok(end))
                    },
                    Ok(Err(_)) => {
                        ctx.rewind(mark);
                        assert(ctx.emitted() =~= base.emitted());
                        Ok(Err(pos))
                    },
                    Err(error) => Err(error),
                }
            },
            Ok(Err(_)) => {
                ctx.commit();
                Ok(Err(pos))
            },
            Err(error) => Err(error),
        }
    }
}

} // verus!
