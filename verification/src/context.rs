//! The state of one parse: the capture stack, the tokens emitted so far, and the furthest
//! offset at which something failed to match.

use vstd::prelude::*;
use crate::captures::{
    stack_clear_snapshot, stack_items, stack_new, stack_peek, stack_pop, stack_push,
    stack_restore, stack_saved, stack_snapshot,
};
use crate::grammar::{token_models, Token, TokenModel};
use crate::semantics::{furthest_of, join, standing, Progress};

verus! {

/// The state of one parse.
pub struct Context {
    stack: pest::Stack<(usize, usize)>,
    tokens: Vec<Token>,
    furthest: usize,
}

/// Every span lies inside an input of `len` bytes and does not end before it starts.
pub open spec fn spans_within(spans: Seq<(usize, usize)>, len: nat) -> bool {
    forall|i: int| 0 <= i < spans.len() ==> (#[trigger] spans[i]).0 <= spans[i].1 <= len
}

impl Context {
    /// The spans on the capture stack, the oldest first.
    pub closed spec fn captures(&self) -> Seq<(usize, usize)> {
        stack_items(self.stack)
    }

    /// What the capture stack held at each snapshot that is still open.
    pub closed spec fn saved(&self) -> Seq<Seq<(usize, usize)>> {
        stack_saved(self.stack)
    }

    /// The tokens emitted so far.
    pub closed spec fn emitted(&self) -> Seq<TokenModel> {
        token_models(self.tokens@)
    }

    /// The furthest offset at which something failed to match.
    pub closed spec fn furthest(&self) -> nat {
        self.furthest as nat
    }

    /// The state has gone from `base` to `self` by the progress `made`.
    pub open spec fn reached(&self, base: Context, made: Progress) -> bool {
        &&& self.captures() == made.stack
        &&& self.emitted() == base.emitted() + made.tokens
        &&& self.furthest() == furthest_of(base.furthest(), made.furthest)
    }

    /// The state is that of `base`, but for a failure at `furthest`.
    pub open spec fn unchanged(&self, base: Context, furthest: nat) -> bool {
        &&& self.captures() == base.captures()
        &&& self.emitted() == base.emitted()
        &&& self.furthest() == furthest_of(base.furthest(), furthest)
    }

    /// A state has reached itself by standing still.
    pub proof fn lemma_standing(&self, pos: int)
        ensures
            self.reached(*self, standing(pos, self.captures())),
            self.unchanged(*self, 0),
    {
        assert(self.emitted() + Seq::<TokenModel>::empty() =~= self.emitted());
    }

    /// A state that is unchanged but for a failure has been reached by standing still.
    pub proof fn lemma_unchanged(&self, base: Context, pos: int, furthest: nat)
        requires
            self.unchanged(base, furthest),
        ensures
            self.reached(base, Progress { furthest, ..standing(pos, base.captures()) }),
    {
        assert(base.emitted() + Seq::<TokenModel>::empty() =~= base.emitted());
    }

    /// Progress after progress is the two joined.
    pub proof fn lemma_joined(&self, base: Context, mid: Context, first: Progress, second: Progress)
        requires
            mid.reached(base, first),
            self.reached(mid, second),
        ensures
            self.reached(base, join(first, second)),
    {
        assert((base.emitted() + first.tokens) + second.tokens =~= base.emitted() + (first.tokens
            + second.tokens));
    }

    /// The state at the start of a parse.
    pub fn new() -> (ctx: Context)
        ensures
            ctx.captures() == Seq::<(usize, usize)>::empty(),
            ctx.saved() == Seq::<Seq<(usize, usize)>>::empty(),
            ctx.emitted() == Seq::<TokenModel>::empty(),
            ctx.furthest() == 0,
    {
        let ctx = Context { stack: stack_new(), tokens: Vec::new(), furthest: 0 };
        assert(ctx.emitted() =~= Seq::<TokenModel>::empty());
        ctx
    }

    /// Records that something failed to match at `pos`.
    pub fn fail_at(&mut self, pos: usize)
        ensures
            final(self).unchanged(*old(self), pos as nat),
            final(self).saved() == old(self).saved(),
    {
        if pos > self.furthest {
            self.furthest = pos;
        }
    }

    /// The span on top of the capture stack.
    pub fn top(&self) -> (top: Option<(usize, usize)>)
        ensures
            top == if self.captures().len() > 0 {
                Some(self.captures().last())
            } else {
                None
            },
    {
        stack_peek(&self.stack)
    }

    /// Pushes a span onto the capture stack.
    pub fn push(&mut self, span: (usize, usize))
        ensures
            final(self).captures() == old(self).captures().push(span),
            final(self).saved() == old(self).saved(),
            final(self).emitted() == old(self).emitted(),
            final(self).furthest() == old(self).furthest(),
    {
        stack_push(&mut self.stack, span);
    }

    /// Takes the top span off the capture stack.
    pub fn pop(&mut self)
        requires
            old(self).captures().len() > 0,
        ensures
            final(self).captures() == old(self).captures().drop_last(),
            final(self).saved() == old(self).saved(),
            final(self).emitted() == old(self).emitted(),
            final(self).furthest() == old(self).furthest(),
    {
        let _ = stack_pop(&mut self.stack);
    }

    /// Opens a scope that [`Context::rewind`] undoes and [`Context::commit`] keeps. The
    /// result is the mark to hand to `rewind`.
    pub fn mark(&mut self) -> (mark: usize)
        ensures
            mark == old(self).emitted().len(),
            final(self).captures() == old(self).captures(),
            final(self).saved() == old(self).saved().push(old(self).captures()),
            final(self).emitted() == old(self).emitted(),
            final(self).furthest() == old(self).furthest(),
    {
        stack_snapshot(&mut self.stack);
        self.tokens.len()
    }

    /// Closes the newest scope and keeps what was done in it.
    pub fn commit(&mut self)
        requires
            old(self).saved().len() > 0,
        ensures
            final(self).captures() == old(self).captures(),
            final(self).saved() == old(self).saved().drop_last(),
            forall|rest: Seq<Seq<(usize, usize)>>, top: Seq<(usize, usize)>|
                #[trigger] rest.push(top) == old(self).saved() ==> final(self).saved() == rest,
            final(self).emitted() == old(self).emitted(),
            final(self).furthest() == old(self).furthest(),
    {
        stack_clear_snapshot(&mut self.stack);
        assert forall|rest: Seq<Seq<(usize, usize)>>, top: Seq<(usize, usize)>|
            #[trigger] rest.push(top) == old(self).saved() implies self.saved() == rest by {
            assert(rest.push(top).drop_last() =~= rest);
        }
    }

    /// Closes the newest scope and undoes what was done in it: the capture stack is as it
    /// was when the scope was opened, and the tokens emitted since are dropped.
    pub fn rewind(&mut self, mark: usize)
        requires
            old(self).saved().len() > 0,
            mark <= old(self).emitted().len(),
        ensures
            final(self).captures() == old(self).saved().last(),
            final(self).saved() == old(self).saved().drop_last(),
            forall|rest: Seq<Seq<(usize, usize)>>, top: Seq<(usize, usize)>|
                #[trigger] rest.push(top) == old(self).saved() ==> final(self).saved() == rest
                    && final(self).captures() == top,
            final(self).emitted() == old(self).emitted().take(mark as int),
            final(self).furthest() == old(self).furthest(),
    {
        stack_restore(&mut self.stack);
        self.tokens.truncate(mark);
        assert(self.emitted() =~= old(self).emitted().take(mark as int));
        assert forall|rest: Seq<Seq<(usize, usize)>>, top: Seq<(usize, usize)>|
            #[trigger] rest.push(top) == old(self).saved() implies self.saved() == rest
            && self.captures() == top by {
            assert(rest.push(top).drop_last() =~= rest);
        }
    }

    /// Emits a token of `rule` that starts at `pos` and is still open. The result is the
    /// index to hand to [`Context::close_token`].
    pub fn open_token(&mut self, rule: String, pos: usize) -> (index: usize)
        ensures
            index == old(self).emitted().len(),
            final(self).emitted() == old(self).emitted().push(
                TokenModel { rule: rule@, start: pos as int, end: pos as int },
            ),
            final(self).captures() == old(self).captures(),
            final(self).saved() == old(self).saved(),
            final(self).furthest() == old(self).furthest(),
    {
        let index = self.tokens.len();
        self.tokens.push(Token { rule, start: pos, end: pos });
        assert(self.emitted() =~= old(self).emitted().push(
            TokenModel { rule: rule@, start: pos as int, end: pos as int },
        ));
        index
    }

    /// Sets the end of the token at `index`.
    pub fn close_token(&mut self, index: usize, end: usize)
        requires
            index < old(self).emitted().len(),
        ensures
            final(self).emitted() == old(self).emitted().update(
                index as int,
                TokenModel { end: end as int, ..old(self).emitted()[index as int] },
            ),
            final(self).captures() == old(self).captures(),
            final(self).saved() == old(self).saved(),
            final(self).furthest() == old(self).furthest(),
    {
        self.tokens[index].end = end;
        assert(self.emitted() =~= old(self).emitted().update(
            index as int,
            TokenModel { end: end as int, ..old(self).emitted()[index as int] },
        ));
    }

    /// Drops the token at `index` and every token behind it.
    pub fn drop_token(&mut self, index: usize)
        requires
            index < old(self).emitted().len(),
        ensures
            final(self).emitted() == old(self).emitted().take(index as int),
            final(self).captures() == old(self).captures(),
            final(self).saved() == old(self).saved(),
            final(self).furthest() == old(self).furthest(),
    {
        self.tokens.truncate(index);
        assert(self.emitted() =~= old(self).emitted().take(index as int));
    }

    /// Ends the parse and hands out the tokens.
    pub fn into_tokens(self) -> (tokens: Vec<Token>)
        ensures
            token_models(tokens@) == self.emitted(),
    {
        self.tokens
    }

    /// The furthest offset at which something failed to match.
    pub fn furthest_failure(&self) -> (furthest: usize)
        ensures
            furthest == self.furthest(),
    {
        self.furthest
    }
}

} // verus!
