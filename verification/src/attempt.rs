//! What an attempt returns, and how that and the state of the parse follow from the
//! outcome that the model gives.

use vstd::prelude::*;
use crate::context::{spans_within, Context};
use crate::semantics::{leaf, FatalError, Outcome};

verus! {

/// What an attempt returns: the position reached, or, where it did not match, the
/// position at which it was made; or the error that ends the parse.
pub type Attempt = Result<Result<usize, usize>, FatalError>;

/// `result` and the state `now` are what `outcome` says of an attempt made at `pos` in the
/// state `base`.
pub open spec fn follows(
    base: Context,
    now: Context,
    pos: usize,
    result: Attempt,
    outcome: Outcome,
) -> bool {
    match outcome {
        Outcome::Matched(made) => {
            &&& result matches Ok(Ok(end))
            &&& end == made.end
            &&& now.reached(base, made)
            &&& now.saved() == base.saved()
        },
        Outcome::Failed { furthest } => {
            &&& result == Ok::<Result<usize, usize>, FatalError>(Err(pos))
            &&& now.unchanged(base, furthest)
            &&& now.saved() == base.saved()
        },
        Outcome::Fatal(error) => result == Err::<Result<usize, usize>, FatalError>(error),
    }
}

/// What every attempt keeps: a match ends between `pos` and the end of the input, and the
/// spans on the capture stack stay inside the input.
pub open spec fn in_bounds(len: nat, now: Context, pos: usize, result: Attempt) -> bool {
    &&& result is Ok ==> spans_within(now.captures(), len)
    &&& result matches Ok(Ok(end)) ==> pos <= end <= len
}

/// A failed attempt has left nothing behind: the capture stack and the tokens are those
/// of before.
pub open spec fn undone(base: Context, now: Context, result: Attempt) -> bool {
    result matches Ok(Err(_)) ==> now.captures() == base.captures() && now.emitted()
        == base.emitted()
}

/// An offset that the cursor found, as the model has it.
pub open spec fn offset_of(found: Option<usize>) -> Option<int> {
    match found {
        Some(end) => Some(end as int),
        None => None,
    }
}

/// The rounds that are left, as the model counts them.
pub open spec fn rounds_of(left: Option<u32>) -> Option<nat> {
    match left {
        Some(rounds) => Some(rounds as nat),
        None => None,
    }
}

/// Turns what the cursor found at `pos` into the result of the attempt, and records the
/// failure where it found nothing.
pub fn finish(found: Option<usize>, pos: usize, ctx: &mut Context) -> (result: Attempt)
    ensures
        follows(
            *old(ctx),
            *final(ctx),
            pos,
            result,
            leaf(offset_of(found), pos as int, old(ctx).captures()),
        ),
        final(ctx).captures() == old(ctx).captures(),
{
    match found {
        Some(end) => {
            proof {
                ctx.lemma_standing(pos as int);
            }
            Ok(Ok(end))
        },
        None => {
            ctx.fail_at(pos);
            Ok(Err(pos))
        },
    }
}

} // verus!
