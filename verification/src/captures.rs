//! The capture stack: the spans that the grammar has remembered, with snapshots that a
//! failed branch is rewound to.
//!
//! The stack is `pest::Stack`, used as it stands. What it holds is named by two functions
//! of this module, and each of its methods is called through a function whose contract
//! states, over those names, what the method does.

use vstd::prelude::*;

verus! {

/// `pest::Stack`, a stack that can be rewound to a snapshot. Nothing is known of what is
/// inside it but what [`stack_items`] and [`stack_saved`] name.
#[verifier::external_type_specification]
#[verifier::external_body]
#[verifier::reject_recursive_types(T)]
pub struct ExStack<T: Clone>(pest::Stack<T>);

/// The spans that the stack holds, the oldest first.
pub uninterp spec fn stack_items(stack: pest::Stack<(usize, usize)>) -> Seq<(usize, usize)>;

/// What the stack held at each snapshot that is still open, the oldest snapshot first.
pub uninterp spec fn stack_saved(stack: pest::Stack<(usize, usize)>) -> Seq<Seq<(usize, usize)>>;

/// `pest::Stack::new`: a stack that holds nothing and has no snapshot.
#[verifier::external_body]
pub(crate) fn stack_new() -> (stack: pest::Stack<(usize, usize)>)
    ensures
        stack_items(stack) == Seq::<(usize, usize)>::empty(),
        stack_saved(stack) == Seq::<Seq<(usize, usize)>>::empty(),
{
    pest::Stack::new()
}

/// `pest::Stack::push`: the span becomes the top of the stack; the snapshots stay.
#[verifier::external_body]
pub(crate) fn stack_push(stack: &mut pest::Stack<(usize, usize)>, span: (usize, usize))
    ensures
        stack_items(*final(stack)) == stack_items(*old(stack)).push(span),
        stack_saved(*final(stack)) == stack_saved(*old(stack)),
{
    stack.push(span)
}

/// `pest::Stack::pop`: takes the top of the stack off and returns it; on an empty stack
/// nothing changes and `None` is returned. The snapshots stay.
#[verifier::external_body]
pub(crate) fn stack_pop(stack: &mut pest::Stack<(usize, usize)>) -> (top: Option<(usize, usize)>)
    ensures
        top == if stack_items(*old(stack)).len() > 0 {
            Some(stack_items(*old(stack)).last())
        } else {
            None
        },
        stack_items(*final(stack)) == if stack_items(*old(stack)).len() > 0 {
            stack_items(*old(stack)).drop_last()
        } else {
            stack_items(*old(stack))
        },
        stack_saved(*final(stack)) == stack_saved(*old(stack)),
{
    stack.pop()
}

/// `pest::Stack::peek`: the top of the stack, and `None` on an empty stack.
#[verifier::external_body]
pub(crate) fn stack_peek(stack: &pest::Stack<(usize, usize)>) -> (top: Option<(usize, usize)>)
    ensures
        top == if stack_items(*stack).len() > 0 {
            Some(stack_items(*stack).last())
        } else {
            None
        },
{
    stack.peek().copied()
}

/// `pest::Stack::snapshot`: opens a snapshot of what the stack holds now.
#[verifier::external_body]
pub(crate) fn stack_snapshot(stack: &mut pest::Stack<(usize, usize)>)
    ensures
        stack_items(*final(stack)) == stack_items(*old(stack)),
        stack_saved(*final(stack)) == stack_saved(*old(stack)).push(stack_items(*old(stack))),
{
    stack.snapshot()
}

/// `pest::Stack::clear_snapshot`: closes the newest snapshot and keeps what the stack
/// holds now. Without a snapshot nothing changes.
#[verifier::external_body]
pub(crate) fn stack_clear_snapshot(stack: &mut pest::Stack<(usize, usize)>)
    ensures
        stack_items(*final(stack)) == stack_items(*old(stack)),
        stack_saved(*final(stack)) == if stack_saved(*old(stack)).len() > 0 {
            stack_saved(*old(stack)).drop_last()
        } else {
            stack_saved(*old(stack))
        },
{
    stack.clear_snapshot()
}

/// `pest::Stack::restore`: closes the newest snapshot and puts back what the stack held
/// when it was opened. Without a snapshot the stack is emptied.
#[verifier::external_body]
pub(crate) fn stack_restore(stack: &mut pest::Stack<(usize, usize)>)
    ensures
        stack_items(*final(stack)) == if stack_saved(*old(stack)).len() > 0 {
            stack_saved(*old(stack)).last()
        } else {
            Seq::<(usize, usize)>::empty()
        },
        stack_saved(*final(stack)) == if stack_saved(*old(stack)).len() > 0 {
            stack_saved(*old(stack)).drop_last()
        } else {
            stack_saved(*old(stack))
        },
{
    stack.restore()
}

} // verus!
