use pest_vm::context::Context;
use pest_vm::grammar::Token;

#[test]
fn a_new_context_holds_nothing() {
    let ctx = Context::new();
    assert_eq!(ctx.top(), None);
    assert_eq!(ctx.furthest_failure(), 0);
    assert_eq!(ctx.into_tokens(), vec![]);
}

#[test]
fn push_puts_a_span_on_top() {
    let mut ctx = Context::new();
    ctx.push((1, 2));
    assert_eq!(ctx.top(), Some((1, 2)));
    ctx.push((3, 5));
    assert_eq!(ctx.top(), Some((3, 5)));
}

#[test]
fn pop_takes_the_top_off() {
    let mut ctx = Context::new();
    ctx.push((1, 2));
    ctx.push((3, 5));
    ctx.pop();
    assert_eq!(ctx.top(), Some((1, 2)));
    ctx.pop();
    assert_eq!(ctx.top(), None);
}

#[test]
fn rewind_undoes_pushes_and_pops() {
    let mut ctx = Context::new();
    ctx.push((1, 2));
    ctx.push((3, 5));
    let mark = ctx.mark();
    ctx.pop();
    ctx.pop();
    ctx.push((7, 8));
    assert_eq!(ctx.top(), Some((7, 8)));
    ctx.rewind(mark);
    assert_eq!(ctx.top(), Some((3, 5)));
    ctx.pop();
    assert_eq!(ctx.top(), Some((1, 2)));
    ctx.pop();
    assert_eq!(ctx.top(), None);
}

#[test]
fn commit_keeps_what_was_done() {
    let mut ctx = Context::new();
    ctx.push((1, 2));
    let mark = ctx.mark();
    ctx.pop();
    ctx.push((3, 5));
    ctx.commit();
    assert_eq!(mark, 0);
    assert_eq!(ctx.top(), Some((3, 5)));
    ctx.pop();
    assert_eq!(ctx.top(), None);
}

#[test]
fn an_outer_rewind_undoes_a_committed_scope() {
    let mut ctx = Context::new();
    ctx.push((1, 2));
    let outer = ctx.mark();
    ctx.push((2, 3));
    let _inner = ctx.mark();
    ctx.pop();
    ctx.pop();
    ctx.push((4, 5));
    ctx.commit();
    assert_eq!(ctx.top(), Some((4, 5)));
    ctx.rewind(outer);
    assert_eq!(ctx.top(), Some((1, 2)));
    ctx.pop();
    assert_eq!(ctx.top(), None);
}

#[test]
fn an_inner_rewind_leaves_the_outer_scope_open() {
    let mut ctx = Context::new();
    let outer = ctx.mark();
    ctx.push((1, 2));
    let inner = ctx.mark();
    ctx.pop();
    ctx.rewind(inner);
    assert_eq!(ctx.top(), Some((1, 2)));
    ctx.rewind(outer);
    assert_eq!(ctx.top(), None);
}

#[test]
fn rewind_drops_the_tokens_of_the_scope() {
    let mut ctx = Context::new();
    let first = ctx.open_token("a".to_owned(), 0);
    ctx.close_token(first, 4);
    let mark = ctx.mark();
    let second = ctx.open_token("b".to_owned(), 1);
    ctx.close_token(second, 2);
    assert_eq!(mark, 1);
    ctx.rewind(mark);
    assert_eq!(ctx.into_tokens(), vec![Token { rule: "a".to_owned(), start: 0, end: 4 }]);
}

#[test]
fn tokens_are_opened_closed_and_dropped() {
    let mut ctx = Context::new();
    let outer = ctx.open_token("outer".to_owned(), 2);
    let inner = ctx.open_token("inner".to_owned(), 3);
    let lost = ctx.open_token("lost".to_owned(), 4);
    assert_eq!((outer, inner, lost), (0, 1, 2));
    ctx.drop_token(lost);
    ctx.close_token(inner, 5);
    ctx.close_token(outer, 6);
    assert_eq!(
        ctx.into_tokens(),
        vec![
            Token { rule: "outer".to_owned(), start: 2, end: 6 },
            Token { rule: "inner".to_owned(), start: 3, end: 5 },
        ]
    );
}

#[test]
fn the_furthest_failure_only_grows() {
    let mut ctx = Context::new();
    ctx.fail_at(3);
    assert_eq!(ctx.furthest_failure(), 3);
    ctx.fail_at(1);
    assert_eq!(ctx.furthest_failure(), 3);
    ctx.fail_at(7);
    assert_eq!(ctx.furthest_failure(), 7);
}
