//! The input cursor's one-token-lookahead contract: peeking is idempotent
//! and only `next` advances.

use recursive_ascent::Cursor;

#[test]
fn peek_is_idempotent() {
    let c = Cursor::new(vec!['a', '+', 'a']);
    let first = c.peek();
    let second = c.peek();
    let third = c.peek();
    assert_eq!(first, Some('a'));
    assert_eq!(second, Some('a'));
    assert_eq!(third, Some('a'));
}

#[test]
fn peek_does_not_advance() {
    let mut c = Cursor::new(vec!['a', '*']);
    assert_eq!(c.peek(), Some('a'));
    assert_eq!(c.peek(), Some('a'));
    assert_eq!(c.next(), Some('a'));
    assert_eq!(c.peek(), Some('*'));
    assert_eq!(c.peek(), Some('*'));
    assert_eq!(c.next(), Some('*'));
    assert_eq!(c.peek(), None);
    assert_eq!(c.next(), None);
    assert_eq!(c.peek(), None);
}

#[test]
fn next_consumes_in_order() {
    let mut c = Cursor::new(vec!['(', 'a', ')']);
    assert_eq!(c.next(), Some('('));
    assert_eq!(c.next(), Some('a'));
    assert_eq!(c.next(), Some(')'));
    assert_eq!(c.next(), None);
}

#[test]
fn empty_cursor_yields_nothing() {
    let mut c = Cursor::new(Vec::new());
    assert_eq!(c.peek(), None);
    assert_eq!(c.next(), None);
}
