//! The cached-top stack's discipline: a fresh parser holds only the
//! sentinel, pushes spill the cached top, and pops restore it.

use recursive_ascent::Parser;
use recursive_ascent::StackLabel;
use recursive_ascent::State;

#[test]
fn fresh_parser_holds_the_sentinel() {
    let p = Parser::default();
    assert_eq!(p.peek(), StackLabel::SL0);
    assert_eq!(p.label, State::S0);
}

#[test]
fn push_caches_the_new_top() {
    let mut p = Parser::default();
    p.push(StackLabel::SL5);
    assert_eq!(p.peek(), StackLabel::SL5);
    p.push(StackLabel::SL6);
    assert_eq!(p.peek(), StackLabel::SL6);
}

#[test]
fn pop_restores_the_previous_top() {
    let mut p = Parser::default();
    p.push(StackLabel::SL5);
    p.push(StackLabel::SL7);
    assert_eq!(p.peek(), StackLabel::SL7);
    p.pop();
    assert_eq!(p.peek(), StackLabel::SL5);
    p.pop();
    assert_eq!(p.peek(), StackLabel::SL0);
}
