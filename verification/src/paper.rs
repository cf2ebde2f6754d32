//! The reference engine and its first optimization steps.
//!
//! Every function here parses the same grammar and is proved to return
//! [`parse_spec`]'s classification and to fire exactly [`parse_spec`]'s rule
//! sequence at the sink; the variants differ only in how the automaton is
//! encoded into control flow.

use vstd::pervasive::unreached;
use vstd::prelude::*;

use crate::cursor::Cursor;
use crate::model::Error;
use crate::model::Rule;
use crate::model::Sort;
use crate::model::State;
use crate::model::keep;
use crate::model::lemma_add_empty;
use crate::model::lemma_add_push;
use crate::model::lemma_keep_last;
use crate::model::lemma_keep_push;
use crate::model::lemma_keep_reduce;
use crate::model::lemma_step_fire;
use crate::model::lemma_step_silent;
use crate::model::lemma_wf_push;
use crate::model::lemma_wf_reduce;
use crate::model::outprod;
use crate::model::parse_spec;
use crate::model::pop2;
use crate::model::rank;
use crate::model::run;
use crate::model::top_ok;
use crate::model::tracks;
use crate::model::wf_stack;

verus! {

/// Control labels for the table-goto engine [`parse`]: the goto labels are
/// parameterized by the source state that pushed the inspected stack entry,
/// each carrying the nonterminal whose reduction just fired.
#[derive(Clone, Copy)]
enum TableState {
    S0,
    S1,
    S2,
    S3,
    S4,
    S5,
    S6,
    S7,
    S8,
    S9,
    S10,
    S11,
    S0Goto(Sort),
    S5Goto(Sort),
    S6Goto(Sort),
    S7Goto(Sort),
}

/// The goto label of a nonterminal.
spec fn goto_of(srt: Sort) -> State {
    match srt {
        Sort::E => State::EGoto,
        Sort::T => State::TGoto,
        Sort::F => State::FGoto,
    }
}

/// Which configuration of the model a table-goto label stands at.
spec fn table_spec(l: TableState) -> State {
    match l {
        TableState::S0 => State::S0,
        TableState::S1 => State::S1,
        TableState::S2 => State::S2,
        TableState::S3 => State::S3,
        TableState::S4 => State::S4,
        TableState::S5 => State::S5,
        TableState::S6 => State::S6,
        TableState::S7 => State::S7,
        TableState::S8 => State::S8,
        TableState::S9 => State::S9,
        TableState::S10 => State::S10,
        TableState::S11 => State::S11,
        TableState::S0Goto(srt) => goto_of(srt),
        TableState::S5Goto(srt) => goto_of(srt),
        TableState::S6Goto(srt) => goto_of(srt),
        TableState::S7Goto(srt) => goto_of(srt),
    }
}

/// A goto label is only ever reached with the stack entry it is named after
/// on top, and only with a nonterminal the automaton can produce there.
spec fn table_ok(l: TableState, s: Seq<u8>) -> bool {
    match l {
        TableState::S0Goto(_) => s.len() >= 1 && s.last() == 0,
        TableState::S5Goto(_) => s.len() >= 1 && s.last() == 5,
        TableState::S6Goto(srt) => s.len() >= 1 && s.last() == 6 && srt != Sort::E,
        TableState::S7Goto(srt) => s.len() >= 1 && s.last() == 7 && srt == Sort::F,
        _ => true,
    }
}

/// The canonical engine: goto by table.  Every shift pushes the number of
/// the source state, and each reduction asks the stack top which goto label
/// resolves the nonterminal it produced.
#[verifier::loop_isolation(false)]
pub fn parse(input: &mut Cursor, sink: &mut Vec<Rule>) -> (r: Result<(), Error>)
    requires
        old(input).wf(),
    ensures
        final(input).wf(),
        r == parse_spec(old(input)@).res,
        final(sink)@ == old(sink)@ + parse_spec(old(input)@).rules,
{
    let ghost goal = parse_spec(old(input)@);
    let mut stack: Vec<u8> = Vec::new();
    let mut label = TableState::S0;
    let ghost mut done: Seq<Rule> = Seq::empty();
    proof {
        assert(Seq::<Rule>::empty() + run(State::S0, Seq::empty(), old(input)@).rules
            =~= run(State::S0, Seq::empty(), old(input)@).rules);
    }
    loop
        invariant
            input.wf(),
            (label is S0 && stack@ =~= Seq::<u8>::empty()) || (wf_stack(stack@) && top_ok(
                table_spec(label),
                stack@,
            )),
            table_ok(label, stack@),
            tracks(goal, done, table_spec(label), stack@, input@),
            sink@ == old(sink)@ + done,
        decreases input@.len(), stack@.len(), rank(table_spec(label)),
    {
        let ghost s0 = stack@;
        let ghost i0 = input@;
        match label {
            TableState::S0 => match input.next() {
                Some('a') => {
                    stack.push(0);
                    proof {
                        lemma_step_silent(
                            goal,
                            done,
                            State::S0,
                            s0,
                            i0,
                            State::S4,
                            s0.push(0u8),
                            i0.skip(1),
                        );
                    }
                    label = TableState::S4;
                },
                Some('(') => {
                    stack.push(0);
                    proof {
                        lemma_step_silent(
                            goal,
                            done,
                            State::S0,
                            s0,
                            i0,
                            State::S5,
                            s0.push(0u8),
                            i0.skip(1),
                        );
                    }
                    label = TableState::S5;
                },
                Some(c) => {
                    proof {
                        lemma_add_empty(done);
                    }
                    return Err(Error::Unexpected(c));
                },
                None => {
                    proof {
                        lemma_add_empty(done);
                    }
                    return Err(Error::EOF);
                },
            },
            TableState::S0Goto(srt) => {
                proof {
                    lemma_step_silent(
                        goal,
                        done,
                        goto_of(srt),
                        s0,
                        i0,
                        match srt {
                            Sort::E => State::S1,
                            Sort::T => State::S2,
                            Sort::F => State::S3,
                        },
                        s0,
                        i0,
                    );
                }
                label = match srt {
                    Sort::E => TableState::S1,
                    Sort::T => TableState::S2,
                    Sort::F => TableState::S3,
                };
            },
            TableState::S1 => match input.next() {
                Some('+') => {
                    stack.push(1);
                    proof {
                        lemma_wf_push(s0, 1u8);
                        lemma_step_silent(
                            goal,
                            done,
                            State::S1,
                            s0,
                            i0,
                            State::S6,
                            s0.push(1u8),
                            i0.skip(1),
                        );
                    }
                    label = TableState::S6;
                },
                Some(c) => {
                    proof {
                        lemma_add_empty(done);
                    }
                    return Err(Error::Unexpected(c));
                },
                None => {
                    outprod(sink, Rule::SE);
                    proof {
                        lemma_add_push(old(sink)@, done, Rule::SE);
                        assert(done.push(Rule::SE) =~= done + seq![Rule::SE]);
                    }
                    return Ok(());
                },
            },
            TableState::S2 => match input.peek() {
                Some('*') => {
                    let _ = input.next();
                    stack.push(2);
                    proof {
                        lemma_wf_push(s0, 2u8);
                        lemma_step_silent(
                            goal,
                            done,
                            State::S2,
                            s0,
                            i0,
                            State::S7,
                            s0.push(2u8),
                            i0.skip(1),
                        );
                    }
                    label = TableState::S7;
                },
                _ => {
                    outprod(sink, Rule::ET);
                    proof {
                        lemma_add_push(old(sink)@, done, Rule::ET);
                        lemma_step_fire(goal, done, State::S2, s0, i0, Rule::ET, State::EGoto, s0, i0);
                        done = done.push(Rule::ET);
                    }
                    let t = stack[stack.len() - 1];
                    label = if t == 0 {
                        TableState::S0Goto(Sort::E)
                    } else if t == 5 {
                        TableState::S5Goto(Sort::E)
                    } else {
                        return unreached();
                    };
                },
            },
            TableState::S3 => {
                outprod(sink, Rule::TF);
                proof {
                    lemma_add_push(old(sink)@, done, Rule::TF);
                    lemma_step_fire(goal, done, State::S3, s0, i0, Rule::TF, State::TGoto, s0, i0);
                    done = done.push(Rule::TF);
                }
                let t = stack[stack.len() - 1];
                label = if t == 0 {
                    TableState::S0Goto(Sort::T)
                } else if t == 5 {
                    TableState::S5Goto(Sort::T)
                } else if t == 6 {
                    TableState::S6Goto(Sort::T)
                } else {
                    return unreached();
                };
            },
            TableState::S4 => {
                outprod(sink, Rule::FA);
                proof {
                    lemma_add_push(old(sink)@, done, Rule::FA);
                    lemma_step_fire(goal, done, State::S4, s0, i0, Rule::FA, State::FGoto, s0, i0);
                    done = done.push(Rule::FA);
                }
                let t = stack[stack.len() - 1];
                label = if t == 0 {
                    TableState::S0Goto(Sort::F)
                } else if t == 5 {
                    TableState::S5Goto(Sort::F)
                } else if t == 6 {
                    TableState::S6Goto(Sort::F)
                } else if t == 7 {
                    TableState::S7Goto(Sort::F)
                } else {
                    return unreached();
                };
            },
            TableState::S5 => match input.next() {
                Some('a') => {
                    stack.push(5);
                    proof {
                        lemma_wf_push(s0, 5u8);
                        lemma_step_silent(
                            goal,
                            done,
                            State::S5,
                            s0,
                            i0,
                            State::S4,
                            s0.push(5u8),
                            i0.skip(1),
                        );
                    }
                    label = TableState::S4;
                },
                Some('(') => {
                    stack.push(5);
                    proof {
                        lemma_wf_push(s0, 5u8);
                        lemma_step_silent(
                            goal,
                            done,
                            State::S5,
                            s0,
                            i0,
                            State::S5,
                            s0.push(5u8),
                            i0.skip(1),
                        );
                    }
                    label = TableState::S5;  // (self)
                },
                Some(c) => {
                    proof {
                        lemma_add_empty(done);
                    }
                    return Err(Error::Unexpected(c));
                },
                None => {
                    proof {
                        lemma_add_empty(done);
                    }
                    return Err(Error::EOF);
                },
            },
            TableState::S5Goto(srt) => {
                proof {
                    lemma_step_silent(
                        goal,
                        done,
                        goto_of(srt),
                        s0,
                        i0,
                        match srt {
                            Sort::E => State::S8,
                            Sort::T => State::S2,
                            Sort::F => State::S3,
                        },
                        s0,
                        i0,
                    );
                }
                label = match srt {
                    Sort::E => TableState::S8,
                    Sort::T => TableState::S2,
                    Sort::F => TableState::S3,
                };
            },
            TableState::S6 => match input.next() {
                Some('a') => {
                    stack.push(6);
                    proof {
                        lemma_wf_push(s0, 6u8);
                        lemma_step_silent(
                            goal,
                            done,
                            State::S6,
                            s0,
                            i0,
                            State::S4,
                            s0.push(6u8),
                            i0.skip(1),
                        );
                    }
                    label = TableState::S4;
                },
                Some('(') => {
                    stack.push(6);
                    proof {
                        lemma_wf_push(s0, 6u8);
                        lemma_step_silent(
                            goal,
                            done,
                            State::S6,
                            s0,
                            i0,
                            State::S5,
                            s0.push(6u8),
                            i0.skip(1),
                        );
                    }
                    label = TableState::S5;
                },
                Some(c) => {
                    proof {
                        lemma_add_empty(done);
                    }
                    return Err(Error::Unexpected(c));
                },
                None => {
                    proof {
                        lemma_add_empty(done);
                    }
                    return Err(Error::EOF);
                },
            },
            TableState::S6Goto(srt) => {
                match srt {
                    Sort::T => {
                        proof {
                            lemma_step_silent(goal, done, State::TGoto, s0, i0, State::S9, s0, i0);
                        }
                        label = TableState::S9;
                    },
                    Sort::F => {
                        proof {
                            lemma_step_silent(goal, done, State::FGoto, s0, i0, State::S3, s0, i0);
                        }
                        label = TableState::S3;
                    },
                    Sort::E => {
                        return unreached();
                    },
                }
            },
            TableState::S7 => match input.next() {
                Some('a') => {
                    stack.push(7);
                    proof {
                        lemma_wf_push(s0, 7u8);
                        lemma_step_silent(
                            goal,
                            done,
                            State::S7,
                            s0,
                            i0,
                            State::S4,
                            s0.push(7u8),
                            i0.skip(1),
                        );
                    }
                    label = TableState::S4;
                },
                Some('(') => {
                    stack.push(7);
                    proof {
                        lemma_wf_push(s0, 7u8);
                        lemma_step_silent(
                            goal,
                            done,
                            State::S7,
                            s0,
                            i0,
                            State::S5,
                            s0.push(7u8),
                            i0.skip(1),
                        );
                    }
                    label = TableState::S5;
                },
                Some(c) => {
                    proof {
                        lemma_add_empty(done);
                    }
                    return Err(Error::Unexpected(c));
                },
                None => {
                    proof {
                        lemma_add_empty(done);
                    }
                    return Err(Error::EOF);
                },
            },
            TableState::S7Goto(_) => {
                proof {
                    lemma_step_silent(goal, done, State::FGoto, s0, i0, State::S10, s0, i0);
                }
                label = TableState::S10;
            },
            TableState::S8 => match input.next() {
                Some('+') => {
                    stack.push(8);
                    proof {
                        lemma_wf_push(s0, 8u8);
                        lemma_step_silent(
                            goal,
                            done,
                            State::S8,
                            s0,
                            i0,
                            State::S6,
                            s0.push(8u8),
                            i0.skip(1),
                        );
                    }
                    label = TableState::S6;
                },
                Some(')') => {
                    stack.push(8);
                    proof {
                        lemma_wf_push(s0, 8u8);
                        lemma_step_silent(
                            goal,
                            done,
                            State::S8,
                            s0,
                            i0,
                            State::S11,
                            s0.push(8u8),
                            i0.skip(1),
                        );
                    }
                    label = TableState::S11;
                },
                Some(c) => {
                    proof {
                        lemma_add_empty(done);
                    }
                    return Err(Error::Unexpected(c));
                },
                None => {
                    proof {
                        lemma_add_empty(done);
                    }
                    return Err(Error::EOF);
                },
            },
            TableState::S9 => match input.peek() {
                Some('*') => {
                    let _ = input.next();
                    stack.push(9);
                    proof {
                        lemma_wf_push(s0, 9u8);
                        lemma_step_silent(
                            goal,
                            done,
                            State::S9,
                            s0,
                            i0,
                            State::S7,
                            s0.push(9u8),
                            i0.skip(1),
                        );
                    }
                    label = TableState::S7;
                },
                _ => {
                    proof {
                        lemma_wf_reduce(s0);
                    }
                    let _ = stack.pop();  // 6
                    let _ = stack.pop();  // 1 or 8
                    outprod(sink, Rule::EET);
                    proof {
                        assert(stack@ =~= pop2(s0));
                        lemma_add_push(old(sink)@, done, Rule::EET);
                        lemma_step_fire(
                            goal,
                            done,
                            State::S9,
                            s0,
                            i0,
                            Rule::EET,
                            State::EGoto,
                            pop2(s0),
                            i0,
                        );
                        done = done.push(Rule::EET);
                    }
                    let t = stack[stack.len() - 1];
                    label = if t == 0 {
                        TableState::S0Goto(Sort::E)
                    } else if t == 5 {
                        TableState::S5Goto(Sort::E)
                    } else {
                        return unreached();
                    };
                },
            },
            TableState::S10 => {
                proof {
                    lemma_wf_reduce(s0);
                }
                let _ = stack.pop();  // 7
                let _ = stack.pop();  // 2 or 9
                outprod(sink, Rule::TTF);
                proof {
                    assert(stack@ =~= pop2(s0));
                    lemma_add_push(old(sink)@, done, Rule::TTF);
                    lemma_step_fire(
                        goal,
                        done,
                        State::S10,
                        s0,
                        i0,
                        Rule::TTF,
                        State::TGoto,
                        pop2(s0),
                        i0,
                    );
                    done = done.push(Rule::TTF);
                }
                let t = stack[stack.len() - 1];
                label = if t == 0 {
                    TableState::S0Goto(Sort::T)
                } else if t == 5 {
                    TableState::S5Goto(Sort::T)
                } else if t == 6 {
                    TableState::S6Goto(Sort::T)
                } else {
                    return unreached();
                };
            },
            TableState::S11 => {
                proof {
                    lemma_wf_reduce(s0);
                }
                let _ = stack.pop();  // 8
                let _ = stack.pop();  // 5
                outprod(sink, Rule::FParen);
                proof {
                    assert(stack@ =~= pop2(s0));
                    lemma_add_push(old(sink)@, done, Rule::FParen);
                    lemma_step_fire(
                        goal,
                        done,
                        State::S11,
                        s0,
                        i0,
                        Rule::FParen,
                        State::FGoto,
                        pop2(s0),
                        i0,
                    );
                    done = done.push(Rule::FParen);
                }
                let t = stack[stack.len() - 1];
                label = if t == 0 {
                    TableState::S0Goto(Sort::F)
                } else if t == 5 {
                    TableState::S5Goto(Sort::F)
                } else if t == 6 {
                    TableState::S6Goto(Sort::F)
                } else if t == 7 {
                    TableState::S7Goto(Sort::F)
                } else {
                    return unreached();
                };
            },
        }
    }
}

/// Goto by stack inspection: a reduction jumps to the goto label of the
/// nonterminal it produced, and that label asks the stack top where control
/// returns — instead of the stack top asking which nonterminal arrived.
#[verifier::loop_isolation(false)]
pub fn parse_reverse_goto(input: &mut Cursor, sink: &mut Vec<Rule>) -> (r: Result<(), Error>)
    requires
        old(input).wf(),
    ensures
        final(input).wf(),
        r == parse_spec(old(input)@).res,
        final(sink)@ == old(sink)@ + parse_spec(old(input)@).rules,
{
    let ghost goal = parse_spec(old(input)@);
    let mut stack: Vec<u8> = Vec::new();
    let mut label = State::S0;
    let ghost mut done: Seq<Rule> = Seq::empty();
    proof {
        assert(Seq::<Rule>::empty() + run(State::S0, Seq::empty(), old(input)@).rules
            =~= run(State::S0, Seq::empty(), old(input)@).rules);
    }
    loop
        invariant
            input.wf(),
            (label == State::S0 && stack@ =~= Seq::<u8>::empty()) || (wf_stack(stack@) && top_ok(
                label,
                stack@,
            )),
            tracks(goal, done, label, stack@, input@),
            sink@ == old(sink)@ + done,
        decreases input@.len(), stack@.len(), rank(label),
    {
        let ghost s0 = stack@;
        let ghost i0 = input@;
        match label {
            State::S0 => match input.next() {
                Some('a') => {
                    stack.push(0);
                    proof {
                        lemma_step_silent(
                            goal,
                            done,
                            State::S0,
                            s0,
                            i0,
                            State::S4,
                            s0.push(0u8),
                            i0.skip(1),
                        );
                    }
                    label = State::S4;
                },
                Some('(') => {
                    stack.push(0);
                    proof {
                        lemma_step_silent(
                            goal,
                            done,
                            State::S0,
                            s0,
                            i0,
                            State::S5,
                            s0.push(0u8),
                            i0.skip(1),
                        );
                    }
                    label = State::S5;
                },
                Some(c) => {
                    proof {
                        lemma_add_empty(done);
                    }
                    return Err(Error::Unexpected(c));
                },
                None => {
                    proof {
                        lemma_add_empty(done);
                    }
                    return Err(Error::EOF);
                },
            },
            State::S1 => match input.next() {
                Some('+') => {
                    stack.push(1);
                    proof {
                        lemma_wf_push(s0, 1u8);
                        lemma_step_silent(
                            goal,
                            done,
                            State::S1,
                            s0,
                            i0,
                            State::S6,
                            s0.push(1u8),
                            i0.skip(1),
                        );
                    }
                    label = State::S6;
                },
                Some(c) => {
                    proof {
                        lemma_add_empty(done);
                    }
                    return Err(Error::Unexpected(c));
                },
                None => {
                    outprod(sink, Rule::SE);
                    proof {
                        lemma_add_push(old(sink)@, done, Rule::SE);
                        assert(done.push(Rule::SE) =~= done + seq![Rule::SE]);
                    }
                    return Ok(());
                },
            },
            State::S2 => match input.peek() {
                Some('*') => {
                    let _ = input.next();
                    stack.push(2);
                    proof {
                        lemma_wf_push(s0, 2u8);
                        lemma_step_silent(
                            goal,
                            done,
                            State::S2,
                            s0,
                            i0,
                            State::S7,
                            s0.push(2u8),
                            i0.skip(1),
                        );
                    }
                    label = State::S7;
                },
                _ => {
                    outprod(sink, Rule::ET);
                    proof {
                        lemma_add_push(old(sink)@, done, Rule::ET);
                        lemma_step_fire(goal, done, State::S2, s0, i0, Rule::ET, State::EGoto, s0, i0);
                        done = done.push(Rule::ET);
                    }
                    label = State::EGoto;
                },
            },
            State::S3 => {
                outprod(sink, Rule::TF);
                proof {
                    lemma_add_push(old(sink)@, done, Rule::TF);
                    lemma_step_fire(goal, done, State::S3, s0, i0, Rule::TF, State::TGoto, s0, i0);
                    done = done.push(Rule::TF);
                }
                label = State::TGoto;
            },
            State::S4 => {
                outprod(sink, Rule::FA);
                proof {
                    lemma_add_push(old(sink)@, done, Rule::FA);
                    lemma_step_fire(goal, done, State::S4, s0, i0, Rule::FA, State::FGoto, s0, i0);
                    done = done.push(Rule::FA);
                }
                label = State::FGoto;
            },
            State::S5 => match input.next() {
                Some('a') => {
                    stack.push(5);
                    proof {
                        lemma_wf_push(s0, 5u8);
                        lemma_step_silent(
                            goal,
                            done,
                            State::S5,
                            s0,
                            i0,
                            State::S4,
                            s0.push(5u8),
                            i0.skip(1),
                        );
                    }
                    label = State::S4;
                },
                Some('(') => {
                    stack.push(5);
                    proof {
                        lemma_wf_push(s0, 5u8);
                        lemma_step_silent(
                            goal,
                            done,
                            State::S5,
                            s0,
                            i0,
                            State::S5,
                            s0.push(5u8),
                            i0.skip(1),
                        );
                    }
                    label = State::S5;  // (self)
                },
                Some(c) => {
                    proof {
                        lemma_add_empty(done);
                    }
                    return Err(Error::Unexpected(c));
                },
                None => {
                    proof {
                        lemma_add_empty(done);
                    }
                    return Err(Error::EOF);
                },
            },
            State::S6 => match input.next() {
                Some('a') => {
                    stack.push(6);
                    proof {
                        lemma_wf_push(s0, 6u8);
                        lemma_step_silent(
                            goal,
                            done,
                            State::S6,
                            s0,
                            i0,
                            State::S4,
                            s0.push(6u8),
                            i0.skip(1),
                        );
                    }
                    label = State::S4;
                },
                Some('(') => {
                    stack.push(6);
                    proof {
                        lemma_wf_push(s0, 6u8);
                        lemma_step_silent(
                            goal,
                            done,
                            State::S6,
                            s0,
                            i0,
                            State::S5,
                            s0.push(6u8),
                            i0.skip(1),
                        );
                    }
                    label = State::S5;
                },
                Some(c) => {
                    proof {
                        lemma_add_empty(done);
                    }
                    return Err(Error::Unexpected(c));
                },
                None => {
                    proof {
                        lemma_add_empty(done);
                    }
                    return Err(Error::EOF);
                },
            },
            State::S7 => match input.next() {
                Some('a') => {
                    stack.push(7);
                    proof {
                        lemma_wf_push(s0, 7u8);
                        lemma_step_silent(
                            goal,
                            done,
                            State::S7,
                            s0,
                            i0,
                            State::S4,
                            s0.push(7u8),
                            i0.skip(1),
                        );
                    }
                    label = State::S4;
                },
                Some('(') => {
                    stack.push(7);
                    proof {
                        lemma_wf_push(s0, 7u8);
                        lemma_step_silent(
                            goal,
                            done,
                            State::S7,
                            s0,
                            i0,
                            State::S5,
                            s0.push(7u8),
                            i0.skip(1),
                        );
                    }
                    label = State::S5;
                },
                Some(c) => {
                    proof {
                        lemma_add_empty(done);
                    }
                    return Err(Error::Unexpected(c));
                },
                None => {
                    proof {
                        lemma_add_empty(done);
                    }
                    return Err(Error::EOF);
                },
            },
            State::S8 => match input.next() {
                Some('+') => {
                    stack.push(8);
                    proof {
                        lemma_wf_push(s0, 8u8);
                        lemma_step_silent(
                            goal,
                            done,
                            State::S8,
                            s0,
                            i0,
                            State::S6,
                            s0.push(8u8),
                            i0.skip(1),
                        );
                    }
                    label = State::S6;
                },
                Some(')') => {
                    stack.push(8);
                    proof {
                        lemma_wf_push(s0, 8u8);
                        lemma_step_silent(
                            goal,
                            done,
                            State::S8,
                            s0,
                            i0,
                            State::S11,
                            s0.push(8u8),
                            i0.skip(1),
                        );
                    }
                    label = State::S11;
                },
                Some(c) => {
                    proof {
                        lemma_add_empty(done);
                    }
                    return Err(Error::Unexpected(c));
                },
                None => {
                    proof {
                        lemma_add_empty(done);
                    }
                    return Err(Error::EOF);
                },
            },
            State::S9 => match input.peek() {
                Some('*') => {
                    let _ = input.next();
                    stack.push(9);
                    proof {
                        lemma_wf_push(s0, 9u8);
                        lemma_step_silent(
                            goal,
                            done,
                            State::S9,
                            s0,
                            i0,
                            State::S7,
                            s0.push(9u8),
                            i0.skip(1),
                        );
                    }
                    label = State::S7;
                },
                _ => {
                    proof {
                        lemma_wf_reduce(s0);
                    }
                    let _ = stack.pop();  // 6
                    let _ = stack.pop();  // 1 or 8
                    outprod(sink, Rule::EET);
                    proof {
                        assert(stack@ =~= pop2(s0));
                        lemma_add_push(old(sink)@, done, Rule::EET);
                        lemma_step_fire(
                            goal,
                            done,
                            State::S9,
                            s0,
                            i0,
                            Rule::EET,
                            State::EGoto,
                            pop2(s0),
                            i0,
                        );
                        done = done.push(Rule::EET);
                    }
                    label = State::EGoto;
                },
            },
            State::S10 => {
                proof {
                    lemma_wf_reduce(s0);
                }
                let _ = stack.pop();  // 7
                let _ = stack.pop();  // 2 or 9
                outprod(sink, Rule::TTF);
                proof {
                    assert(stack@ =~= pop2(s0));
                    lemma_add_push(old(sink)@, done, Rule::TTF);
                    lemma_step_fire(
                        goal,
                        done,
                        State::S10,
                        s0,
                        i0,
                        Rule::TTF,
                        State::TGoto,
                        pop2(s0),
                        i0,
                    );
                    done = done.push(Rule::TTF);
                }
                label = State::TGoto;
            },
            State::S11 => {
                proof {
                    lemma_wf_reduce(s0);
                }
                let _ = stack.pop();  // 8
                let _ = stack.pop();  // 5
                outprod(sink, Rule::FParen);
                proof {
                    assert(stack@ =~= pop2(s0));
                    lemma_add_push(old(sink)@, done, Rule::FParen);
                    lemma_step_fire(
                        goal,
                        done,
                        State::S11,
                        s0,
                        i0,
                        Rule::FParen,
                        State::FGoto,
                        pop2(s0),
                        i0,
                    );
                    done = done.push(Rule::FParen);
                }
                label = State::FGoto;
            },
            State::EGoto => {
                let t = stack[stack.len() - 1];
                if t == 5 {
                    proof {
                        lemma_step_silent(goal, done, State::EGoto, s0, i0, State::S8, s0, i0);
                    }
                    label = State::S8;
                } else {
                    proof {
                        lemma_step_silent(goal, done, State::EGoto, s0, i0, State::S1, s0, i0);
                    }
                    label = State::S1;
                }
            },
            State::TGoto => {
                let t = stack[stack.len() - 1];
                if t == 6 {
                    proof {
                        lemma_step_silent(goal, done, State::TGoto, s0, i0, State::S9, s0, i0);
                    }
                    label = State::S9;
                } else {
                    proof {
                        lemma_step_silent(goal, done, State::TGoto, s0, i0, State::S2, s0, i0);
                    }
                    label = State::S2;
                }
            },
            State::FGoto => {
                let t = stack[stack.len() - 1];
                if t == 7 {
                    proof {
                        lemma_step_silent(goal, done, State::FGoto, s0, i0, State::S10, s0, i0);
                    }
                    label = State::S10;
                } else {
                    proof {
                        lemma_step_silent(goal, done, State::FGoto, s0, i0, State::S3, s0, i0);
                    }
                    label = State::S3;
                }
            },
        }
    }
}

/// Chain elimination: `S3` and `S4`, whose bodies only fired a reduction
/// and forwarded to a goto label, are inlined into every site that reached
/// them, and the goto that follows is resolved on the spot where the stack
/// top is already known.  The two labels become structurally unreachable.
#[verifier::loop_isolation(false)]
pub fn parse_chain_elim(input: &mut Cursor, sink: &mut Vec<Rule>) -> (r: Result<(), Error>)
    requires
        old(input).wf(),
    ensures
        final(input).wf(),
        r == parse_spec(old(input)@).res,
        final(sink)@ == old(sink)@ + parse_spec(old(input)@).rules,
{
    let ghost goal = parse_spec(old(input)@);
    let mut stack: Vec<u8> = Vec::new();
    let mut label = State::S0;
    let ghost mut done: Seq<Rule> = Seq::empty();
    proof {
        assert(Seq::<Rule>::empty() + run(State::S0, Seq::empty(), old(input)@).rules
            =~= run(State::S0, Seq::empty(), old(input)@).rules);
    }
    loop
        invariant
            input.wf(),
            (label is S0 && stack@ =~= Seq::<u8>::empty()) || (wf_stack(stack@) && top_ok(
                label,
                stack@,
            )),
            !(label is S3) && !(label is S4),
            tracks(goal, done, label, stack@, input@),
            sink@ == old(sink)@ + done,
        decreases input@.len(), stack@.len(), rank(label),
    {
        let ghost s0 = stack@;
        let ghost i0 = input@;
        match label {
            State::S0 => match input.next() {
                Some('a') => {
                    stack.push(0);
                    let ghost s1 = s0.push(0u8);
                    let ghost i1 = i0.skip(1);
                    proof {
                        lemma_step_silent(goal, done, State::S0, s0, i0, State::S4, s1, i1);
                    }
                    outprod(sink, Rule::FA);
                    proof {
                        lemma_add_push(old(sink)@, done, Rule::FA);
                        lemma_step_fire(goal, done, State::S4, s1, i1, Rule::FA, State::FGoto, s1, i1);
                        done = done.push(Rule::FA);
                        lemma_step_silent(goal, done, State::FGoto, s1, i1, State::S3, s1, i1);
                    }
                    outprod(sink, Rule::TF);
                    proof {
                        lemma_add_push(old(sink)@, done, Rule::TF);
                        lemma_step_fire(goal, done, State::S3, s1, i1, Rule::TF, State::TGoto, s1, i1);
                        done = done.push(Rule::TF);
                        lemma_step_silent(goal, done, State::TGoto, s1, i1, State::S2, s1, i1);
                    }
                    label = State::S2;
                },
                Some('(') => {
                    stack.push(0);
                    proof {
                        lemma_step_silent(
                            goal,
                            done,
                            State::S0,
                            s0,
                            i0,
                            State::S5,
                            s0.push(0u8),
                            i0.skip(1),
                        );
                    }
                    label = State::S5;
                },
                Some(c) => {
                    proof {
                        lemma_add_empty(done);
                    }
                    return Err(Error::Unexpected(c));
                },
                None => {
                    proof {
                        lemma_add_empty(done);
                    }
                    return Err(Error::EOF);
                },
            },
            State::S1 => match input.next() {
                Some('+') => {
                    stack.push(1);
                    proof {
                        lemma_wf_push(s0, 1u8);
                        lemma_step_silent(
                            goal,
                            done,
                            State::S1,
                            s0,
                            i0,
                            State::S6,
                            s0.push(1u8),
                            i0.skip(1),
                        );
                    }
                    label = State::S6;
                },
                Some(c) => {
                    proof {
                        lemma_add_empty(done);
                    }
                    return Err(Error::Unexpected(c));
                },
                None => {
                    outprod(sink, Rule::SE);
                    proof {
                        lemma_add_push(old(sink)@, done, Rule::SE);
                        assert(done.push(Rule::SE) =~= done + seq![Rule::SE]);
                    }
                    return Ok(());
                },
            },
            State::S2 => match input.peek() {
                Some('*') => {
                    let _ = input.next();
                    stack.push(2);
                    proof {
                        lemma_wf_push(s0, 2u8);
                        lemma_step_silent(
                            goal,
                            done,
                            State::S2,
                            s0,
                            i0,
                            State::S7,
                            s0.push(2u8),
                            i0.skip(1),
                        );
                    }
                    label = State::S7;
                },
                _ => {
                    outprod(sink, Rule::ET);
                    proof {
                        lemma_add_push(old(sink)@, done, Rule::ET);
                        lemma_step_fire(goal, done, State::S2, s0, i0, Rule::ET, State::EGoto, s0, i0);
                        done = done.push(Rule::ET);
                    }
                    label = State::EGoto;
                },
            },
            State::S5 => match input.next() {
                Some('a') => {
                    stack.push(5);
                    let ghost s1 = s0.push(5u8);
                    let ghost i1 = i0.skip(1);
                    proof {
                        lemma_wf_push(s0, 5u8);
                        lemma_step_silent(goal, done, State::S5, s0, i0, State::S4, s1, i1);
                    }
                    outprod(sink, Rule::FA);
                    proof {
                        lemma_add_push(old(sink)@, done, Rule::FA);
                        lemma_step_fire(goal, done, State::S4, s1, i1, Rule::FA, State::FGoto, s1, i1);
                        done = done.push(Rule::FA);
                        lemma_step_silent(goal, done, State::FGoto, s1, i1, State::S3, s1, i1);
                    }
                    outprod(sink, Rule::TF);
                    proof {
                        lemma_add_push(old(sink)@, done, Rule::TF);
                        lemma_step_fire(goal, done, State::S3, s1, i1, Rule::TF, State::TGoto, s1, i1);
                        done = done.push(Rule::TF);
                        lemma_step_silent(goal, done, State::TGoto, s1, i1, State::S2, s1, i1);
                    }
                    label = State::S2;
                },
                Some('(') => {
                    stack.push(5);
                    proof {
                        lemma_wf_push(s0, 5u8);
                        lemma_step_silent(
                            goal,
                            done,
                            State::S5,
                            s0,
                            i0,
                            State::S5,
                            s0.push(5u8),
                            i0.skip(1),
                        );
                    }
                    label = State::S5;  // (self)
                },
                Some(c) => {
                    proof {
                        lemma_add_empty(done);
                    }
                    return Err(Error::Unexpected(c));
                },
                None => {
                    proof {
                        lemma_add_empty(done);
                    }
                    return Err(Error::EOF);
                },
            },
            State::S6 => match input.next() {
                Some('a') => {
                    stack.push(6);
                    let ghost s1 = s0.push(6u8);
                    let ghost i1 = i0.skip(1);
                    proof {
                        lemma_wf_push(s0, 6u8);
                        lemma_step_silent(goal, done, State::S6, s0, i0, State::S4, s1, i1);
                    }
                    outprod(sink, Rule::FA);
                    proof {
                        lemma_add_push(old(sink)@, done, Rule::FA);
                        lemma_step_fire(goal, done, State::S4, s1, i1, Rule::FA, State::FGoto, s1, i1);
                        done = done.push(Rule::FA);
                        lemma_step_silent(goal, done, State::FGoto, s1, i1, State::S3, s1, i1);
                    }
                    outprod(sink, Rule::TF);
                    proof {
                        lemma_add_push(old(sink)@, done, Rule::TF);
                        lemma_step_fire(goal, done, State::S3, s1, i1, Rule::TF, State::TGoto, s1, i1);
                        done = done.push(Rule::TF);
                        lemma_step_silent(goal, done, State::TGoto, s1, i1, State::S9, s1, i1);
                    }
                    label = State::S9;
                },
                Some('(') => {
                    stack.push(6);
                    proof {
                        lemma_wf_push(s0, 6u8);
                        lemma_step_silent(
                            goal,
                            done,
                            State::S6,
                            s0,
                            i0,
                            State::S5,
                            s0.push(6u8),
                            i0.skip(1),
                        );
                    }
                    label = State::S5;
                },
                Some(c) => {
                    proof {
                        lemma_add_empty(done);
                    }
                    return Err(Error::Unexpected(c));
                },
                None => {
                    proof {
                        lemma_add_empty(done);
                    }
                    return Err(Error::EOF);
                },
            },
            State::S7 => match input.next() {
                Some('a') => {
                    stack.push(7);
                    let ghost s1 = s0.push(7u8);
                    let ghost i1 = i0.skip(1);
                    proof {
                        lemma_wf_push(s0, 7u8);
                        lemma_step_silent(goal, done, State::S7, s0, i0, State::S4, s1, i1);
                    }
                    outprod(sink, Rule::FA);
                    proof {
                        lemma_add_push(old(sink)@, done, Rule::FA);
                        lemma_step_fire(goal, done, State::S4, s1, i1, Rule::FA, State::FGoto, s1, i1);
                        done = done.push(Rule::FA);
                        lemma_step_silent(goal, done, State::FGoto, s1, i1, State::S10, s1, i1);
                    }
                    label = State::S10;
                },
                Some('(') => {
                    stack.push(7);
                    proof {
                        lemma_wf_push(s0, 7u8);
                        lemma_step_silent(
                            goal,
                            done,
                            State::S7,
                            s0,
                            i0,
                            State::S5,
                            s0.push(7u8),
                            i0.skip(1),
                        );
                    }
                    label = State::S5;
                },
                Some(c) => {
                    proof {
                        lemma_add_empty(done);
                    }
                    return Err(Error::Unexpected(c));
                },
                None => {
                    proof {
                        lemma_add_empty(done);
                    }
                    return Err(Error::EOF);
                },
            },
            State::S8 => match input.next() {
                Some('+') => {
                    stack.push(8);
                    proof {
                        lemma_wf_push(s0, 8u8);
                        lemma_step_silent(
                            goal,
                            done,
                            State::S8,
                            s0,
                            i0,
                            State::S6,
                            s0.push(8u8),
                            i0.skip(1),
                        );
                    }
                    label = State::S6;
                },
                Some(')') => {
                    stack.push(8);
                    proof {
                        lemma_wf_push(s0, 8u8);
                        lemma_step_silent(
                            goal,
                            done,
                            State::S8,
                            s0,
                            i0,
                            State::S11,
                            s0.push(8u8),
                            i0.skip(1),
                        );
                    }
                    label = State::S11;
                },
                Some(c) => {
                    proof {
                        lemma_add_empty(done);
                    }
                    return Err(Error::Unexpected(c));
                },
                None => {
                    proof {
                        lemma_add_empty(done);
                    }
                    return Err(Error::EOF);
                },
            },
            State::S9 => match input.peek() {
                Some('*') => {
                    let _ = input.next();
                    stack.push(9);
                    proof {
                        lemma_wf_push(s0, 9u8);
                        lemma_step_silent(
                            goal,
                            done,
                            State::S9,
                            s0,
                            i0,
                            State::S7,
                            s0.push(9u8),
                            i0.skip(1),
                        );
                    }
                    label = State::S7;
                },
                _ => {
                    proof {
                        lemma_wf_reduce(s0);
                    }
                    let _ = stack.pop();  // 6
                    let _ = stack.pop();  // 1 or 8
                    outprod(sink, Rule::EET);
                    proof {
                        assert(stack@ =~= pop2(s0));
                        lemma_add_push(old(sink)@, done, Rule::EET);
                        lemma_step_fire(
                            goal,
                            done,
                            State::S9,
                            s0,
                            i0,
                            Rule::EET,
                            State::EGoto,
                            pop2(s0),
                            i0,
                        );
                        done = done.push(Rule::EET);
                    }
                    label = State::EGoto;
                },
            },
            State::S10 => {
                proof {
                    lemma_wf_reduce(s0);
                }
                let _ = stack.pop();  // 7
                let _ = stack.pop();  // 2 or 9
                outprod(sink, Rule::TTF);
                proof {
                    assert(stack@ =~= pop2(s0));
                    lemma_add_push(old(sink)@, done, Rule::TTF);
                    lemma_step_fire(
                        goal,
                        done,
                        State::S10,
                        s0,
                        i0,
                        Rule::TTF,
                        State::TGoto,
                        pop2(s0),
                        i0,
                    );
                    done = done.push(Rule::TTF);
                }
                label = State::TGoto;
            },
            State::S11 => {
                proof {
                    lemma_wf_reduce(s0);
                }
                let _ = stack.pop();  // 8
                let _ = stack.pop();  // 5
                outprod(sink, Rule::FParen);
                proof {
                    assert(stack@ =~= pop2(s0));
                    lemma_add_push(old(sink)@, done, Rule::FParen);
                    lemma_step_fire(
                        goal,
                        done,
                        State::S11,
                        s0,
                        i0,
                        Rule::FParen,
                        State::FGoto,
                        pop2(s0),
                        i0,
                    );
                    done = done.push(Rule::FParen);
                }
                label = State::FGoto;
            },
            State::EGoto => {
                let t = stack[stack.len() - 1];
                if t == 5 {
                    proof {
                        lemma_step_silent(goal, done, State::EGoto, s0, i0, State::S8, s0, i0);
                    }
                    label = State::S8;
                } else {
                    proof {
                        lemma_step_silent(goal, done, State::EGoto, s0, i0, State::S1, s0, i0);
                    }
                    label = State::S1;
                }
            },
            State::TGoto => {
                let t = stack[stack.len() - 1];
                if t == 6 {
                    proof {
                        lemma_step_silent(goal, done, State::TGoto, s0, i0, State::S9, s0, i0);
                    }
                    label = State::S9;
                } else {
                    proof {
                        lemma_step_silent(goal, done, State::TGoto, s0, i0, State::S2, s0, i0);
                    }
                    label = State::S2;
                }
            },
            State::FGoto => {
                let t = stack[stack.len() - 1];
                if t == 7 {
                    proof {
                        lemma_step_silent(goal, done, State::FGoto, s0, i0, State::S10, s0, i0);
                    }
                    label = State::S10;
                } else {
                    proof {
                        lemma_step_silent(goal, done, State::FGoto, s0, i0, State::S3, s0, i0);
                    }
                    outprod(sink, Rule::TF);
                    proof {
                        lemma_add_push(old(sink)@, done, Rule::TF);
                        lemma_step_fire(goal, done, State::S3, s0, i0, Rule::TF, State::TGoto, s0, i0);
                        done = done.push(Rule::TF);
                    }
                    label = State::TGoto;
                }
            },
            State::S3 | State::S4 => {
                return unreached();
            },
        }
    }
}

/// Minimal pushing: only the stack entries that some goto decision later
/// branches on (`0`, `5`, `6`, `7`) are materialized; the entries that are
/// always popped unseen (`1`, `2`, `8`, `9`) are never pushed, and the pops
/// that would have removed them disappear with them.  The executable stack
/// is the [`keep`] image of the canonical one, which lives on as a ghost.
#[verifier::loop_isolation(false)]
pub fn parse_minpush(input: &mut Cursor, sink: &mut Vec<Rule>) -> (r: Result<(), Error>)
    requires
        old(input).wf(),
    ensures
        final(input).wf(),
        r == parse_spec(old(input)@).res,
        final(sink)@ == old(sink)@ + parse_spec(old(input)@).rules,
{
    let ghost goal = parse_spec(old(input)@);
    let mut stack: Vec<u8> = Vec::new();
    let mut label = State::S0;
    let ghost mut gstack: Seq<u8> = Seq::empty();
    let ghost mut done: Seq<Rule> = Seq::empty();
    proof {
        assert(keep(Seq::<u8>::empty()) == Seq::<u8>::empty());
        assert(Seq::<Rule>::empty() + run(State::S0, Seq::empty(), old(input)@).rules
            =~= run(State::S0, Seq::empty(), old(input)@).rules);
    }
    loop
        invariant
            input.wf(),
            (label is S0 && gstack =~= Seq::<u8>::empty()) || (wf_stack(gstack) && top_ok(
                label,
                gstack,
            )),
            !(label is S3) && !(label is S4),
            stack@ == keep(gstack),
            tracks(goal, done, label, gstack, input@),
            sink@ == old(sink)@ + done,
        decreases input@.len(), gstack.len(), rank(label),
    {
        let ghost g0 = gstack;
        let ghost i0 = input@;
        match label {
            State::S0 => match input.next() {
                Some('a') => {
                    stack.push(0);
                    let ghost g1 = g0.push(0u8);
                    let ghost i1 = i0.skip(1);
                    proof {
                        lemma_keep_push(g0, 0u8);
                        lemma_step_silent(goal, done, State::S0, g0, i0, State::S4, g1, i1);
                    }
                    outprod(sink, Rule::FA);
                    proof {
                        lemma_add_push(old(sink)@, done, Rule::FA);
                        lemma_step_fire(goal, done, State::S4, g1, i1, Rule::FA, State::FGoto, g1, i1);
                        done = done.push(Rule::FA);
                        lemma_step_silent(goal, done, State::FGoto, g1, i1, State::S3, g1, i1);
                    }
                    outprod(sink, Rule::TF);
                    proof {
                        lemma_add_push(old(sink)@, done, Rule::TF);
                        lemma_step_fire(goal, done, State::S3, g1, i1, Rule::TF, State::TGoto, g1, i1);
                        done = done.push(Rule::TF);
                        lemma_step_silent(goal, done, State::TGoto, g1, i1, State::S2, g1, i1);
                        gstack = g1;
                    }
                    label = State::S2;
                },
                Some('(') => {
                    stack.push(0);
                    proof {
                        lemma_keep_push(g0, 0u8);
                        lemma_step_silent(
                            goal,
                            done,
                            State::S0,
                            g0,
                            i0,
                            State::S5,
                            g0.push(0u8),
                            i0.skip(1),
                        );
                        gstack = g0.push(0u8);
                    }
                    label = State::S5;
                },
                Some(c) => {
                    proof {
                        lemma_add_empty(done);
                    }
                    return Err(Error::Unexpected(c));
                },
                None => {
                    proof {
                        lemma_add_empty(done);
                    }
                    return Err(Error::EOF);
                },
            },
            State::S1 => match input.next() {
                Some('+') => {
                    proof {
                        lemma_wf_push(g0, 1u8);
                        lemma_keep_push(g0, 1u8);
                        lemma_step_silent(
                            goal,
                            done,
                            State::S1,
                            g0,
                            i0,
                            State::S6,
                            g0.push(1u8),
                            i0.skip(1),
                        );
                        gstack = g0.push(1u8);
                    }
                    label = State::S6;
                },
                Some(c) => {
                    proof {
                        lemma_add_empty(done);
                    }
                    return Err(Error::Unexpected(c));
                },
                None => {
                    outprod(sink, Rule::SE);
                    proof {
                        lemma_add_push(old(sink)@, done, Rule::SE);
                        assert(done.push(Rule::SE) =~= done + seq![Rule::SE]);
                    }
                    return Ok(());
                },
            },
            State::S2 => match input.peek() {
                Some('*') => {
                    let _ = input.next();
                    proof {
                        lemma_wf_push(g0, 2u8);
                        lemma_keep_push(g0, 2u8);
                        lemma_step_silent(
                            goal,
                            done,
                            State::S2,
                            g0,
                            i0,
                            State::S7,
                            g0.push(2u8),
                            i0.skip(1),
                        );
                        gstack = g0.push(2u8);
                    }
                    label = State::S7;
                },
                _ => {
                    outprod(sink, Rule::ET);
                    proof {
                        lemma_add_push(old(sink)@, done, Rule::ET);
                        lemma_step_fire(goal, done, State::S2, g0, i0, Rule::ET, State::EGoto, g0, i0);
                        done = done.push(Rule::ET);
                    }
                    label = State::EGoto;
                },
            },
            State::S5 => match input.next() {
                Some('a') => {
                    stack.push(5);
                    let ghost g1 = g0.push(5u8);
                    let ghost i1 = i0.skip(1);
                    proof {
                        lemma_wf_push(g0, 5u8);
                        lemma_keep_push(g0, 5u8);
                        lemma_step_silent(goal, done, State::S5, g0, i0, State::S4, g1, i1);
                    }
                    outprod(sink, Rule::FA);
                    proof {
                        lemma_add_push(old(sink)@, done, Rule::FA);
                        lemma_step_fire(goal, done, State::S4, g1, i1, Rule::FA, State::FGoto, g1, i1);
                        done = done.push(Rule::FA);
                        lemma_step_silent(goal, done, State::FGoto, g1, i1, State::S3, g1, i1);
                    }
                    outprod(sink, Rule::TF);
                    proof {
                        lemma_add_push(old(sink)@, done, Rule::TF);
                        lemma_step_fire(goal, done, State::S3, g1, i1, Rule::TF, State::TGoto, g1, i1);
                        done = done.push(Rule::TF);
                        lemma_step_silent(goal, done, State::TGoto, g1, i1, State::S2, g1, i1);
                        gstack = g1;
                    }
                    label = State::S2;
                },
                Some('(') => {
                    stack.push(5);
                    proof {
                        lemma_wf_push(g0, 5u8);
                        lemma_keep_push(g0, 5u8);
                        lemma_step_silent(
                            goal,
                            done,
                            State::S5,
                            g0,
                            i0,
                            State::S5,
                            g0.push(5u8),
                            i0.skip(1),
                        );
                        gstack = g0.push(5u8);
                    }
                    label = State::S5;  // (self)
                },
                Some(c) => {
                    proof {
                        lemma_add_empty(done);
                    }
                    return Err(Error::Unexpected(c));
                },
                None => {
                    proof {
                        lemma_add_empty(done);
                    }
                    return Err(Error::EOF);
                },
            },
            State::S6 => match input.next() {
                Some('a') => {
                    stack.push(6);
                    let ghost g1 = g0.push(6u8);
                    let ghost i1 = i0.skip(1);
                    proof {
                        lemma_wf_push(g0, 6u8);
                        lemma_keep_push(g0, 6u8);
                        lemma_step_silent(goal, done, State::S6, g0, i0, State::S4, g1, i1);
                    }
                    outprod(sink, Rule::FA);
                    proof {
                        lemma_add_push(old(sink)@, done, Rule::FA);
                        lemma_step_fire(goal, done, State::S4, g1, i1, Rule::FA, State::FGoto, g1, i1);
                        done = done.push(Rule::FA);
                        lemma_step_silent(goal, done, State::FGoto, g1, i1, State::S3, g1, i1);
                    }
                    outprod(sink, Rule::TF);
                    proof {
                        lemma_add_push(old(sink)@, done, Rule::TF);
                        lemma_step_fire(goal, done, State::S3, g1, i1, Rule::TF, State::TGoto, g1, i1);
                        done = done.push(Rule::TF);
                        lemma_step_silent(goal, done, State::TGoto, g1, i1, State::S9, g1, i1);
                        gstack = g1;
                    }
                    label = State::S9;
                },
                Some('(') => {
                    stack.push(6);
                    proof {
                        lemma_wf_push(g0, 6u8);
                        lemma_keep_push(g0, 6u8);
                        lemma_step_silent(
                            goal,
                            done,
                            State::S6,
                            g0,
                            i0,
                            State::S5,
                            g0.push(6u8),
                            i0.skip(1),
                        );
                        gstack = g0.push(6u8);
                    }
                    label = State::S5;
                },
                Some(c) => {
                    proof {
                        lemma_add_empty(done);
                    }
                    return Err(Error::Unexpected(c));
                },
                None => {
                    proof {
                        lemma_add_empty(done);
                    }
                    return Err(Error::EOF);
                },
            },
            State::S7 => match input.next() {
                Some('a') => {
                    stack.push(7);
                    let ghost g1 = g0.push(7u8);
                    let ghost i1 = i0.skip(1);
                    proof {
                        lemma_wf_push(g0, 7u8);
                        lemma_keep_push(g0, 7u8);
                        lemma_step_silent(goal, done, State::S7, g0, i0, State::S4, g1, i1);
                    }
                    outprod(sink, Rule::FA);
                    proof {
                        lemma_add_push(old(sink)@, done, Rule::FA);
                        lemma_step_fire(goal, done, State::S4, g1, i1, Rule::FA, State::FGoto, g1, i1);
                        done = done.push(Rule::FA);
                        lemma_step_silent(goal, done, State::FGoto, g1, i1, State::S10, g1, i1);
                        gstack = g1;
                    }
                    label = State::S10;
                },
                Some('(') => {
                    stack.push(7);
                    proof {
                        lemma_wf_push(g0, 7u8);
                        lemma_keep_push(g0, 7u8);
                        lemma_step_silent(
                            goal,
                            done,
                            State::S7,
                            g0,
                            i0,
                            State::S5,
                            g0.push(7u8),
                            i0.skip(1),
                        );
                        gstack = g0.push(7u8);
                    }
                    label = State::S5;
                },
                Some(c) => {
                    proof {
                        lemma_add_empty(done);
                    }
                    return Err(Error::Unexpected(c));
                },
                None => {
                    proof {
                        lemma_add_empty(done);
                    }
                    return Err(Error::EOF);
                },
            },
            State::S8 => match input.next() {
                Some('+') => {
                    proof {
                        lemma_wf_push(g0, 8u8);
                        lemma_keep_push(g0, 8u8);
                        lemma_step_silent(
                            goal,
                            done,
                            State::S8,
                            g0,
                            i0,
                            State::S6,
                            g0.push(8u8),
                            i0.skip(1),
                        );
                        gstack = g0.push(8u8);
                    }
                    label = State::S6;
                },
                Some(')') => {
                    proof {
                        lemma_wf_push(g0, 8u8);
                        lemma_keep_push(g0, 8u8);
                        lemma_step_silent(
                            goal,
                            done,
                            State::S8,
                            g0,
                            i0,
                            State::S11,
                            g0.push(8u8),
                            i0.skip(1),
                        );
                        gstack = g0.push(8u8);
                    }
                    label = State::S11;
                },
                Some(c) => {
                    proof {
                        lemma_add_empty(done);
                    }
                    return Err(Error::Unexpected(c));
                },
                None => {
                    proof {
                        lemma_add_empty(done);
                    }
                    return Err(Error::EOF);
                },
            },
            State::S9 => match input.peek() {
                Some('*') => {
                    let _ = input.next();
                    proof {
                        lemma_wf_push(g0, 9u8);
                        lemma_keep_push(g0, 9u8);
                        lemma_step_silent(
                            goal,
                            done,
                            State::S9,
                            g0,
                            i0,
                            State::S7,
                            g0.push(9u8),
                            i0.skip(1),
                        );
                        gstack = g0.push(9u8);
                    }
                    label = State::S7;
                },
                _ => {
                    proof {
                        lemma_wf_reduce(g0);
                        lemma_keep_reduce(g0);
                        assert(keep(pop2(g0)).push(6u8).drop_last() =~= keep(pop2(g0)));
                    }
                    let _ = stack.pop();  // 6
                    outprod(sink, Rule::EET);
                    proof {
                        lemma_add_push(old(sink)@, done, Rule::EET);
                        lemma_step_fire(
                            goal,
                            done,
                            State::S9,
                            g0,
                            i0,
                            Rule::EET,
                            State::EGoto,
                            pop2(g0),
                            i0,
                        );
                        done = done.push(Rule::EET);
                        gstack = pop2(g0);
                    }
                    label = State::EGoto;
                },
            },
            State::S10 => {
                proof {
                    lemma_wf_reduce(g0);
                    lemma_keep_reduce(g0);
                    assert(keep(pop2(g0)).push(7u8).drop_last() =~= keep(pop2(g0)));
                }
                let _ = stack.pop();  // 7
                outprod(sink, Rule::TTF);
                proof {
                    lemma_add_push(old(sink)@, done, Rule::TTF);
                    lemma_step_fire(
                        goal,
                        done,
                        State::S10,
                        g0,
                        i0,
                        Rule::TTF,
                        State::TGoto,
                        pop2(g0),
                        i0,
                    );
                    done = done.push(Rule::TTF);
                    gstack = pop2(g0);
                }
                label = State::TGoto;
            },
            State::S11 => {
                proof {
                    lemma_wf_reduce(g0);
                    lemma_keep_reduce(g0);
                    assert(keep(pop2(g0)).push(5u8).drop_last() =~= keep(pop2(g0)));
                }
                let _ = stack.pop();  // 5
                outprod(sink, Rule::FParen);
                proof {
                    lemma_add_push(old(sink)@, done, Rule::FParen);
                    lemma_step_fire(
                        goal,
                        done,
                        State::S11,
                        g0,
                        i0,
                        Rule::FParen,
                        State::FGoto,
                        pop2(g0),
                        i0,
                    );
                    done = done.push(Rule::FParen);
                    gstack = pop2(g0);
                }
                label = State::FGoto;
            },
            State::EGoto => {
                proof {
                    lemma_keep_last(g0);
                }
                let t = stack[stack.len() - 1];
                if t == 5 {
                    proof {
                        lemma_step_silent(goal, done, State::EGoto, g0, i0, State::S8, g0, i0);
                    }
                    label = State::S8;
                } else {
                    proof {
                        lemma_step_silent(goal, done, State::EGoto, g0, i0, State::S1, g0, i0);
                    }
                    label = State::S1;
                }
            },
            State::TGoto => {
                proof {
                    lemma_keep_last(g0);
                }
                let t = stack[stack.len() - 1];
                if t == 6 {
                    proof {
                        lemma_step_silent(goal, done, State::TGoto, g0, i0, State::S9, g0, i0);
                    }
                    label = State::S9;
                } else {
                    proof {
                        lemma_step_silent(goal, done, State::TGoto, g0, i0, State::S2, g0, i0);
                    }
                    label = State::S2;
                }
            },
            State::FGoto => {
                proof {
                    lemma_keep_last(g0);
                }
                let t = stack[stack.len() - 1];
                if t == 7 {
                    proof {
                        lemma_step_silent(goal, done, State::FGoto, g0, i0, State::S10, g0, i0);
                    }
                    label = State::S10;
                } else {
                    proof {
                        lemma_step_silent(goal, done, State::FGoto, g0, i0, State::S3, g0, i0);
                    }
                    outprod(sink, Rule::TF);
                    proof {
                        lemma_add_push(old(sink)@, done, Rule::TF);
                        lemma_step_fire(goal, done, State::S3, g0, i0, Rule::TF, State::TGoto, g0, i0);
                        done = done.push(Rule::TF);
                    }
                    label = State::TGoto;
                }
            },
            State::S3 | State::S4 => {
                return unreached();
            },
        }
    }
}

/// Maximal inlining on top of minimal pushing: every control label used
/// from only one place (`S1`, `S3`, `S4`, `S8`, `S11`, `FGoto`) is inlined
/// into its single use, leaving nine labels in play.
#[verifier::loop_isolation(false)]
pub fn parse_max_inline(input: &mut Cursor, sink: &mut Vec<Rule>) -> (r: Result<(), Error>)
    requires
        old(input).wf(),
    ensures
        final(input).wf(),
        r == parse_spec(old(input)@).res,
        final(sink)@ == old(sink)@ + parse_spec(old(input)@).rules,
{
    let ghost goal = parse_spec(old(input)@);
    let mut stack: Vec<u8> = Vec::new();
    let mut label = State::S0;
    let ghost mut gstack: Seq<u8> = Seq::empty();
    let ghost mut done: Seq<Rule> = Seq::empty();
    proof {
        assert(keep(Seq::<u8>::empty()) == Seq::<u8>::empty());
        assert(Seq::<Rule>::empty() + run(State::S0, Seq::empty(), old(input)@).rules
            =~= run(State::S0, Seq::empty(), old(input)@).rules);
    }
    loop
        invariant
            input.wf(),
            (label is S0 && gstack =~= Seq::<u8>::empty()) || (wf_stack(gstack) && top_ok(
                label,
                gstack,
            )),
            !(label is S1) && !(label is S3) && !(label is S4) && !(label is S8) && !(label is S11)
                && !(label is FGoto),
            stack@ == keep(gstack),
            tracks(goal, done, label, gstack, input@),
            sink@ == old(sink)@ + done,
        decreases input@.len(), gstack.len(), rank(label),
    {
        let ghost g0 = gstack;
        let ghost i0 = input@;
        match label {
            State::S0 => match input.next() {
                Some('a') => {
                    stack.push(0);
                    let ghost g1 = g0.push(0u8);
                    let ghost i1 = i0.skip(1);
                    proof {
                        lemma_keep_push(g0, 0u8);
                        lemma_step_silent(goal, done, State::S0, g0, i0, State::S4, g1, i1);
                    }
                    outprod(sink, Rule::FA);
                    proof {
                        lemma_add_push(old(sink)@, done, Rule::FA);
                        lemma_step_fire(goal, done, State::S4, g1, i1, Rule::FA, State::FGoto, g1, i1);
                        done = done.push(Rule::FA);
                        lemma_step_silent(goal, done, State::FGoto, g1, i1, State::S3, g1, i1);
                    }
                    outprod(sink, Rule::TF);
                    proof {
                        lemma_add_push(old(sink)@, done, Rule::TF);
                        lemma_step_fire(goal, done, State::S3, g1, i1, Rule::TF, State::TGoto, g1, i1);
                        done = done.push(Rule::TF);
                        lemma_step_silent(goal, done, State::TGoto, g1, i1, State::S2, g1, i1);
                        gstack = g1;
                    }
                    label = State::S2;
                },
                Some('(') => {
                    stack.push(0);
                    proof {
                        lemma_keep_push(g0, 0u8);
                        lemma_step_silent(
                            goal,
                            done,
                            State::S0,
                            g0,
                            i0,
                            State::S5,
                            g0.push(0u8),
                            i0.skip(1),
                        );
                        gstack = g0.push(0u8);
                    }
                    label = State::S5;
                },
                Some(c) => {
                    proof {
                        lemma_add_empty(done);
                    }
                    return Err(Error::Unexpected(c));
                },
                None => {
                    proof {
                        lemma_add_empty(done);
                    }
                    return Err(Error::EOF);
                },
            },
            State::S2 => match input.peek() {
                Some('*') => {
                    let _ = input.next();
                    proof {
                        lemma_wf_push(g0, 2u8);
                        lemma_keep_push(g0, 2u8);
                        lemma_step_silent(
                            goal,
                            done,
                            State::S2,
                            g0,
                            i0,
                            State::S7,
                            g0.push(2u8),
                            i0.skip(1),
                        );
                        gstack = g0.push(2u8);
                    }
                    label = State::S7;
                },
                _ => {
                    outprod(sink, Rule::ET);
                    proof {
                        lemma_add_push(old(sink)@, done, Rule::ET);
                        lemma_step_fire(goal, done, State::S2, g0, i0, Rule::ET, State::EGoto, g0, i0);
                        done = done.push(Rule::ET);
                    }
                    label = State::EGoto;
                },
            },
            State::S5 => match input.next() {
                Some('a') => {
                    stack.push(5);
                    let ghost g1 = g0.push(5u8);
                    let ghost i1 = i0.skip(1);
                    proof {
                        lemma_wf_push(g0, 5u8);
                        lemma_keep_push(g0, 5u8);
                        lemma_step_silent(goal, done, State::S5, g0, i0, State::S4, g1, i1);
                    }
                    outprod(sink, Rule::FA);
                    proof {
                        lemma_add_push(old(sink)@, done, Rule::FA);
                        lemma_step_fire(goal, done, State::S4, g1, i1, Rule::FA, State::FGoto, g1, i1);
                        done = done.push(Rule::FA);
                        lemma_step_silent(goal, done, State::FGoto, g1, i1, State::S3, g1, i1);
                    }
                    outprod(sink, Rule::TF);
                    proof {
                        lemma_add_push(old(sink)@, done, Rule::TF);
                        lemma_step_fire(goal, done, State::S3, g1, i1, Rule::TF, State::TGoto, g1, i1);
                        done = done.push(Rule::TF);
                        lemma_step_silent(goal, done, State::TGoto, g1, i1, State::S2, g1, i1);
                        gstack = g1;
                    }
                    label = State::S2;
                },
                Some('(') => {
                    stack.push(5);
                    proof {
                        lemma_wf_push(g0, 5u8);
                        lemma_keep_push(g0, 5u8);
                        lemma_step_silent(
                            goal,
                            done,
                            State::S5,
                            g0,
                            i0,
                            State::S5,
                            g0.push(5u8),
                            i0.skip(1),
                        );
                        gstack = g0.push(5u8);
                    }
                    label = State::S5;  // (self)
                },
                Some(c) => {
                    proof {
                        lemma_add_empty(done);
                    }
                    return Err(Error::Unexpected(c));
                },
                None => {
                    proof {
                        lemma_add_empty(done);
                    }
                    return Err(Error::EOF);
                },
            },
            State::S6 => match input.next() {
                Some('a') => {
                    stack.push(6);
                    let ghost g1 = g0.push(6u8);
                    let ghost i1 = i0.skip(1);
                    proof {
                        lemma_wf_push(g0, 6u8);
                        lemma_keep_push(g0, 6u8);
                        lemma_step_silent(goal, done, State::S6, g0, i0, State::S4, g1, i1);
                    }
                    outprod(sink, Rule::FA);
                    proof {
                        lemma_add_push(old(sink)@, done, Rule::FA);
                        lemma_step_fire(goal, done, State::S4, g1, i1, Rule::FA, State::FGoto, g1, i1);
                        done = done.push(Rule::FA);
                        lemma_step_silent(goal, done, State::FGoto, g1, i1, State::S3, g1, i1);
                    }
                    outprod(sink, Rule::TF);
                    proof {
                        lemma_add_push(old(sink)@, done, Rule::TF);
                        lemma_step_fire(goal, done, State::S3, g1, i1, Rule::TF, State::TGoto, g1, i1);
                        done = done.push(Rule::TF);
                        lemma_step_silent(goal, done, State::TGoto, g1, i1, State::S9, g1, i1);
                        gstack = g1;
                    }
                    label = State::S9;
                },
                Some('(') => {
                    stack.push(6);
                    proof {
                        lemma_wf_push(g0, 6u8);
                        lemma_keep_push(g0, 6u8);
                        lemma_step_silent(
                            goal,
                            done,
                            State::S6,
                            g0,
                            i0,
                            State::S5,
                            g0.push(6u8),
                            i0.skip(1),
                        );
                        gstack = g0.push(6u8);
                    }
                    label = State::S5;
                },
                Some(c) => {
                    proof {
                        lemma_add_empty(done);
                    }
                    return Err(Error::Unexpected(c));
                },
                None => {
                    proof {
                        lemma_add_empty(done);
                    }
                    return Err(Error::EOF);
                },
            },
            State::S7 => match input.next() {
                Some('a') => {
                    stack.push(7);
                    let ghost g1 = g0.push(7u8);
                    let ghost i1 = i0.skip(1);
                    proof {
                        lemma_wf_push(g0, 7u8);
                        lemma_keep_push(g0, 7u8);
                        lemma_step_silent(goal, done, State::S7, g0, i0, State::S4, g1, i1);
                    }
                    outprod(sink, Rule::FA);
                    proof {
                        lemma_add_push(old(sink)@, done, Rule::FA);
                        lemma_step_fire(goal, done, State::S4, g1, i1, Rule::FA, State::FGoto, g1, i1);
                        done = done.push(Rule::FA);
                        lemma_step_silent(goal, done, State::FGoto, g1, i1, State::S10, g1, i1);
                        gstack = g1;
                    }
                    label = State::S10;
                },
                Some('(') => {
                    stack.push(7);
                    proof {
                        lemma_wf_push(g0, 7u8);
                        lemma_keep_push(g0, 7u8);
                        lemma_step_silent(
                            goal,
                            done,
                            State::S7,
                            g0,
                            i0,
                            State::S5,
                            g0.push(7u8),
                            i0.skip(1),
                        );
                        gstack = g0.push(7u8);
                    }
                    label = State::S5;
                },
                Some(c) => {
                    proof {
                        lemma_add_empty(done);
                    }
                    return Err(Error::Unexpected(c));
                },
                None => {
                    proof {
                        lemma_add_empty(done);
                    }
                    return Err(Error::EOF);
                },
            },
            State::S9 => match input.peek() {
                Some('*') => {
                    let _ = input.next();
                    proof {
                        lemma_wf_push(g0, 9u8);
                        lemma_keep_push(g0, 9u8);
                        lemma_step_silent(
                            goal,
                            done,
                            State::S9,
                            g0,
                            i0,
                            State::S7,
                            g0.push(9u8),
                            i0.skip(1),
                        );
                        gstack = g0.push(9u8);
                    }
                    label = State::S7;
                },
                _ => {
                    proof {
                        lemma_wf_reduce(g0);
                        lemma_keep_reduce(g0);
                        assert(keep(pop2(g0)).push(6u8).drop_last() =~= keep(pop2(g0)));
                    }
                    let _ = stack.pop();  // 6
                    outprod(sink, Rule::EET);
                    proof {
                        lemma_add_push(old(sink)@, done, Rule::EET);
                        lemma_step_fire(
                            goal,
                            done,
                            State::S9,
                            g0,
                            i0,
                            Rule::EET,
                            State::EGoto,
                            pop2(g0),
                            i0,
                        );
                        done = done.push(Rule::EET);
                        gstack = pop2(g0);
                    }
                    label = State::EGoto;
                },
            },
            State::S10 => {
                proof {
                    lemma_wf_reduce(g0);
                    lemma_keep_reduce(g0);
                    assert(keep(pop2(g0)).push(7u8).drop_last() =~= keep(pop2(g0)));
                }
                let _ = stack.pop();  // 7
                outprod(sink, Rule::TTF);
                proof {
                    lemma_add_push(old(sink)@, done, Rule::TTF);
                    lemma_step_fire(
                        goal,
                        done,
                        State::S10,
                        g0,
                        i0,
                        Rule::TTF,
                        State::TGoto,
                        pop2(g0),
                        i0,
                    );
                    done = done.push(Rule::TTF);
                    gstack = pop2(g0);
                }
                label = State::TGoto;
            },
            State::EGoto => {
                proof {
                    lemma_keep_last(g0);
                }
                let t = stack[stack.len() - 1];
                if t == 5 {
                    proof {
                        lemma_step_silent(goal, done, State::EGoto, g0, i0, State::S8, g0, i0);
                    }
                    match input.next() {
                        Some('+') => {
                            proof {
                                lemma_wf_push(g0, 8u8);
                                lemma_keep_push(g0, 8u8);
                                lemma_step_silent(
                                    goal,
                                    done,
                                    State::S8,
                                    g0,
                                    i0,
                                    State::S6,
                                    g0.push(8u8),
                                    i0.skip(1),
                                );
                                gstack = g0.push(8u8);
                            }
                            label = State::S6;
                        },
                        Some(')') => {
                            let ghost g1 = g0.push(8u8);
                            let ghost i1 = i0.skip(1);
                            proof {
                                lemma_wf_push(g0, 8u8);
                                lemma_keep_push(g0, 8u8);
                                lemma_step_silent(goal, done, State::S8, g0, i0, State::S11, g1, i1);
                                lemma_wf_reduce(g1);
                                lemma_keep_reduce(g1);
                                assert(keep(pop2(g1)).push(5u8).drop_last() =~= keep(pop2(g1)));
                            }
                            let _ = stack.pop();  // 5
                            outprod(sink, Rule::FParen);
                            proof {
                                lemma_add_push(old(sink)@, done, Rule::FParen);
                                lemma_step_fire(
                                    goal,
                                    done,
                                    State::S11,
                                    g1,
                                    i1,
                                    Rule::FParen,
                                    State::FGoto,
                                    pop2(g1),
                                    i1,
                                );
                                done = done.push(Rule::FParen);
                                gstack = pop2(g1);
                                lemma_keep_last(gstack);
                            }
                            let t2 = stack[stack.len() - 1];
                            if t2 == 7 {
                                proof {
                                    lemma_step_silent(
                                        goal,
                                        done,
                                        State::FGoto,
                                        gstack,
                                        i1,
                                        State::S10,
                                        gstack,
                                        i1,
                                    );
                                }
                                label = State::S10;
                            } else {
                                proof {
                                    lemma_step_silent(
                                        goal,
                                        done,
                                        State::FGoto,
                                        gstack,
                                        i1,
                                        State::S3,
                                        gstack,
                                        i1,
                                    );
                                }
                                outprod(sink, Rule::TF);
                                proof {
                                    lemma_add_push(old(sink)@, done, Rule::TF);
                                    lemma_step_fire(
                                        goal,
                                        done,
                                        State::S3,
                                        gstack,
                                        i1,
                                        Rule::TF,
                                        State::TGoto,
                                        gstack,
                                        i1,
                                    );
                                    done = done.push(Rule::TF);
                                }
                                label = State::TGoto;
                            }
                        },
                        Some(c) => {
                            proof {
                                lemma_add_empty(done);
                            }
                            return Err(Error::Unexpected(c));
                        },
                        None => {
                            proof {
                                lemma_add_empty(done);
                            }
                            return Err(Error::EOF);
                        },
                    }
                } else {
                    proof {
                        lemma_step_silent(goal, done, State::EGoto, g0, i0, State::S1, g0, i0);
                    }
                    match input.next() {
                        Some('+') => {
                            proof {
                                lemma_wf_push(g0, 1u8);
                                lemma_keep_push(g0, 1u8);
                                lemma_step_silent(
                                    goal,
                                    done,
                                    State::S1,
                                    g0,
                                    i0,
                                    State::S6,
                                    g0.push(1u8),
                                    i0.skip(1),
                                );
                                gstack = g0.push(1u8);
                            }
                            label = State::S6;
                        },
                        Some(c) => {
                            proof {
                                lemma_add_empty(done);
                            }
                            return Err(Error::Unexpected(c));
                        },
                        None => {
                            outprod(sink, Rule::SE);
                            proof {
                                lemma_add_push(old(sink)@, done, Rule::SE);
                                assert(done.push(Rule::SE) =~= done + seq![Rule::SE]);
                            }
                            return Ok(());
                        },
                    }
                }
            },
            State::TGoto => {
                proof {
                    lemma_keep_last(g0);
                }
                let t = stack[stack.len() - 1];
                if t == 6 {
                    proof {
                        lemma_step_silent(goal, done, State::TGoto, g0, i0, State::S9, g0, i0);
                    }
                    label = State::S9;
                } else {
                    proof {
                        lemma_step_silent(goal, done, State::TGoto, g0, i0, State::S2, g0, i0);
                    }
                    label = State::S2;
                }
            },
            State::S1 | State::S3 | State::S4 | State::S8 | State::S11 | State::FGoto => {
                return unreached();
            },
        }
    }
}

} // verus!
