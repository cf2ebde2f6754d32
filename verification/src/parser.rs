//! Further rewrites of the automaton: ascent-descent and the push-on-entry
//! family, where a state's number is pushed when control enters it, which
//! lets the four shift states with identical transition tables share one
//! label.

use vstd::pervasive::unreached;
use vstd::prelude::*;

use crate::cursor::Cursor;
use crate::model::Error;
use crate::model::Rule;
use crate::model::State;
use crate::model::entry_marker;
use crate::model::failure;
use crate::model::keep;
use crate::model::kept_marker;
use crate::model::lemma_add_empty;
use crate::model::lemma_add_push;
use crate::model::lemma_keep_last;
use crate::model::lemma_keep_push;
use crate::model::lemma_keep_reduce;
use crate::model::lemma_marker_pop;
use crate::model::lemma_marker_shift;
use crate::model::lemma_step_fire;
use crate::model::lemma_step_silent;
use crate::model::lemma_wf_push;
use crate::model::lemma_wf_reduce;
use crate::model::outprod;
use crate::model::parse_spec;
use crate::model::pop2;
use crate::model::rank;
use crate::model::run;
use crate::model::state_num;
use crate::model::top_ok;
use crate::model::tracks;
use crate::model::wf_stack;

pub use crate::paper::parse_reverse_goto;

verus! {

/// Ascent-descent: on committing to a rule the engine switches from LR
/// ascent to LL descent — `S10` and `S11` are inlined into the sites that
/// know they are next (`FGoto` on `7`, `S8` on `)`), instead of inlining
/// the chain states `S3` and `S4`.
#[verifier::loop_isolation(false)]
pub fn parse_asc_desc(input: &mut Cursor, sink: &mut Vec<Rule>) -> (r: Result<(), Error>)
    requires
        old(input).wf(),
    ensures
        final(input).wf(),
        r == parse_spec(old(input)@).res,
        final(sink)@ == old(sink)@ + parse_spec(old(input)@).rules,
{
    let ghost goal = parse_spec(old(input)@);
    let mut stack: Vec<u8> = Vec::new();
    let mut label = State::S0;
    let ghost mut done: Seq<Rule> = Seq::empty();
    proof {
        assert(Seq::<Rule>::empty() + run(State::S0, Seq::empty(), old(input)@).rules
            =~= run(State::S0, Seq::empty(), old(input)@).rules);
    }
    loop
        invariant
            input.wf(),
            (label is S0 && stack@ =~= Seq::<u8>::empty()) || (wf_stack(stack@) && top_ok(
                label,
                stack@,
            )),
            !(label is S10) && !(label is S11),
            tracks(goal, done, label, stack@, input@),
            sink@ == old(sink)@ + done,
        decreases input@.len(), stack@.len(), rank(label),
    {
        let ghost s0 = stack@;
        let ghost i0 = input@;
        match label {
            State::S0 => match input.next() {
                Some('a') => {
                    stack.push(0);
                    proof {
                        lemma_step_silent(
                            goal,
                            done,
                            State::S0,
                            s0,
                            i0,
                            State::S4,
                            s0.push(0u8),
                            i0.skip(1),
                        );
                    }
                    label = State::S4;
                },
                Some('(') => {
                    stack.push(0);
                    proof {
                        lemma_step_silent(
                            goal,
                            done,
                            State::S0,
                            s0,
                            i0,
                            State::S5,
                            s0.push(0u8),
                            i0.skip(1),
                        );
                    }
                    label = State::S5;
                },
                Some(c) => {
                    proof {
                        lemma_add_empty(done);
                    }
                    return Err(Error::Unexpected(c));
                },
                None => {
                    proof {
                        lemma_add_empty(done);
                    }
                    return Err(Error::EOF);
                },
            },
            State::S1 => match input.next() {
                Some('+') => {
                    stack.push(1);
                    proof {
                        lemma_wf_push(s0, 1u8);
                        lemma_step_silent(
                            goal,
                            done,
                            State::S1,
                            s0,
                            i0,
                            State::S6,
                            s0.push(1u8),
                            i0.skip(1),
                        );
                    }
                    label = State::S6;
                },
                Some(c) => {
                    proof {
                        lemma_add_empty(done);
                    }
                    return Err(Error::Unexpected(c));
                },
                None => {
                    outprod(sink, Rule::SE);
                    proof {
                        lemma_add_push(old(sink)@, done, Rule::SE);
                        assert(done.push(Rule::SE) =~= done + seq![Rule::SE]);
                    }
                    return Ok(());
                },
            },
            State::S2 => match input.peek() {
                Some('*') => {
                    let _ = input.next();
                    stack.push(2);
                    proof {
                        lemma_wf_push(s0, 2u8);
                        lemma_step_silent(
                            goal,
                            done,
                            State::S2,
                            s0,
                            i0,
                            State::S7,
                            s0.push(2u8),
                            i0.skip(1),
                        );
                    }
                    label = State::S7;
                },
                _ => {
                    outprod(sink, Rule::ET);
                    proof {
                        lemma_add_push(old(sink)@, done, Rule::ET);
                        lemma_step_fire(goal, done, State::S2, s0, i0, Rule::ET, State::EGoto, s0, i0);
                        done = done.push(Rule::ET);
                    }
                    label = State::EGoto;
                },
            },
            State::S3 => {
                outprod(sink, Rule::TF);
                proof {
                    lemma_add_push(old(sink)@, done, Rule::TF);
                    lemma_step_fire(goal, done, State::S3, s0, i0, Rule::TF, State::TGoto, s0, i0);
                    done = done.push(Rule::TF);
                }
                label = State::TGoto;
            },
            State::S4 => {
                outprod(sink, Rule::FA);
                proof {
                    lemma_add_push(old(sink)@, done, Rule::FA);
                    lemma_step_fire(goal, done, State::S4, s0, i0, Rule::FA, State::FGoto, s0, i0);
                    done = done.push(Rule::FA);
                }
                label = State::FGoto;
            },
            State::S5 => match input.next() {
                Some('a') => {
                    stack.push(5);
                    proof {
                        lemma_wf_push(s0, 5u8);
                        lemma_step_silent(
                            goal,
                            done,
                            State::S5,
                            s0,
                            i0,
                            State::S4,
                            s0.push(5u8),
                            i0.skip(1),
                        );
                    }
                    label = State::S4;
                },
                Some('(') => {
                    stack.push(5);
                    proof {
                        lemma_wf_push(s0, 5u8);
                        lemma_step_silent(
                            goal,
                            done,
                            State::S5,
                            s0,
                            i0,
                            State::S5,
                            s0.push(5u8),
                            i0.skip(1),
                        );
                    }
                    label = State::S5;  // (self)
                },
                Some(c) => {
                    proof {
                        lemma_add_empty(done);
                    }
                    return Err(Error::Unexpected(c));
                },
                None => {
                    proof {
                        lemma_add_empty(done);
                    }
                    return Err(Error::EOF);
                },
            },
            State::S6 => match input.next() {
                Some('a') => {
                    stack.push(6);
                    proof {
                        lemma_wf_push(s0, 6u8);
                        lemma_step_silent(
                            goal,
                            done,
                            State::S6,
                            s0,
                            i0,
                            State::S4,
                            s0.push(6u8),
                            i0.skip(1),
                        );
                    }
                    label = State::S4;
                },
                Some('(') => {
                    stack.push(6);
                    proof {
                        lemma_wf_push(s0, 6u8);
                        lemma_step_silent(
                            goal,
                            done,
                            State::S6,
                            s0,
                            i0,
                            State::S5,
                            s0.push(6u8),
                            i0.skip(1),
                        );
                    }
                    label = State::S5;
                },
                Some(c) => {
                    proof {
                        lemma_add_empty(done);
                    }
                    return Err(Error::Unexpected(c));
                },
                None => {
                    proof {
                        lemma_add_empty(done);
                    }
                    return Err(Error::EOF);
                },
            },
            State::S7 => match input.next() {
                Some('a') => {
                    stack.push(7);
                    proof {
                        lemma_wf_push(s0, 7u8);
                        lemma_step_silent(
                            goal,
                            done,
                            State::S7,
                            s0,
                            i0,
                            State::S4,
                            s0.push(7u8),
                            i0.skip(1),
                        );
                    }
                    label = State::S4;
                },
                Some('(') => {
                    stack.push(7);
                    proof {
                        lemma_wf_push(s0, 7u8);
                        lemma_step_silent(
                            goal,
                            done,
                            State::S7,
                            s0,
                            i0,
                            State::S5,
                            s0.push(7u8),
                            i0.skip(1),
                        );
                    }
                    label = State::S5;
                },
                Some(c) => {
                    proof {
                        lemma_add_empty(done);
                    }
                    return Err(Error::Unexpected(c));
                },
                None => {
                    proof {
                        lemma_add_empty(done);
                    }
                    return Err(Error::EOF);
                },
            },
            State::S8 => match input.next() {
                Some('+') => {
                    stack.push(8);
                    proof {
                        lemma_wf_push(s0, 8u8);
                        lemma_step_silent(
                            goal,
                            done,
                            State::S8,
                            s0,
                            i0,
                            State::S6,
                            s0.push(8u8),
                            i0.skip(1),
                        );
                    }
                    label = State::S6;
                },
                Some(')') => {
                    let ghost g1 = s0.push(8u8);
                    let ghost i1 = i0.skip(1);
                    proof {
                        lemma_wf_push(s0, 8u8);
                        lemma_step_silent(goal, done, State::S8, s0, i0, State::S11, g1, i1);
                        lemma_wf_reduce(g1);
                        assert(pop2(g1) =~= s0.drop_last());
                    }
                    let _ = stack.pop();  // 5
                    outprod(sink, Rule::FParen);
                    proof {
                        lemma_add_push(old(sink)@, done, Rule::FParen);
                        lemma_step_fire(
                            goal,
                            done,
                            State::S11,
                            g1,
                            i1,
                            Rule::FParen,
                            State::FGoto,
                            pop2(g1),
                            i1,
                        );
                        done = done.push(Rule::FParen);
                    }
                    label = State::FGoto;
                },
                Some(c) => {
                    proof {
                        lemma_add_empty(done);
                    }
                    return Err(Error::Unexpected(c));
                },
                None => {
                    proof {
                        lemma_add_empty(done);
                    }
                    return Err(Error::EOF);
                },
            },
            State::S9 => match input.peek() {
                Some('*') => {
                    let _ = input.next();
                    stack.push(9);
                    proof {
                        lemma_wf_push(s0, 9u8);
                        lemma_step_silent(
                            goal,
                            done,
                            State::S9,
                            s0,
                            i0,
                            State::S7,
                            s0.push(9u8),
                            i0.skip(1),
                        );
                    }
                    label = State::S7;
                },
                _ => {
                    proof {
                        lemma_wf_reduce(s0);
                    }
                    let _ = stack.pop();  // 6
                    let _ = stack.pop();  // 1
                    outprod(sink, Rule::EET);
                    proof {
                        assert(stack@ =~= pop2(s0));
                        lemma_add_push(old(sink)@, done, Rule::EET);
                        lemma_step_fire(
                            goal,
                            done,
                            State::S9,
                            s0,
                            i0,
                            Rule::EET,
                            State::EGoto,
                            pop2(s0),
                            i0,
                        );
                        done = done.push(Rule::EET);
                    }
                    label = State::EGoto;
                },
            },
            State::EGoto => {
                let t = stack[stack.len() - 1];
                if t == 5 {
                    proof {
                        lemma_step_silent(goal, done, State::EGoto, s0, i0, State::S8, s0, i0);
                    }
                    label = State::S8;
                } else {
                    proof {
                        lemma_step_silent(goal, done, State::EGoto, s0, i0, State::S1, s0, i0);
                    }
                    label = State::S1;
                }
            },
            State::TGoto => {
                let t = stack[stack.len() - 1];
                if t == 6 {
                    proof {
                        lemma_step_silent(goal, done, State::TGoto, s0, i0, State::S9, s0, i0);
                    }
                    label = State::S9;
                } else {
                    proof {
                        lemma_step_silent(goal, done, State::TGoto, s0, i0, State::S2, s0, i0);
                    }
                    label = State::S2;
                }
            },
            State::FGoto => {
                let t = stack[stack.len() - 1];
                if t == 7 {
                    proof {
                        lemma_step_silent(goal, done, State::FGoto, s0, i0, State::S10, s0, i0);
                        lemma_wf_reduce(s0);
                    }
                    let _ = stack.pop();  // 7
                    let _ = stack.pop();  // 2 or 9
                    outprod(sink, Rule::TTF);
                    proof {
                        assert(stack@ =~= pop2(s0));
                        lemma_add_push(old(sink)@, done, Rule::TTF);
                        lemma_step_fire(
                            goal,
                            done,
                            State::S10,
                            s0,
                            i0,
                            Rule::TTF,
                            State::TGoto,
                            pop2(s0),
                            i0,
                        );
                        done = done.push(Rule::TTF);
                    }
                    label = State::TGoto;
                } else {
                    proof {
                        lemma_step_silent(goal, done, State::FGoto, s0, i0, State::S3, s0, i0);
                    }
                    label = State::S3;
                }
            },
            State::S10 | State::S11 => {
                return unreached();
            },
        }
    }
}

/// Which model state a push-on-entry engine sits at when its own label is
/// `label`: the four shift states share the `S0` label and are told apart
/// by the marker on top of the stack; `S5`–`S7` and `S11` have no label of
/// their own any more.
spec fn entry_merged(label: State, glabel: State) -> bool {
    match label {
        State::S0 => glabel is S0 || glabel is S5 || glabel is S6 || glabel is S7,
        State::S5 => false,
        State::S6 => false,
        State::S7 => false,
        State::S11 => false,
        _ => glabel == label,
    }
}

/// Push on entry: a state's own number is pushed when control enters it,
/// not the source's when it leaves.  States with identical transition
/// tables (`S0`, `S5`, `S6`, `S7`) then need only one label, `S0`; the
/// stack carries the canonical entries with the current state's number as
/// a marker on top.
#[verifier::loop_isolation(false)]
pub fn parse_push_first(input: &mut Cursor, sink: &mut Vec<Rule>) -> (r: Result<(), Error>)
    requires
        old(input).wf(),
    ensures
        final(input).wf(),
        r == parse_spec(old(input)@).res,
        final(sink)@ == old(sink)@ + parse_spec(old(input)@).rules,
{
    let ghost goal = parse_spec(old(input)@);
    let mut stack: Vec<u8> = Vec::new();
    stack.push(0);
    let mut label = State::S0;
    let ghost mut glabel = State::S0;
    let ghost mut gstack: Seq<u8> = Seq::empty();
    let ghost mut done: Seq<Rule> = Seq::empty();
    proof {
        assert(stack@ =~= Seq::<u8>::empty() + seq![0u8]);
        assert(Seq::<Rule>::empty() + run(State::S0, Seq::empty(), old(input)@).rules
            =~= run(State::S0, Seq::empty(), old(input)@).rules);
    }
    loop
        invariant
            input.wf(),
            (glabel is S0 && gstack =~= Seq::<u8>::empty()) || (wf_stack(gstack) && top_ok(
                glabel,
                gstack,
            )),
            entry_merged(label, glabel),
            stack@ == gstack + entry_marker(glabel),
            tracks(goal, done, glabel, gstack, input@),
            sink@ == old(sink)@ + done,
        decreases input@.len(), gstack.len(), rank(glabel),
    {
        let ghost g0 = gstack;
        let ghost i0 = input@;
        let ghost l0 = glabel;
        match label {
            State::S0 => match input.next() {
                Some('a') => {
                    stack.push(4);
                    proof {
                        if !(l0 is S0) {
                            lemma_wf_push(g0, state_num(l0));
                        }
                        assert(run(l0, g0, i0) == run(
                            State::S4,
                            g0.push(state_num(l0)),
                            i0.skip(1),
                        ));
                        lemma_step_silent(
                            goal,
                            done,
                            l0,
                            g0,
                            i0,
                            State::S4,
                            g0.push(state_num(l0)),
                            i0.skip(1),
                        );
                        lemma_marker_shift(g0, state_num(l0), 4u8);
                        gstack = g0.push(state_num(l0));
                        glabel = State::S4;
                    }
                    label = State::S4;
                },
                Some('(') => {
                    stack.push(5);
                    proof {
                        if !(l0 is S0) {
                            lemma_wf_push(g0, state_num(l0));
                        }
                        assert(run(l0, g0, i0) == run(
                            State::S5,
                            g0.push(state_num(l0)),
                            i0.skip(1),
                        ));
                        lemma_step_silent(
                            goal,
                            done,
                            l0,
                            g0,
                            i0,
                            State::S5,
                            g0.push(state_num(l0)),
                            i0.skip(1),
                        );
                        lemma_marker_shift(g0, state_num(l0), 5u8);
                        gstack = g0.push(state_num(l0));
                        glabel = State::S5;
                    }
                    label = State::S0;
                },
                Some(c) => {
                    proof {
                        assert(run(l0, g0, i0) == failure(Error::Unexpected(i0[0])));
                        lemma_add_empty(done);
                    }
                    return Err(Error::Unexpected(c));
                },
                None => {
                    proof {
                        assert(run(l0, g0, i0) == failure(Error::EOF));
                        lemma_add_empty(done);
                    }
                    return Err(Error::EOF);
                },
            },
            State::S1 => match input.next() {
                Some('+') => {
                    stack.push(6);
                    proof {
                        lemma_wf_push(g0, 1u8);
                        lemma_step_silent(
                            goal,
                            done,
                            State::S1,
                            g0,
                            i0,
                            State::S6,
                            g0.push(1u8),
                            i0.skip(1),
                        );
                        lemma_marker_shift(g0, 1u8, 6u8);
                        gstack = g0.push(1u8);
                        glabel = State::S6;
                    }
                    label = State::S0;
                },
                Some(c) => {
                    proof {
                        lemma_add_empty(done);
                    }
                    return Err(Error::Unexpected(c));
                },
                None => {
                    outprod(sink, Rule::SE);
                    proof {
                        lemma_add_push(old(sink)@, done, Rule::SE);
                        assert(done.push(Rule::SE) =~= done + seq![Rule::SE]);
                    }
                    return Ok(());
                },
            },
            State::S2 => match input.peek() {
                Some('*') => {
                    let _ = input.next();  // *
                    stack.push(7);
                    proof {
                        lemma_wf_push(g0, 2u8);
                        lemma_step_silent(
                            goal,
                            done,
                            State::S2,
                            g0,
                            i0,
                            State::S7,
                            g0.push(2u8),
                            i0.skip(1),
                        );
                        lemma_marker_shift(g0, 2u8, 7u8);
                        gstack = g0.push(2u8);
                        glabel = State::S7;
                    }
                    label = State::S0;
                },
                _ => {
                    proof {
                        lemma_marker_pop(g0, 2u8);
                    }
                    let _ = stack.pop();  // 2
                    outprod(sink, Rule::ET);
                    proof {
                        lemma_add_push(old(sink)@, done, Rule::ET);
                        lemma_step_fire(goal, done, State::S2, g0, i0, Rule::ET, State::EGoto, g0, i0);
                        done = done.push(Rule::ET);
                        glabel = State::EGoto;
                    }
                    label = State::EGoto;
                },
            },
            State::S3 => {
                proof {
                    lemma_marker_pop(g0, 3u8);
                }
                let _ = stack.pop();  // 3
                outprod(sink, Rule::TF);
                proof {
                    lemma_add_push(old(sink)@, done, Rule::TF);
                    lemma_step_fire(goal, done, State::S3, g0, i0, Rule::TF, State::TGoto, g0, i0);
                    done = done.push(Rule::TF);
                    glabel = State::TGoto;
                }
                label = State::TGoto;
            },
            State::S4 => {
                proof {
                    lemma_marker_pop(g0, 4u8);
                }
                let _ = stack.pop();  // 4
                outprod(sink, Rule::FA);
                proof {
                    lemma_add_push(old(sink)@, done, Rule::FA);
                    lemma_step_fire(goal, done, State::S4, g0, i0, Rule::FA, State::FGoto, g0, i0);
                    done = done.push(Rule::FA);
                    glabel = State::FGoto;
                }
                label = State::FGoto;
            },
            State::S8 => match input.next() {
                Some('+') => {
                    stack.push(6);
                    proof {
                        lemma_wf_push(g0, 8u8);
                        lemma_step_silent(
                            goal,
                            done,
                            State::S8,
                            g0,
                            i0,
                            State::S6,
                            g0.push(8u8),
                            i0.skip(1),
                        );
                        lemma_marker_shift(g0, 8u8, 6u8);
                        gstack = g0.push(8u8);
                        glabel = State::S6;
                    }
                    label = State::S0;
                },
                Some(')') => {
                    let ghost g1 = g0.push(8u8);
                    let ghost i1 = i0.skip(1);
                    proof {
                        lemma_wf_push(g0, 8u8);
                        lemma_step_silent(goal, done, State::S8, g0, i0, State::S11, g1, i1);
                        lemma_wf_reduce(g1);
                        assert(pop2(g1) =~= g0.drop_last());
                        lemma_marker_pop(g0, 8u8);
                    }
                    let _ = stack.pop();  // 8
                    let _ = stack.pop();  // 5
                    outprod(sink, Rule::FParen);
                    proof {
                        assert(stack@ =~= pop2(g1) + entry_marker(State::FGoto));
                        lemma_add_push(old(sink)@, done, Rule::FParen);
                        lemma_step_fire(
                            goal,
                            done,
                            State::S11,
                            g1,
                            i1,
                            Rule::FParen,
                            State::FGoto,
                            pop2(g1),
                            i1,
                        );
                        done = done.push(Rule::FParen);
                        gstack = pop2(g1);
                        glabel = State::FGoto;
                    }
                    label = State::FGoto;
                },
                Some(c) => {
                    proof {
                        lemma_add_empty(done);
                    }
                    return Err(Error::Unexpected(c));
                },
                None => {
                    proof {
                        lemma_add_empty(done);
                    }
                    return Err(Error::EOF);
                },
            },
            State::S9 => match input.peek() {
                Some('*') => {
                    let _ = input.next();  // *
                    stack.push(7);
                    proof {
                        lemma_wf_push(g0, 9u8);
                        lemma_step_silent(
                            goal,
                            done,
                            State::S9,
                            g0,
                            i0,
                            State::S7,
                            g0.push(9u8),
                            i0.skip(1),
                        );
                        lemma_marker_shift(g0, 9u8, 7u8);
                        gstack = g0.push(9u8);
                        glabel = State::S7;
                    }
                    label = State::S0;
                },
                _ => {
                    proof {
                        lemma_wf_reduce(g0);
                        lemma_marker_pop(g0, 9u8);
                    }
                    let _ = stack.pop();  // 9
                    let _ = stack.pop();  // 6
                    let _ = stack.pop();  // 1
                    outprod(sink, Rule::EET);
                    proof {
                        assert(stack@ =~= pop2(g0) + entry_marker(State::EGoto));
                        lemma_add_push(old(sink)@, done, Rule::EET);
                        lemma_step_fire(
                            goal,
                            done,
                            State::S9,
                            g0,
                            i0,
                            Rule::EET,
                            State::EGoto,
                            pop2(g0),
                            i0,
                        );
                        done = done.push(Rule::EET);
                        gstack = pop2(g0);
                        glabel = State::EGoto;
                    }
                    label = State::EGoto;
                },
            },
            State::S10 => {
                proof {
                    lemma_wf_reduce(g0);
                    lemma_marker_pop(g0, 10u8);
                }
                let _ = stack.pop();  // 10
                let _ = stack.pop();  // 7
                let _ = stack.pop();  // 2 or 9
                outprod(sink, Rule::TTF);
                proof {
                    assert(stack@ =~= pop2(g0) + entry_marker(State::TGoto));
                    lemma_add_push(old(sink)@, done, Rule::TTF);
                    lemma_step_fire(
                        goal,
                        done,
                        State::S10,
                        g0,
                        i0,
                        Rule::TTF,
                        State::TGoto,
                        pop2(g0),
                        i0,
                    );
                    done = done.push(Rule::TTF);
                    gstack = pop2(g0);
                    glabel = State::TGoto;
                }
                label = State::TGoto;
            },
            State::S11 => {
                let _ = stack.pop();  // 11
                let _ = stack.pop();  // 8
                let _ = stack.pop();  // 5
                outprod(sink, Rule::FParen);
                label = State::FGoto;
            },
            State::EGoto => {
                let t = stack[stack.len() - 1];
                if t == 5 {
                    stack.push(8);
                    proof {
                        lemma_step_silent(goal, done, State::EGoto, g0, i0, State::S8, g0, i0);
                        glabel = State::S8;
                    }
                    label = State::S8;
                } else {
                    stack.push(1);
                    proof {
                        lemma_step_silent(goal, done, State::EGoto, g0, i0, State::S1, g0, i0);
                        glabel = State::S1;
                    }
                    label = State::S1;
                }
            },
            State::TGoto => {
                let t = stack[stack.len() - 1];
                if t == 6 {
                    stack.push(9);
                    proof {
                        lemma_step_silent(goal, done, State::TGoto, g0, i0, State::S9, g0, i0);
                        glabel = State::S9;
                    }
                    label = State::S9;
                } else {
                    stack.push(2);
                    proof {
                        lemma_step_silent(goal, done, State::TGoto, g0, i0, State::S2, g0, i0);
                        glabel = State::S2;
                    }
                    label = State::S2;
                }
            },
            State::FGoto => {
                let t = stack[stack.len() - 1];
                if t == 7 {
                    stack.push(10);
                    proof {
                        lemma_step_silent(goal, done, State::FGoto, g0, i0, State::S10, g0, i0);
                        glabel = State::S10;
                    }
                    label = State::S10;
                } else {
                    stack.push(3);
                    proof {
                        lemma_step_silent(goal, done, State::FGoto, g0, i0, State::S3, g0, i0);
                        glabel = State::S3;
                    }
                    label = State::S3;
                }
            },
            State::S5 | State::S6 | State::S7 => {
                return unreached();
            },
        }
    }
}

/// Push on entry combined with minimal pushing: only the markers some goto
/// decision later inspects (`0`, `5`, `6`, `7`) are materialized, so the
/// executable stack is the [`keep`] image of the canonical one with at most
/// the current state's kept marker on top.
#[verifier::loop_isolation(false)]
pub fn parse_minpush(input: &mut Cursor, sink: &mut Vec<Rule>) -> (r: Result<(), Error>)
    requires
        old(input).wf(),
    ensures
        final(input).wf(),
        r == parse_spec(old(input)@).res,
        final(sink)@ == old(sink)@ + parse_spec(old(input)@).rules,
{
    let ghost goal = parse_spec(old(input)@);
    let mut stack: Vec<u8> = Vec::new();
    stack.push(0);
    let mut label = State::S0;
    let ghost mut glabel = State::S0;
    let ghost mut gstack: Seq<u8> = Seq::empty();
    let ghost mut done: Seq<Rule> = Seq::empty();
    proof {
        assert(keep(Seq::<u8>::empty()) == Seq::<u8>::empty());
        assert(stack@ =~= keep(Seq::<u8>::empty()) + seq![0u8]);
        assert(Seq::<Rule>::empty() + run(State::S0, Seq::empty(), old(input)@).rules
            =~= run(State::S0, Seq::empty(), old(input)@).rules);
    }
    loop
        invariant
            input.wf(),
            (glabel is S0 && gstack =~= Seq::<u8>::empty()) || (wf_stack(gstack) && top_ok(
                glabel,
                gstack,
            )),
            entry_merged(label, glabel),
            stack@ == keep(gstack) + kept_marker(glabel),
            tracks(goal, done, glabel, gstack, input@),
            sink@ == old(sink)@ + done,
        decreases input@.len(), gstack.len(), rank(glabel),
    {
        let ghost g0 = gstack;
        let ghost i0 = input@;
        let ghost l0 = glabel;
        match label {
            State::S0 => match input.next() {
                Some('a') => {
                    proof {
                        if !(l0 is S0) {
                            lemma_wf_push(g0, state_num(l0));
                        }
                        assert(run(l0, g0, i0) == run(
                            State::S4,
                            g0.push(state_num(l0)),
                            i0.skip(1),
                        ));
                        lemma_step_silent(
                            goal,
                            done,
                            l0,
                            g0,
                            i0,
                            State::S4,
                            g0.push(state_num(l0)),
                            i0.skip(1),
                        );
                        lemma_keep_push(g0, state_num(l0));
                        assert(keep(g0).push(state_num(l0)) =~= keep(g0) + seq![state_num(l0)]);
                        gstack = g0.push(state_num(l0));
                        glabel = State::S4;
                    }
                    label = State::S4;
                },
                Some('(') => {
                    stack.push(5);
                    proof {
                        if !(l0 is S0) {
                            lemma_wf_push(g0, state_num(l0));
                        }
                        assert(run(l0, g0, i0) == run(
                            State::S5,
                            g0.push(state_num(l0)),
                            i0.skip(1),
                        ));
                        lemma_step_silent(
                            goal,
                            done,
                            l0,
                            g0,
                            i0,
                            State::S5,
                            g0.push(state_num(l0)),
                            i0.skip(1),
                        );
                        lemma_keep_push(g0, state_num(l0));
                        lemma_marker_shift(keep(g0), state_num(l0), 5u8);
                        assert(keep(g0).push(state_num(l0)) =~= keep(g0) + seq![state_num(l0)]);
                        gstack = g0.push(state_num(l0));
                        glabel = State::S5;
                    }
                    label = State::S0;
                },
                Some(c) => {
                    proof {
                        assert(run(l0, g0, i0) == failure(Error::Unexpected(i0[0])));
                        lemma_add_empty(done);
                    }
                    return Err(Error::Unexpected(c));
                },
                None => {
                    proof {
                        assert(run(l0, g0, i0) == failure(Error::EOF));
                        lemma_add_empty(done);
                    }
                    return Err(Error::EOF);
                },
            },
            State::S1 => match input.next() {
                Some('+') => {
                    stack.push(6);
                    proof {
                        lemma_wf_push(g0, 1u8);
                        lemma_step_silent(
                            goal,
                            done,
                            State::S1,
                            g0,
                            i0,
                            State::S6,
                            g0.push(1u8),
                            i0.skip(1),
                        );
                        lemma_keep_push(g0, 1u8);
                        assert(keep(g0).push(6u8) =~= keep(g0) + seq![6u8]);
                        gstack = g0.push(1u8);
                        glabel = State::S6;
                    }
                    label = State::S0;
                },
                Some(c) => {
                    proof {
                        lemma_add_empty(done);
                    }
                    return Err(Error::Unexpected(c));
                },
                None => {
                    outprod(sink, Rule::SE);
                    proof {
                        lemma_add_push(old(sink)@, done, Rule::SE);
                        assert(done.push(Rule::SE) =~= done + seq![Rule::SE]);
                    }
                    return Ok(());
                },
            },
            State::S2 => match input.peek() {
                Some('*') => {
                    let _ = input.next();  // *
                    stack.push(7);
                    proof {
                        lemma_wf_push(g0, 2u8);
                        lemma_step_silent(
                            goal,
                            done,
                            State::S2,
                            g0,
                            i0,
                            State::S7,
                            g0.push(2u8),
                            i0.skip(1),
                        );
                        lemma_keep_push(g0, 2u8);
                        assert(keep(g0).push(7u8) =~= keep(g0) + seq![7u8]);
                        gstack = g0.push(2u8);
                        glabel = State::S7;
                    }
                    label = State::S0;
                },
                _ => {
                    outprod(sink, Rule::ET);
                    proof {
                        lemma_add_push(old(sink)@, done, Rule::ET);
                        lemma_step_fire(goal, done, State::S2, g0, i0, Rule::ET, State::EGoto, g0, i0);
                        done = done.push(Rule::ET);
                        glabel = State::EGoto;
                    }
                    label = State::EGoto;
                },
            },
            State::S3 => {
                outprod(sink, Rule::TF);
                proof {
                    lemma_add_push(old(sink)@, done, Rule::TF);
                    lemma_step_fire(goal, done, State::S3, g0, i0, Rule::TF, State::TGoto, g0, i0);
                    done = done.push(Rule::TF);
                    glabel = State::TGoto;
                }
                label = State::TGoto;
            },
            State::S4 => {
                outprod(sink, Rule::FA);
                proof {
                    lemma_add_push(old(sink)@, done, Rule::FA);
                    lemma_step_fire(goal, done, State::S4, g0, i0, Rule::FA, State::FGoto, g0, i0);
                    done = done.push(Rule::FA);
                    glabel = State::FGoto;
                }
                label = State::FGoto;
            },
            State::S8 => match input.next() {
                Some('+') => {
                    stack.push(6);
                    proof {
                        lemma_wf_push(g0, 8u8);
                        lemma_step_silent(
                            goal,
                            done,
                            State::S8,
                            g0,
                            i0,
                            State::S6,
                            g0.push(8u8),
                            i0.skip(1),
                        );
                        lemma_keep_push(g0, 8u8);
                        assert(keep(g0).push(6u8) =~= keep(g0) + seq![6u8]);
                        gstack = g0.push(8u8);
                        glabel = State::S6;
                    }
                    label = State::S0;
                },
                Some(')') => {
                    let ghost g1 = g0.push(8u8);
                    let ghost i1 = i0.skip(1);
                    proof {
                        lemma_wf_push(g0, 8u8);
                        lemma_step_silent(goal, done, State::S8, g0, i0, State::S11, g1, i1);
                        lemma_wf_reduce(g1);
                        lemma_keep_push(g0, 8u8);
                        lemma_keep_reduce(g1);
                        assert(keep(pop2(g1)).push(5u8).drop_last() =~= keep(pop2(g1)));
                    }
                    let _ = stack.pop();  // 5
                    outprod(sink, Rule::FParen);
                    proof {
                        lemma_add_push(old(sink)@, done, Rule::FParen);
                        lemma_step_fire(
                            goal,
                            done,
                            State::S11,
                            g1,
                            i1,
                            Rule::FParen,
                            State::FGoto,
                            pop2(g1),
                            i1,
                        );
                        done = done.push(Rule::FParen);
                        gstack = pop2(g1);
                        glabel = State::FGoto;
                    }
                    label = State::FGoto;
                },
                Some(c) => {
                    proof {
                        lemma_add_empty(done);
                    }
                    return Err(Error::Unexpected(c));
                },
                None => {
                    proof {
                        lemma_add_empty(done);
                    }
                    return Err(Error::EOF);
                },
            },
            State::S9 => match input.peek() {
                Some('*') => {
                    let _ = input.next();  // *
                    stack.push(7);
                    proof {
                        lemma_wf_push(g0, 9u8);
                        lemma_step_silent(
                            goal,
                            done,
                            State::S9,
                            g0,
                            i0,
                            State::S7,
                            g0.push(9u8),
                            i0.skip(1),
                        );
                        lemma_keep_push(g0, 9u8);
                        assert(keep(g0).push(7u8) =~= keep(g0) + seq![7u8]);
                        gstack = g0.push(9u8);
                        glabel = State::S7;
                    }
                    label = State::S0;
                },
                _ => {
                    proof {
                        lemma_wf_reduce(g0);
                        lemma_keep_reduce(g0);
                        assert(keep(pop2(g0)).push(6u8).drop_last() =~= keep(pop2(g0)));
                    }
                    let _ = stack.pop();  // 6
                    outprod(sink, Rule::EET);
                    proof {
                        lemma_add_push(old(sink)@, done, Rule::EET);
                        lemma_step_fire(
                            goal,
                            done,
                            State::S9,
                            g0,
                            i0,
                            Rule::EET,
                            State::EGoto,
                            pop2(g0),
                            i0,
                        );
                        done = done.push(Rule::EET);
                        gstack = pop2(g0);
                        glabel = State::EGoto;
                    }
                    label = State::EGoto;
                },
            },
            State::S10 => {
                proof {
                    lemma_wf_reduce(g0);
                    lemma_keep_reduce(g0);
                    assert(keep(pop2(g0)).push(7u8).drop_last() =~= keep(pop2(g0)));
                }
                let _ = stack.pop();  // 7
                outprod(sink, Rule::TTF);
                proof {
                    lemma_add_push(old(sink)@, done, Rule::TTF);
                    lemma_step_fire(
                        goal,
                        done,
                        State::S10,
                        g0,
                        i0,
                        Rule::TTF,
                        State::TGoto,
                        pop2(g0),
                        i0,
                    );
                    done = done.push(Rule::TTF);
                    gstack = pop2(g0);
                    glabel = State::TGoto;
                }
                label = State::TGoto;
            },
            State::S11 => {
                let _ = stack.pop();  // 5
                outprod(sink, Rule::FParen);
                label = State::FGoto;
            },
            State::EGoto => {
                proof {
                    lemma_keep_last(g0);
                }
                let t = stack[stack.len() - 1];
                if t == 5 {
                    proof {
                        lemma_step_silent(goal, done, State::EGoto, g0, i0, State::S8, g0, i0);
                        glabel = State::S8;
                    }
                    label = State::S8;
                } else {
                    proof {
                        lemma_step_silent(goal, done, State::EGoto, g0, i0, State::S1, g0, i0);
                        glabel = State::S1;
                    }
                    label = State::S1;
                }
            },
            State::TGoto => {
                proof {
                    lemma_keep_last(g0);
                }
                let t = stack[stack.len() - 1];
                if t == 6 {
                    proof {
                        lemma_step_silent(goal, done, State::TGoto, g0, i0, State::S9, g0, i0);
                        glabel = State::S9;
                    }
                    label = State::S9;
                } else {
                    proof {
                        lemma_step_silent(goal, done, State::TGoto, g0, i0, State::S2, g0, i0);
                        glabel = State::S2;
                    }
                    label = State::S2;
                }
            },
            State::FGoto => {
                proof {
                    lemma_keep_last(g0);
                }
                let t = stack[stack.len() - 1];
                if t == 7 {
                    proof {
                        lemma_step_silent(goal, done, State::FGoto, g0, i0, State::S10, g0, i0);
                        glabel = State::S10;
                    }
                    label = State::S10;
                } else {
                    proof {
                        lemma_step_silent(goal, done, State::FGoto, g0, i0, State::S3, g0, i0);
                        glabel = State::S3;
                    }
                    label = State::S3;
                }
            },
            State::S5 | State::S6 | State::S7 => {
                return unreached();
            },
        }
    }
}

} // verus!
