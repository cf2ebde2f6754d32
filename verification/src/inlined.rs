//! The furthest-inlined engines: every control label used from only one
//! place is folded into its use, until two to four labels remain, and the
//! lookahead handling is folded into a single `next` per step.

use vstd::pervasive::unreached;
use vstd::prelude::*;

use crate::cursor::Cursor;
use crate::model::Error;
use crate::model::Rule;
use crate::model::State;
use crate::model::failure;
use crate::model::keep;
use crate::model::kept_marker;
use crate::model::lemma_add_empty;
use crate::model::lemma_add_push;
use crate::model::lemma_keep_bottom;
use crate::model::lemma_keep_last;
use crate::model::lemma_keep_push;
use crate::model::lemma_keep_reduce;
use crate::model::lemma_marker_shift;
use crate::model::lemma_step_fire;
use crate::model::lemma_step_silent;
use crate::model::lemma_wf_push;
use crate::model::lemma_wf_reduce;
use crate::model::outprod;
use crate::model::parse_spec;
use crate::model::pop2;
use crate::model::rank;
use crate::model::run;
use crate::model::state_num;
use crate::model::top_ok;
use crate::model::tracks;
use crate::model::wf_stack;
use crate::stack::Parser;
use crate::stack::StackLabel;
use crate::stack::sl_num;

verus! {

/// Which model state an engine with only goto labels and the shared shift
/// label sits at.
spec fn goto_merged(label: State, glabel: State) -> bool {
    match label {
        State::S0 => glabel is S0 || glabel is S5 || glabel is S6 || glabel is S7,
        State::EGoto => glabel is EGoto,
        State::TGoto => glabel is TGoto,
        State::FGoto => glabel is FGoto,
        _ => false,
    }
}

/// Every label used from one place only is inlined into it: besides the
/// shared shift label, only the three goto labels survive.
#[verifier::loop_isolation(false)]
pub fn parse_inline1(input: &mut Cursor, sink: &mut Vec<Rule>) -> (r: Result<(), Error>)
    requires
        old(input).wf(),
    ensures
        final(input).wf(),
        r == parse_spec(old(input)@).res,
        final(sink)@ == old(sink)@ + parse_spec(old(input)@).rules,
{
    let ghost goal = parse_spec(old(input)@);
    let mut stack: Vec<u8> = Vec::new();
    stack.push(0);
    let mut label = State::S0;
    let ghost mut glabel = State::S0;
    let ghost mut gstack: Seq<u8> = Seq::empty();
    let ghost mut done: Seq<Rule> = Seq::empty();
    proof {
        assert(keep(Seq::<u8>::empty()) == Seq::<u8>::empty());
        assert(stack@ =~= keep(Seq::<u8>::empty()) + seq![0u8]);
        assert(Seq::<Rule>::empty() + run(State::S0, Seq::empty(), old(input)@).rules
            =~= run(State::S0, Seq::empty(), old(input)@).rules);
    }
    loop
        invariant
            input.wf(),
            (glabel is S0 && gstack =~= Seq::<u8>::empty()) || (wf_stack(gstack) && top_ok(
                glabel,
                gstack,
            )),
            goto_merged(label, glabel),
            stack@ == keep(gstack) + kept_marker(glabel),
            tracks(goal, done, glabel, gstack, input@),
            sink@ == old(sink)@ + done,
        decreases input@.len(), gstack.len(), rank(glabel),
    {
        let ghost g0 = gstack;
        let ghost i0 = input@;
        let ghost l0 = glabel;
        match label {
            State::S0 => match input.next() {
                Some('a') => {
                    let ghost g1 = g0.push(state_num(l0));
                    let ghost i1 = i0.skip(1);
                    proof {
                        if !(l0 is S0) {
                            lemma_wf_push(g0, state_num(l0));
                        }
                        assert(run(l0, g0, i0) == run(State::S4, g1, i1));
                        lemma_step_silent(goal, done, l0, g0, i0, State::S4, g1, i1);
                        lemma_keep_push(g0, state_num(l0));
                        assert(keep(g0).push(state_num(l0)) =~= keep(g0) + seq![state_num(l0)]);
                    }
                    outprod(sink, Rule::FA);
                    proof {
                        lemma_add_push(old(sink)@, done, Rule::FA);
                        lemma_step_fire(goal, done, State::S4, g1, i1, Rule::FA, State::FGoto, g1, i1);
                        done = done.push(Rule::FA);
                        gstack = g1;
                        glabel = State::FGoto;
                    }
                    label = State::FGoto;
                },
                Some('(') => {
                    stack.push(5);
                    proof {
                        if !(l0 is S0) {
                            lemma_wf_push(g0, state_num(l0));
                        }
                        assert(run(l0, g0, i0) == run(
                            State::S5,
                            g0.push(state_num(l0)),
                            i0.skip(1),
                        ));
                        lemma_step_silent(
                            goal,
                            done,
                            l0,
                            g0,
                            i0,
                            State::S5,
                            g0.push(state_num(l0)),
                            i0.skip(1),
                        );
                        lemma_keep_push(g0, state_num(l0));
                        lemma_marker_shift(keep(g0), state_num(l0), 5u8);
                        assert(keep(g0).push(state_num(l0)) =~= keep(g0) + seq![state_num(l0)]);
                        gstack = g0.push(state_num(l0));
                        glabel = State::S5;
                    }
                    label = State::S0;
                },
                Some(c) => {
                    proof {
                        assert(run(l0, g0, i0) == failure(Error::Unexpected(i0[0])));
                        lemma_add_empty(done);
                    }
                    return Err(Error::Unexpected(c));
                },
                None => {
                    proof {
                        assert(run(l0, g0, i0) == failure(Error::EOF));
                        lemma_add_empty(done);
                    }
                    return Err(Error::EOF);
                },
            },
            State::EGoto => {
                proof {
                    lemma_keep_last(g0);
                }
                let t = stack[stack.len() - 1];
                if t == 5 {
                    proof {
                        lemma_step_silent(goal, done, State::EGoto, g0, i0, State::S8, g0, i0);
                    }
                    match input.next() {
                        Some('+') => {
                            stack.push(6);
                            proof {
                                lemma_wf_push(g0, 8u8);
                                lemma_keep_push(g0, 8u8);
                                assert(keep(g0).push(6u8) =~= keep(g0) + seq![6u8]);
                                lemma_step_silent(
                                    goal,
                                    done,
                                    State::S8,
                                    g0,
                                    i0,
                                    State::S6,
                                    g0.push(8u8),
                                    i0.skip(1),
                                );
                                gstack = g0.push(8u8);
                                glabel = State::S6;
                            }
                            label = State::S0;
                        },
                        Some(')') => {
                            let ghost g1 = g0.push(8u8);
                            let ghost i1 = i0.skip(1);
                            proof {
                                lemma_wf_push(g0, 8u8);
                                lemma_step_silent(goal, done, State::S8, g0, i0, State::S11, g1, i1);
                                lemma_wf_reduce(g1);
                                lemma_keep_push(g0, 8u8);
                                lemma_keep_reduce(g1);
                                assert(keep(pop2(g1)).push(5u8).drop_last() =~= keep(pop2(g1)));
                            }
                            let _ = stack.pop();  // 5
                            outprod(sink, Rule::FParen);
                            proof {
                                lemma_add_push(old(sink)@, done, Rule::FParen);
                                lemma_step_fire(
                                    goal,
                                    done,
                                    State::S11,
                                    g1,
                                    i1,
                                    Rule::FParen,
                                    State::FGoto,
                                    pop2(g1),
                                    i1,
                                );
                                done = done.push(Rule::FParen);
                                gstack = pop2(g1);
                                glabel = State::FGoto;
                            }
                            label = State::FGoto;
                        },
                        Some(c) => {
                            proof {
                                lemma_add_empty(done);
                            }
                            return Err(Error::Unexpected(c));
                        },
                        None => {
                            proof {
                                lemma_add_empty(done);
                            }
                            return Err(Error::EOF);
                        },
                    }
                } else {
                    proof {
                        lemma_step_silent(goal, done, State::EGoto, g0, i0, State::S1, g0, i0);
                    }
                    match input.next() {
                        Some('+') => {
                            stack.push(6);
                            proof {
                                lemma_wf_push(g0, 1u8);
                                lemma_keep_push(g0, 1u8);
                                assert(keep(g0).push(6u8) =~= keep(g0) + seq![6u8]);
                                lemma_step_silent(
                                    goal,
                                    done,
                                    State::S1,
                                    g0,
                                    i0,
                                    State::S6,
                                    g0.push(1u8),
                                    i0.skip(1),
                                );
                                gstack = g0.push(1u8);
                                glabel = State::S6;
                            }
                            label = State::S0;
                        },
                        Some(c) => {
                            proof {
                                lemma_add_empty(done);
                            }
                            return Err(Error::Unexpected(c));
                        },
                        None => {
                            outprod(sink, Rule::SE);
                            proof {
                                lemma_add_push(old(sink)@, done, Rule::SE);
                                assert(done.push(Rule::SE) =~= done + seq![Rule::SE]);
                            }
                            return Ok(());
                        },
                    }
                }
            },
            State::TGoto => {
                proof {
                    lemma_keep_last(g0);
                }
                let t = stack[stack.len() - 1];
                if t == 6 {
                    proof {
                        lemma_step_silent(goal, done, State::TGoto, g0, i0, State::S9, g0, i0);
                    }
                    match input.peek() {
                        Some('*') => {
                            let _ = input.next();  // *
                            stack.push(7);
                            proof {
                                lemma_wf_push(g0, 9u8);
                                lemma_keep_push(g0, 9u8);
                                assert(keep(g0).push(7u8) =~= keep(g0) + seq![7u8]);
                                lemma_step_silent(
                                    goal,
                                    done,
                                    State::S9,
                                    g0,
                                    i0,
                                    State::S7,
                                    g0.push(9u8),
                                    i0.skip(1),
                                );
                                gstack = g0.push(9u8);
                                glabel = State::S7;
                            }
                            label = State::S0;
                        },
                        _ => {
                            proof {
                                lemma_wf_reduce(g0);
                                lemma_keep_reduce(g0);
                                assert(keep(pop2(g0)).push(6u8).drop_last() =~= keep(pop2(g0)));
                            }
                            let _ = stack.pop();  // 6
                            outprod(sink, Rule::EET);
                            proof {
                                lemma_add_push(old(sink)@, done, Rule::EET);
                                lemma_step_fire(
                                    goal,
                                    done,
                                    State::S9,
                                    g0,
                                    i0,
                                    Rule::EET,
                                    State::EGoto,
                                    pop2(g0),
                                    i0,
                                );
                                done = done.push(Rule::EET);
                                gstack = pop2(g0);
                                glabel = State::EGoto;
                            }
                            label = State::EGoto;
                        },
                    }
                } else {
                    proof {
                        lemma_step_silent(goal, done, State::TGoto, g0, i0, State::S2, g0, i0);
                    }
                    match input.peek() {
                        Some('*') => {
                            let _ = input.next();  // *
                            stack.push(7);
                            proof {
                                lemma_wf_push(g0, 2u8);
                                lemma_keep_push(g0, 2u8);
                                assert(keep(g0).push(7u8) =~= keep(g0) + seq![7u8]);
                                lemma_step_silent(
                                    goal,
                                    done,
                                    State::S2,
                                    g0,
                                    i0,
                                    State::S7,
                                    g0.push(2u8),
                                    i0.skip(1),
                                );
                                gstack = g0.push(2u8);
                                glabel = State::S7;
                            }
                            label = State::S0;
                        },
                        _ => {
                            outprod(sink, Rule::ET);
                            proof {
                                lemma_add_push(old(sink)@, done, Rule::ET);
                                lemma_step_fire(
                                    goal,
                                    done,
                                    State::S2,
                                    g0,
                                    i0,
                                    Rule::ET,
                                    State::EGoto,
                                    g0,
                                    i0,
                                );
                                done = done.push(Rule::ET);
                                glabel = State::EGoto;
                            }
                            label = State::EGoto;
                        },
                    }
                }
            },
            State::FGoto => {
                proof {
                    lemma_keep_last(g0);
                }
                let t = stack[stack.len() - 1];
                if t == 7 {
                    proof {
                        lemma_step_silent(goal, done, State::FGoto, g0, i0, State::S10, g0, i0);
                        lemma_wf_reduce(g0);
                        lemma_keep_reduce(g0);
                        assert(keep(pop2(g0)).push(7u8).drop_last() =~= keep(pop2(g0)));
                    }
                    let _ = stack.pop();  // 7
                    outprod(sink, Rule::TTF);
                    proof {
                        lemma_add_push(old(sink)@, done, Rule::TTF);
                        lemma_step_fire(
                            goal,
                            done,
                            State::S10,
                            g0,
                            i0,
                            Rule::TTF,
                            State::TGoto,
                            pop2(g0),
                            i0,
                        );
                        done = done.push(Rule::TTF);
                        gstack = pop2(g0);
                        glabel = State::TGoto;
                    }
                    label = State::TGoto;
                } else {
                    proof {
                        lemma_step_silent(goal, done, State::FGoto, g0, i0, State::S3, g0, i0);
                    }
                    outprod(sink, Rule::TF);
                    proof {
                        lemma_add_push(old(sink)@, done, Rule::TF);
                        lemma_step_fire(goal, done, State::S3, g0, i0, Rule::TF, State::TGoto, g0, i0);
                        done = done.push(Rule::TF);
                        glabel = State::TGoto;
                    }
                    label = State::TGoto;
                }
            },
            State::S1 | State::S2 | State::S3 | State::S4 | State::S5 | State::S6 | State::S7
                | State::S8 | State::S9 | State::S10 | State::S11 => {
                return unreached();
            },
        }
    }
}

/// After exchanging the nested matches and factoring the label assignment,
/// only two labels remain: the shared shift label and `FGoto`, which now
/// performs the whole reduce cascade of one lookahead in place.
#[verifier::loop_isolation(false)]
pub fn parse_inline2(input: &mut Cursor, sink: &mut Vec<Rule>) -> (r: Result<(), Error>)
    requires
        old(input).wf(),
    ensures
        final(input).wf(),
        r == parse_spec(old(input)@).res,
        final(sink)@ == old(sink)@ + parse_spec(old(input)@).rules,
{
    let ghost goal = parse_spec(old(input)@);
    let mut stack: Vec<u8> = Vec::new();
    stack.push(0);
    let mut label = State::S0;
    let ghost mut glabel = State::S0;
    let ghost mut gstack: Seq<u8> = Seq::empty();
    let ghost mut done: Seq<Rule> = Seq::empty();
    proof {
        assert(keep(Seq::<u8>::empty()) == Seq::<u8>::empty());
        assert(stack@ =~= keep(Seq::<u8>::empty()) + seq![0u8]);
        assert(Seq::<Rule>::empty() + run(State::S0, Seq::empty(), old(input)@).rules
            =~= run(State::S0, Seq::empty(), old(input)@).rules);
    }
    loop
        invariant
            input.wf(),
            (glabel is S0 && gstack =~= Seq::<u8>::empty()) || (wf_stack(gstack) && top_ok(
                glabel,
                gstack,
            )),
            goto_merged(label, glabel),
            label is S0 || label is FGoto,
            stack@ == keep(gstack) + kept_marker(glabel),
            tracks(goal, done, glabel, gstack, input@),
            sink@ == old(sink)@ + done,
        decreases input@.len(), gstack.len(), rank(glabel),
    {
        let ghost g0 = gstack;
        let ghost i0 = input@;
        let ghost l0 = glabel;
        match label {
            State::S0 => match input.next() {
                Some('a') => {
                    let ghost g1 = g0.push(state_num(l0));
                    let ghost i1 = i0.skip(1);
                    proof {
                        if !(l0 is S0) {
                            lemma_wf_push(g0, state_num(l0));
                        }
                        assert(run(l0, g0, i0) == run(State::S4, g1, i1));
                        lemma_step_silent(goal, done, l0, g0, i0, State::S4, g1, i1);
                        lemma_keep_push(g0, state_num(l0));
                        assert(keep(g0).push(state_num(l0)) =~= keep(g0) + seq![state_num(l0)]);
                    }
                    outprod(sink, Rule::FA);
                    proof {
                        lemma_add_push(old(sink)@, done, Rule::FA);
                        lemma_step_fire(goal, done, State::S4, g1, i1, Rule::FA, State::FGoto, g1, i1);
                        done = done.push(Rule::FA);
                        gstack = g1;
                        glabel = State::FGoto;
                    }
                    label = State::FGoto;
                },
                Some('(') => {
                    stack.push(5);
                    proof {
                        if !(l0 is S0) {
                            lemma_wf_push(g0, state_num(l0));
                        }
                        assert(run(l0, g0, i0) == run(
                            State::S5,
                            g0.push(state_num(l0)),
                            i0.skip(1),
                        ));
                        lemma_step_silent(
                            goal,
                            done,
                            l0,
                            g0,
                            i0,
                            State::S5,
                            g0.push(state_num(l0)),
                            i0.skip(1),
                        );
                        lemma_keep_push(g0, state_num(l0));
                        lemma_marker_shift(keep(g0), state_num(l0), 5u8);
                        assert(keep(g0).push(state_num(l0)) =~= keep(g0) + seq![state_num(l0)]);
                        gstack = g0.push(state_num(l0));
                        glabel = State::S5;
                    }
                    label = State::S0;
                },
                Some(c) => {
                    proof {
                        assert(run(l0, g0, i0) == failure(Error::Unexpected(i0[0])));
                        lemma_add_empty(done);
                    }
                    return Err(Error::Unexpected(c));
                },
                None => {
                    proof {
                        assert(run(l0, g0, i0) == failure(Error::EOF));
                        lemma_add_empty(done);
                    }
                    return Err(Error::EOF);
                },
            },
            State::FGoto => {
                proof {
                    lemma_keep_last(g0);
                }
                let ghost mut g1 = g0;
                let t = stack[stack.len() - 1];
                if t == 7 {
                    proof {
                        lemma_step_silent(goal, done, State::FGoto, g0, i0, State::S10, g0, i0);
                        lemma_wf_reduce(g0);
                        lemma_keep_reduce(g0);
                        assert(keep(pop2(g0)).push(7u8).drop_last() =~= keep(pop2(g0)));
                    }
                    let _ = stack.pop();  // 7
                    outprod(sink, Rule::TTF);
                    proof {
                        lemma_add_push(old(sink)@, done, Rule::TTF);
                        lemma_step_fire(
                            goal,
                            done,
                            State::S10,
                            g0,
                            i0,
                            Rule::TTF,
                            State::TGoto,
                            pop2(g0),
                            i0,
                        );
                        done = done.push(Rule::TTF);
                        g1 = pop2(g0);
                    }
                } else {
                    proof {
                        lemma_step_silent(goal, done, State::FGoto, g0, i0, State::S3, g0, i0);
                    }
                    outprod(sink, Rule::TF);
                    proof {
                        lemma_add_push(old(sink)@, done, Rule::TF);
                        lemma_step_fire(goal, done, State::S3, g0, i0, Rule::TF, State::TGoto, g0, i0);
                        done = done.push(Rule::TF);
                    }
                }
                proof {
                    lemma_keep_last(g1);
                }
                match input.peek() {
                    Some('*') => {
                        let _ = input.next();  // *
                        let ghost mid = if g1.last() == 6 {
                            State::S9
                        } else {
                            State::S2
                        };
                        let ghost pv: u8 = if g1.last() == 6 {
                            9u8
                        } else {
                            2u8
                        };
                        stack.push(7);
                        proof {
                            lemma_step_silent(goal, done, State::TGoto, g1, i0, mid, g1, i0);
                            lemma_wf_push(g1, pv);
                            lemma_keep_push(g1, pv);
                            assert(run(mid, g1, i0) == run(State::S7, g1.push(pv), i0.skip(1)));
                            lemma_step_silent(
                                goal,
                                done,
                                mid,
                                g1,
                                i0,
                                State::S7,
                                g1.push(pv),
                                i0.skip(1),
                            );
                            assert(keep(g1).push(7u8) =~= keep(g1) + seq![7u8]);
                            gstack = g1.push(pv);
                            glabel = State::S7;
                        }
                        label = State::S0;
                    },
                    _ => {
                        let ghost mut g2 = g1;
                        let t2 = stack[stack.len() - 1];
                        if t2 == 6 {
                            proof {
                                lemma_step_silent(goal, done, State::TGoto, g1, i0, State::S9, g1, i0);
                                lemma_wf_reduce(g1);
                                lemma_keep_reduce(g1);
                                assert(keep(pop2(g1)).push(6u8).drop_last() =~= keep(pop2(g1)));
                            }
                            let _ = stack.pop();  // 6
                            outprod(sink, Rule::EET);
                            proof {
                                lemma_add_push(old(sink)@, done, Rule::EET);
                                lemma_step_fire(
                                    goal,
                                    done,
                                    State::S9,
                                    g1,
                                    i0,
                                    Rule::EET,
                                    State::EGoto,
                                    pop2(g1),
                                    i0,
                                );
                                done = done.push(Rule::EET);
                                g2 = pop2(g1);
                            }
                        } else {
                            proof {
                                lemma_step_silent(goal, done, State::TGoto, g1, i0, State::S2, g1, i0);
                            }
                            outprod(sink, Rule::ET);
                            proof {
                                lemma_add_push(old(sink)@, done, Rule::ET);
                                lemma_step_fire(
                                    goal,
                                    done,
                                    State::S2,
                                    g1,
                                    i0,
                                    Rule::ET,
                                    State::EGoto,
                                    g1,
                                    i0,
                                );
                                done = done.push(Rule::ET);
                            }
                        }
                        proof {
                            lemma_keep_last(g2);
                        }
                        let t3 = stack[stack.len() - 1];
                        if t3 == 5 {
                            proof {
                                lemma_step_silent(goal, done, State::EGoto, g2, i0, State::S8, g2, i0);
                            }
                            match input.next() {
                                Some('+') => {
                                    stack.push(6);
                                    proof {
                                        lemma_wf_push(g2, 8u8);
                                        lemma_keep_push(g2, 8u8);
                                        assert(keep(g2).push(6u8) =~= keep(g2) + seq![6u8]);
                                        lemma_step_silent(
                                            goal,
                                            done,
                                            State::S8,
                                            g2,
                                            i0,
                                            State::S6,
                                            g2.push(8u8),
                                            i0.skip(1),
                                        );
                                        gstack = g2.push(8u8);
                                        glabel = State::S6;
                                    }
                                    label = State::S0;
                                },
                                Some(')') => {
                                    let ghost g3 = g2.push(8u8);
                                    let ghost i1 = i0.skip(1);
                                    proof {
                                        lemma_wf_push(g2, 8u8);
                                        lemma_step_silent(
                                            goal,
                                            done,
                                            State::S8,
                                            g2,
                                            i0,
                                            State::S11,
                                            g3,
                                            i1,
                                        );
                                        lemma_wf_reduce(g3);
                                        lemma_keep_push(g2, 8u8);
                                        lemma_keep_reduce(g3);
                                        assert(keep(pop2(g3)).push(5u8).drop_last() =~= keep(
                                            pop2(g3),
                                        ));
                                    }
                                    let _ = stack.pop();  // 5
                                    outprod(sink, Rule::FParen);
                                    proof {
                                        lemma_add_push(old(sink)@, done, Rule::FParen);
                                        lemma_step_fire(
                                            goal,
                                            done,
                                            State::S11,
                                            g3,
                                            i1,
                                            Rule::FParen,
                                            State::FGoto,
                                            pop2(g3),
                                            i1,
                                        );
                                        done = done.push(Rule::FParen);
                                        gstack = pop2(g3);
                                        glabel = State::FGoto;
                                    }
                                    label = State::FGoto;  // (self)
                                },
                                Some(c) => {
                                    proof {
                                        lemma_add_empty(done);
                                    }
                                    return Err(Error::Unexpected(c));
                                },
                                None => {
                                    proof {
                                        lemma_add_empty(done);
                                    }
                                    return Err(Error::EOF);
                                },
                            }
                        } else {
                            proof {
                                lemma_step_silent(goal, done, State::EGoto, g2, i0, State::S1, g2, i0);
                            }
                            match input.next() {
                                Some('+') => {
                                    stack.push(6);
                                    proof {
                                        lemma_wf_push(g2, 1u8);
                                        lemma_keep_push(g2, 1u8);
                                        assert(keep(g2).push(6u8) =~= keep(g2) + seq![6u8]);
                                        lemma_step_silent(
                                            goal,
                                            done,
                                            State::S1,
                                            g2,
                                            i0,
                                            State::S6,
                                            g2.push(1u8),
                                            i0.skip(1),
                                        );
                                        gstack = g2.push(1u8);
                                        glabel = State::S6;
                                    }
                                    label = State::S0;
                                },
                                Some(c) => {
                                    proof {
                                        lemma_add_empty(done);
                                    }
                                    return Err(Error::Unexpected(c));
                                },
                                None => {
                                    outprod(sink, Rule::SE);
                                    proof {
                                        lemma_add_push(old(sink)@, done, Rule::SE);
                                        assert(done.push(Rule::SE) =~= done + seq![Rule::SE]);
                                    }
                                    return Ok(());
                                },
                            }
                        }
                    },
                }
            },
            _ => {
                return unreached();
            },
        }
    }
}

/// The numbers a stack of labels stands for.
spec fn nums(s: Seq<StackLabel>) -> Seq<u8> {
    s.map_values(|l: StackLabel| sl_num(l))
}

/// Like [`parse_inline2`], but with one `next` per step: the lookahead is
/// consumed up front and carried into the reduce cascade, and the stack
/// holds the typed labels of the minimal push set.
#[verifier::loop_isolation(false)]
pub fn parse_single_input_next1(input: &mut Cursor, sink: &mut Vec<Rule>) -> (r: Result<(), Error>)
    requires
        old(input).wf(),
    ensures
        final(input).wf(),
        r == parse_spec(old(input)@).res,
        final(sink)@ == old(sink)@ + parse_spec(old(input)@).rules,
{
    let ghost goal = parse_spec(old(input)@);
    let mut stack: Vec<StackLabel> = Vec::new();
    stack.push(StackLabel::SL0);
    let mut label = State::S0;
    let ghost mut glabel = State::S0;
    let ghost mut gstack: Seq<u8> = Seq::empty();
    let ghost mut done: Seq<Rule> = Seq::empty();
    proof {
        assert(keep(Seq::<u8>::empty()) == Seq::<u8>::empty());
        assert(nums(stack@) =~= keep(Seq::<u8>::empty()) + seq![0u8]);
        assert(Seq::<Rule>::empty() + run(State::S0, Seq::empty(), old(input)@).rules
            =~= run(State::S0, Seq::empty(), old(input)@).rules);
    }
    loop
        invariant
            input.wf(),
            (glabel is S0 && gstack =~= Seq::<u8>::empty()) || (wf_stack(gstack) && top_ok(
                glabel,
                gstack,
            )),
            goto_merged(label, glabel),
            label is S0 || label is FGoto,
            nums(stack@) == keep(gstack) + kept_marker(glabel),
            tracks(goal, done, glabel, gstack, input@),
            sink@ == old(sink)@ + done,
        decreases input@.len(), gstack.len(), rank(glabel),
    {
        let ghost g0 = gstack;
        let ghost i0 = input@;
        let ghost l0 = glabel;
        match label {
            State::S0 => match input.next() {
                Some('a') => {
                    let ghost g1 = g0.push(state_num(l0));
                    let ghost i1 = i0.skip(1);
                    proof {
                        if !(l0 is S0) {
                            lemma_wf_push(g0, state_num(l0));
                        }
                        assert(run(l0, g0, i0) == run(State::S4, g1, i1));
                        lemma_step_silent(goal, done, l0, g0, i0, State::S4, g1, i1);
                        lemma_keep_push(g0, state_num(l0));
                        assert(keep(g0).push(state_num(l0)) =~= keep(g0) + seq![state_num(l0)]);
                    }
                    outprod(sink, Rule::FA);
                    proof {
                        lemma_add_push(old(sink)@, done, Rule::FA);
                        lemma_step_fire(goal, done, State::S4, g1, i1, Rule::FA, State::FGoto, g1, i1);
                        done = done.push(Rule::FA);
                        gstack = g1;
                        glabel = State::FGoto;
                    }
                    label = State::FGoto;
                },
                Some('(') => {
                    proof {
                        assert(nums(stack@.push(StackLabel::SL5)) =~= nums(stack@).push(5u8));
                    }
                    stack.push(StackLabel::SL5);
                    proof {
                        if !(l0 is S0) {
                            lemma_wf_push(g0, state_num(l0));
                        }
                        assert(run(l0, g0, i0) == run(
                            State::S5,
                            g0.push(state_num(l0)),
                            i0.skip(1),
                        ));
                        lemma_step_silent(
                            goal,
                            done,
                            l0,
                            g0,
                            i0,
                            State::S5,
                            g0.push(state_num(l0)),
                            i0.skip(1),
                        );
                        lemma_keep_push(g0, state_num(l0));
                        lemma_marker_shift(keep(g0), state_num(l0), 5u8);
                        assert(keep(g0).push(state_num(l0)) =~= keep(g0) + seq![state_num(l0)]);
                        gstack = g0.push(state_num(l0));
                        glabel = State::S5;
                    }
                    label = State::S0;
                },
                Some(c) => {
                    proof {
                        assert(run(l0, g0, i0) == failure(Error::Unexpected(i0[0])));
                        lemma_add_empty(done);
                    }
                    return Err(Error::Unexpected(c));
                },
                None => {
                    proof {
                        assert(run(l0, g0, i0) == failure(Error::EOF));
                        lemma_add_empty(done);
                    }
                    return Err(Error::EOF);
                },
            },
            State::FGoto => {
                proof {
                    lemma_keep_last(g0);
                }
                let ghost mut g1 = g0;
                match stack[stack.len() - 1] {
                    StackLabel::SL7 => {
                        proof {
                            lemma_step_silent(goal, done, State::FGoto, g0, i0, State::S10, g0, i0);
                            lemma_wf_reduce(g0);
                            lemma_keep_reduce(g0);
                            assert(nums(stack@.drop_last()) =~= nums(stack@).drop_last());
                            assert(keep(pop2(g0)).push(7u8).drop_last() =~= keep(pop2(g0)));
                        }
                        let _ = stack.pop();  // 7
                        outprod(sink, Rule::TTF);
                        proof {
                            lemma_add_push(old(sink)@, done, Rule::TTF);
                            lemma_step_fire(
                                goal,
                                done,
                                State::S10,
                                g0,
                                i0,
                                Rule::TTF,
                                State::TGoto,
                                pop2(g0),
                                i0,
                            );
                            done = done.push(Rule::TTF);
                            g1 = pop2(g0);
                        }
                    },
                    _ => {
                        proof {
                            lemma_step_silent(goal, done, State::FGoto, g0, i0, State::S3, g0, i0);
                        }
                        outprod(sink, Rule::TF);
                        proof {
                            lemma_add_push(old(sink)@, done, Rule::TF);
                            lemma_step_fire(
                                goal,
                                done,
                                State::S3,
                                g0,
                                i0,
                                Rule::TF,
                                State::TGoto,
                                g0,
                                i0,
                            );
                            done = done.push(Rule::TF);
                        }
                    },
                }
                proof {
                    lemma_keep_last(g1);
                }
                match input.next() {
                    Some('*') => {
                        let ghost mid = if g1.last() == 6 {
                            State::S9
                        } else {
                            State::S2
                        };
                        let ghost pv: u8 = if g1.last() == 6 {
                            9u8
                        } else {
                            2u8
                        };
                        proof {
                            assert(nums(stack@.push(StackLabel::SL7)) =~= nums(stack@).push(7u8));
                        }
                        stack.push(StackLabel::SL7);
                        proof {
                            lemma_step_silent(goal, done, State::TGoto, g1, i0, mid, g1, i0);
                            lemma_wf_push(g1, pv);
                            lemma_keep_push(g1, pv);
                            assert(run(mid, g1, i0) == run(State::S7, g1.push(pv), i0.skip(1)));
                            lemma_step_silent(
                                goal,
                                done,
                                mid,
                                g1,
                                i0,
                                State::S7,
                                g1.push(pv),
                                i0.skip(1),
                            );
                            assert(keep(g1).push(7u8) =~= keep(g1) + seq![7u8]);
                            gstack = g1.push(pv);
                            glabel = State::S7;
                        }
                        label = State::S0;
                    },
                    i => {
                        let ghost mut g2 = g1;
                        match stack[stack.len() - 1] {
                            StackLabel::SL6 => {
                                proof {
                                    lemma_step_silent(
                                        goal,
                                        done,
                                        State::TGoto,
                                        g1,
                                        i0,
                                        State::S9,
                                        g1,
                                        i0,
                                    );
                                    lemma_wf_reduce(g1);
                                    lemma_keep_reduce(g1);
                                    assert(nums(stack@.drop_last()) =~= nums(stack@).drop_last());
                                    assert(keep(pop2(g1)).push(6u8).drop_last() =~= keep(pop2(g1)));
                                }
                                let _ = stack.pop();  // 6
                                outprod(sink, Rule::EET);
                                proof {
                                    lemma_add_push(old(sink)@, done, Rule::EET);
                                    lemma_step_fire(
                                        goal,
                                        done,
                                        State::S9,
                                        g1,
                                        i0,
                                        Rule::EET,
                                        State::EGoto,
                                        pop2(g1),
                                        i0,
                                    );
                                    done = done.push(Rule::EET);
                                    g2 = pop2(g1);
                                }
                            },
                            _ => {
                                proof {
                                    lemma_step_silent(
                                        goal,
                                        done,
                                        State::TGoto,
                                        g1,
                                        i0,
                                        State::S2,
                                        g1,
                                        i0,
                                    );
                                }
                                outprod(sink, Rule::ET);
                                proof {
                                    lemma_add_push(old(sink)@, done, Rule::ET);
                                    lemma_step_fire(
                                        goal,
                                        done,
                                        State::S2,
                                        g1,
                                        i0,
                                        Rule::ET,
                                        State::EGoto,
                                        g1,
                                        i0,
                                    );
                                    done = done.push(Rule::ET);
                                }
                            },
                        }
                        let ghost mid2 = if g2.last() == 5 {
                            State::S8
                        } else {
                            State::S1
                        };
                        proof {
                            lemma_keep_last(g2);
                            lemma_step_silent(goal, done, State::EGoto, g2, i0, mid2, g2, i0);
                        }
                        match i {
                            Some('+') => {
                                let ghost pv2: u8 = if g2.last() == 5 {
                                    8u8
                                } else {
                                    1u8
                                };
                                proof {
                                    assert(nums(stack@.push(StackLabel::SL6)) =~= nums(
                                        stack@,
                                    ).push(6u8));
                                }
                                stack.push(StackLabel::SL6);
                                proof {
                                    lemma_wf_push(g2, pv2);
                                    lemma_keep_push(g2, pv2);
                                    assert(run(mid2, g2, i0) == run(
                                        State::S6,
                                        g2.push(pv2),
                                        i0.skip(1),
                                    ));
                                    lemma_step_silent(
                                        goal,
                                        done,
                                        mid2,
                                        g2,
                                        i0,
                                        State::S6,
                                        g2.push(pv2),
                                        i0.skip(1),
                                    );
                                    assert(keep(g2).push(6u8) =~= keep(g2) + seq![6u8]);
                                    gstack = g2.push(pv2);
                                    glabel = State::S6;
                                }
                                label = State::S0;
                            },
                            Some(')') => match stack[stack.len() - 1] {
                                StackLabel::SL5 => {
                                    let ghost g3 = g2.push(8u8);
                                    let ghost i1 = i0.skip(1);
                                    proof {
                                        lemma_wf_push(g2, 8u8);
                                        lemma_step_silent(
                                            goal,
                                            done,
                                            State::S8,
                                            g2,
                                            i0,
                                            State::S11,
                                            g3,
                                            i1,
                                        );
                                        lemma_wf_reduce(g3);
                                        lemma_keep_push(g2, 8u8);
                                        lemma_keep_reduce(g3);
                                        assert(nums(stack@.drop_last()) =~= nums(
                                            stack@,
                                        ).drop_last());
                                        assert(keep(pop2(g3)).push(5u8).drop_last() =~= keep(
                                            pop2(g3),
                                        ));
                                    }
                                    let _ = stack.pop();  // 5
                                    outprod(sink, Rule::FParen);
                                    proof {
                                        lemma_add_push(old(sink)@, done, Rule::FParen);
                                        lemma_step_fire(
                                            goal,
                                            done,
                                            State::S11,
                                            g3,
                                            i1,
                                            Rule::FParen,
                                            State::FGoto,
                                            pop2(g3),
                                            i1,
                                        );
                                        done = done.push(Rule::FParen);
                                        gstack = pop2(g3);
                                        glabel = State::FGoto;
                                    }
                                    label = State::FGoto;  // (self)
                                },
                                _ => {
                                    proof {
                                        assert(run(mid2, g2, i0) == failure(
                                            Error::Unexpected(i0[0]),
                                        ));
                                        lemma_add_empty(done);
                                    }
                                    return Err(Error::Unexpected(')'));
                                },
                            },
                            Some(c) => {
                                proof {
                                    assert(run(mid2, g2, i0) == failure(Error::Unexpected(i0[0])));
                                    lemma_add_empty(done);
                                }
                                return Err(Error::Unexpected(c));
                            },
                            None => match stack[stack.len() - 1] {
                                StackLabel::SL5 => {
                                    proof {
                                        assert(run(mid2, g2, i0) == failure(Error::EOF));
                                        lemma_add_empty(done);
                                    }
                                    return Err(Error::EOF);
                                },
                                _ => {
                                    outprod(sink, Rule::SE);
                                    proof {
                                        lemma_add_push(old(sink)@, done, Rule::SE);
                                        assert(done.push(Rule::SE) =~= done + seq![Rule::SE]);
                                    }
                                    return Ok(());
                                },
                            },
                        }
                    },
                }
            },
            _ => {
                return unreached();
            },
        }
    }
}

/// The furthest rewrite: one `next` per iteration over the cached-top
/// [`Parser`], two labels, and marker reuse — a reduction whose popped
/// label is about to be pushed again leaves it in place.
#[verifier::loop_isolation(false)]
pub fn parse_single_input_next(input: &mut Cursor, sink: &mut Vec<Rule>) -> (r: Result<(), Error>)
    requires
        old(input).wf(),
    ensures
        final(input).wf(),
        r == parse_spec(old(input)@).res,
        final(sink)@ == old(sink)@ + parse_spec(old(input)@).rules,
{
    let ghost goal = parse_spec(old(input)@);
    let mut p = Parser::default();
    let ghost mut glabel = State::S0;
    let ghost mut gstack: Seq<u8> = Seq::empty();
    let ghost mut done: Seq<Rule> = Seq::empty();
    proof {
        assert(keep(Seq::<u8>::empty()) == Seq::<u8>::empty());
        assert(p.labels() =~= keep(Seq::<u8>::empty()) + seq![0u8]);
        assert(Seq::<Rule>::empty() + run(State::S0, Seq::empty(), old(input)@).rules
            =~= run(State::S0, Seq::empty(), old(input)@).rules);
    }
    loop
        invariant
            input.wf(),
            (glabel is S0 && gstack =~= Seq::<u8>::empty()) || (wf_stack(gstack) && top_ok(
                glabel,
                gstack,
            )),
            goto_merged(p.label, glabel),
            p.label is S0 || p.label is FGoto,
            p.labels() == keep(gstack) + kept_marker(glabel),
            tracks(goal, done, glabel, gstack, input@),
            sink@ == old(sink)@ + done,
        decreases input@.len(), gstack.len(), rank(glabel),
    {
        let ghost g0 = gstack;
        let ghost i0 = input@;
        let ghost l0 = glabel;
        match (p.label, input.next()) {
            (State::S0, Some('a')) => {
                let ghost g1 = g0.push(state_num(l0));
                let ghost i1 = i0.skip(1);
                proof {
                    if !(l0 is S0) {
                        lemma_wf_push(g0, state_num(l0));
                    }
                    assert(run(l0, g0, i0) == run(State::S4, g1, i1));
                    lemma_step_silent(goal, done, l0, g0, i0, State::S4, g1, i1);
                    lemma_keep_push(g0, state_num(l0));
                    assert(keep(g0).push(state_num(l0)) =~= keep(g0) + seq![state_num(l0)]);
                }
                outprod(sink, Rule::FA);
                proof {
                    lemma_add_push(old(sink)@, done, Rule::FA);
                    lemma_step_fire(goal, done, State::S4, g1, i1, Rule::FA, State::FGoto, g1, i1);
                    done = done.push(Rule::FA);
                    gstack = g1;
                    glabel = State::FGoto;
                }
                p.label = State::FGoto;
            },
            (State::S0, Some('(')) => {
                p.push(StackLabel::SL5);
                proof {
                    if !(l0 is S0) {
                        lemma_wf_push(g0, state_num(l0));
                    }
                    assert(run(l0, g0, i0) == run(State::S5, g0.push(state_num(l0)), i0.skip(1)));
                    lemma_step_silent(
                        goal,
                        done,
                        l0,
                        g0,
                        i0,
                        State::S5,
                        g0.push(state_num(l0)),
                        i0.skip(1),
                    );
                    lemma_keep_push(g0, state_num(l0));
                    lemma_marker_shift(keep(g0), state_num(l0), 5u8);
                    assert(keep(g0).push(state_num(l0)) =~= keep(g0) + seq![state_num(l0)]);
                    gstack = g0.push(state_num(l0));
                    glabel = State::S5;
                }
                // the label stays: the shared shift state shifts into itself
            },
            (State::S0, Some(c)) => {
                proof {
                    assert(run(l0, g0, i0) == failure(Error::Unexpected(i0[0])));
                    lemma_add_empty(done);
                }
                return Err(Error::Unexpected(c));
            },
            (State::S0, None) => {
                proof {
                    assert(run(l0, g0, i0) == failure(Error::EOF));
                    lemma_add_empty(done);
                }
                return Err(Error::EOF);
            },
            (State::FGoto, Some('*')) => {
                proof {
                    lemma_keep_last(g0);
                }
                let ghost mut g1 = g0;
                match p.peek() {
                    StackLabel::SL7 => {
                        // the popped label is pushed right back for the next
                        // factor: leave it in place
                        proof {
                            lemma_step_silent(goal, done, State::FGoto, g0, i0, State::S10, g0, i0);
                            lemma_wf_reduce(g0);
                            lemma_keep_reduce(g0);
                        }
                        outprod(sink, Rule::TTF);
                        proof {
                            lemma_add_push(old(sink)@, done, Rule::TTF);
                            lemma_step_fire(
                                goal,
                                done,
                                State::S10,
                                g0,
                                i0,
                                Rule::TTF,
                                State::TGoto,
                                pop2(g0),
                                i0,
                            );
                            done = done.push(Rule::TTF);
                            g1 = pop2(g0);
                        }
                    },
                    _ => {
                        proof {
                            lemma_step_silent(goal, done, State::FGoto, g0, i0, State::S3, g0, i0);
                        }
                        outprod(sink, Rule::TF);
                        proof {
                            lemma_add_push(old(sink)@, done, Rule::TF);
                            lemma_step_fire(
                                goal,
                                done,
                                State::S3,
                                g0,
                                i0,
                                Rule::TF,
                                State::TGoto,
                                g0,
                                i0,
                            );
                            done = done.push(Rule::TF);
                        }
                        p.push(StackLabel::SL7);
                    },
                }
                let ghost mid = if g1.last() == 6 {
                    State::S9
                } else {
                    State::S2
                };
                let ghost pv: u8 = if g1.last() == 6 {
                    9u8
                } else {
                    2u8
                };
                proof {
                    lemma_keep_last(g1);
                    lemma_step_silent(goal, done, State::TGoto, g1, i0, mid, g1, i0);
                    lemma_wf_push(g1, pv);
                    lemma_keep_push(g1, pv);
                    assert(run(mid, g1, i0) == run(State::S7, g1.push(pv), i0.skip(1)));
                    lemma_step_silent(goal, done, mid, g1, i0, State::S7, g1.push(pv), i0.skip(1));
                    assert(keep(g1).push(7u8) =~= keep(g1) + seq![7u8]);
                    gstack = g1.push(pv);
                    glabel = State::S7;
                }
                p.label = State::S0;
            },
            (State::FGoto, Some('+')) => {
                proof {
                    lemma_keep_last(g0);
                }
                let ghost mut g1 = g0;
                match p.peek() {
                    StackLabel::SL7 => {
                        proof {
                            lemma_step_silent(goal, done, State::FGoto, g0, i0, State::S10, g0, i0);
                            lemma_wf_reduce(g0);
                            lemma_keep_reduce(g0);
                            lemma_keep_bottom(pop2(g0));
                            assert(keep(pop2(g0)).push(7u8).drop_last() =~= keep(pop2(g0)));
                        }
                        p.pop();  // 7
                        outprod(sink, Rule::TTF);
                        proof {
                            lemma_add_push(old(sink)@, done, Rule::TTF);
                            lemma_step_fire(
                                goal,
                                done,
                                State::S10,
                                g0,
                                i0,
                                Rule::TTF,
                                State::TGoto,
                                pop2(g0),
                                i0,
                            );
                            done = done.push(Rule::TTF);
                            g1 = pop2(g0);
                        }
                    },
                    _ => {
                        proof {
                            lemma_step_silent(goal, done, State::FGoto, g0, i0, State::S3, g0, i0);
                        }
                        outprod(sink, Rule::TF);
                        proof {
                            lemma_add_push(old(sink)@, done, Rule::TF);
                            lemma_step_fire(
                                goal,
                                done,
                                State::S3,
                                g0,
                                i0,
                                Rule::TF,
                                State::TGoto,
                                g0,
                                i0,
                            );
                            done = done.push(Rule::TF);
                        }
                    },
                }
                proof {
                    lemma_keep_last(g1);
                }
                let ghost mut g2 = g1;
                match p.peek() {
                    StackLabel::SL6 => {
                        // the popped label is pushed right back for the next
                        // term: leave it in place
                        proof {
                            lemma_step_silent(goal, done, State::TGoto, g1, i0, State::S9, g1, i0);
                            lemma_wf_reduce(g1);
                            lemma_keep_reduce(g1);
                        }
                        outprod(sink, Rule::EET);
                        proof {
                            lemma_add_push(old(sink)@, done, Rule::EET);
                            lemma_step_fire(
                                goal,
                                done,
                                State::S9,
                                g1,
                                i0,
                                Rule::EET,
                                State::EGoto,
                                pop2(g1),
                                i0,
                            );
                            done = done.push(Rule::EET);
                            g2 = pop2(g1);
                        }
                    },
                    _ => {
                        proof {
                            lemma_step_silent(goal, done, State::TGoto, g1, i0, State::S2, g1, i0);
                        }
                        outprod(sink, Rule::ET);
                        proof {
                            lemma_add_push(old(sink)@, done, Rule::ET);
                            lemma_step_fire(
                                goal,
                                done,
                                State::S2,
                                g1,
                                i0,
                                Rule::ET,
                                State::EGoto,
                                g1,
                                i0,
                            );
                            done = done.push(Rule::ET);
                        }
                        p.push(StackLabel::SL6);
                    },
                }
                let ghost mid2 = if g2.last() == 5 {
                    State::S8
                } else {
                    State::S1
                };
                let ghost pv2: u8 = if g2.last() == 5 {
                    8u8
                } else {
                    1u8
                };
                proof {
                    lemma_keep_last(g2);
                    lemma_step_silent(goal, done, State::EGoto, g2, i0, mid2, g2, i0);
                    lemma_wf_push(g2, pv2);
                    lemma_keep_push(g2, pv2);
                    assert(run(mid2, g2, i0) == run(State::S6, g2.push(pv2), i0.skip(1)));
                    lemma_step_silent(goal, done, mid2, g2, i0, State::S6, g2.push(pv2), i0.skip(1));
                    assert(keep(g2).push(6u8) =~= keep(g2) + seq![6u8]);
                    gstack = g2.push(pv2);
                    glabel = State::S6;
                }
                p.label = State::S0;
            },
            (State::FGoto, Some(')')) => {
                proof {
                    lemma_keep_last(g0);
                }
                let ghost mut g1 = g0;
                match p.peek() {
                    StackLabel::SL7 => {
                        proof {
                            lemma_step_silent(goal, done, State::FGoto, g0, i0, State::S10, g0, i0);
                            lemma_wf_reduce(g0);
                            lemma_keep_reduce(g0);
                            lemma_keep_bottom(pop2(g0));
                            assert(keep(pop2(g0)).push(7u8).drop_last() =~= keep(pop2(g0)));
                        }
                        p.pop();  // 7
                        outprod(sink, Rule::TTF);
                        proof {
                            lemma_add_push(old(sink)@, done, Rule::TTF);
                            lemma_step_fire(
                                goal,
                                done,
                                State::S10,
                                g0,
                                i0,
                                Rule::TTF,
                                State::TGoto,
                                pop2(g0),
                                i0,
                            );
                            done = done.push(Rule::TTF);
                            g1 = pop2(g0);
                        }
                    },
                    _ => {
                        proof {
                            lemma_step_silent(goal, done, State::FGoto, g0, i0, State::S3, g0, i0);
                        }
                        outprod(sink, Rule::TF);
                        proof {
                            lemma_add_push(old(sink)@, done, Rule::TF);
                            lemma_step_fire(
                                goal,
                                done,
                                State::S3,
                                g0,
                                i0,
                                Rule::TF,
                                State::TGoto,
                                g0,
                                i0,
                            );
                            done = done.push(Rule::TF);
                        }
                    },
                }
                proof {
                    lemma_keep_last(g1);
                }
                let ghost mut g2 = g1;
                match p.peek() {
                    StackLabel::SL6 => {
                        proof {
                            lemma_step_silent(goal, done, State::TGoto, g1, i0, State::S9, g1, i0);
                            lemma_wf_reduce(g1);
                            lemma_keep_reduce(g1);
                            lemma_keep_bottom(pop2(g1));
                            assert(keep(pop2(g1)).push(6u8).drop_last() =~= keep(pop2(g1)));
                        }
                        p.pop();  // 6
                        outprod(sink, Rule::EET);
                        proof {
                            lemma_add_push(old(sink)@, done, Rule::EET);
                            lemma_step_fire(
                                goal,
                                done,
                                State::S9,
                                g1,
                                i0,
                                Rule::EET,
                                State::EGoto,
                                pop2(g1),
                                i0,
                            );
                            done = done.push(Rule::EET);
                            g2 = pop2(g1);
                        }
                    },
                    _ => {
                        proof {
                            lemma_step_silent(goal, done, State::TGoto, g1, i0, State::S2, g1, i0);
                        }
                        outprod(sink, Rule::ET);
                        proof {
                            lemma_add_push(old(sink)@, done, Rule::ET);
                            lemma_step_fire(
                                goal,
                                done,
                                State::S2,
                                g1,
                                i0,
                                Rule::ET,
                                State::EGoto,
                                g1,
                                i0,
                            );
                            done = done.push(Rule::ET);
                        }
                    },
                }
                proof {
                    lemma_keep_last(g2);
                    lemma_step_silent(
                        goal,
                        done,
                        State::EGoto,
                        g2,
                        i0,
                        if g2.last() == 5 {
                            State::S8
                        } else {
                            State::S1
                        },
                        g2,
                        i0,
                    );
                }
                match p.peek() {
                    StackLabel::SL5 => {
                        let ghost g3 = g2.push(8u8);
                        let ghost i1 = i0.skip(1);
                        proof {
                            lemma_wf_push(g2, 8u8);
                            lemma_step_silent(goal, done, State::S8, g2, i0, State::S11, g3, i1);
                            lemma_wf_reduce(g3);
                            lemma_keep_push(g2, 8u8);
                            lemma_keep_reduce(g3);
                            lemma_keep_bottom(pop2(g3));
                            assert(keep(pop2(g3)).push(5u8).drop_last() =~= keep(pop2(g3)));
                        }
                        p.pop();  // 5
                        outprod(sink, Rule::FParen);
                        proof {
                            lemma_add_push(old(sink)@, done, Rule::FParen);
                            lemma_step_fire(
                                goal,
                                done,
                                State::S11,
                                g3,
                                i1,
                                Rule::FParen,
                                State::FGoto,
                                pop2(g3),
                                i1,
                            );
                            done = done.push(Rule::FParen);
                            gstack = pop2(g3);
                            glabel = State::FGoto;
                        }
                        // the label stays: the goto resolves into itself
                    },
                    _ => {
                        proof {
                            assert(run(State::S1, g2, i0) == failure(Error::Unexpected(i0[0])));
                            lemma_add_empty(done);
                        }
                        return Err(Error::Unexpected(')'));
                    },
                }
            },
            (State::FGoto, Some(c)) => {
                proof {
                    lemma_keep_last(g0);
                }
                let ghost mut g1 = g0;
                match p.peek() {
                    StackLabel::SL7 => {
                        proof {
                            lemma_step_silent(goal, done, State::FGoto, g0, i0, State::S10, g0, i0);
                            lemma_wf_reduce(g0);
                            lemma_keep_reduce(g0);
                            lemma_keep_bottom(pop2(g0));
                            assert(keep(pop2(g0)).push(7u8).drop_last() =~= keep(pop2(g0)));
                        }
                        p.pop();  // 7
                        outprod(sink, Rule::TTF);
                        proof {
                            lemma_add_push(old(sink)@, done, Rule::TTF);
                            lemma_step_fire(
                                goal,
                                done,
                                State::S10,
                                g0,
                                i0,
                                Rule::TTF,
                                State::TGoto,
                                pop2(g0),
                                i0,
                            );
                            done = done.push(Rule::TTF);
                            g1 = pop2(g0);
                        }
                    },
                    _ => {
                        proof {
                            lemma_step_silent(goal, done, State::FGoto, g0, i0, State::S3, g0, i0);
                        }
                        outprod(sink, Rule::TF);
                        proof {
                            lemma_add_push(old(sink)@, done, Rule::TF);
                            lemma_step_fire(
                                goal,
                                done,
                                State::S3,
                                g0,
                                i0,
                                Rule::TF,
                                State::TGoto,
                                g0,
                                i0,
                            );
                            done = done.push(Rule::TF);
                        }
                    },
                }
                proof {
                    lemma_keep_last(g1);
                }
                let ghost mut g2 = g1;
                match p.peek() {
                    StackLabel::SL6 => {
                        proof {
                            lemma_step_silent(goal, done, State::TGoto, g1, i0, State::S9, g1, i0);
                            lemma_wf_reduce(g1);
                            lemma_keep_reduce(g1);
                            lemma_keep_bottom(pop2(g1));
                            assert(keep(pop2(g1)).push(6u8).drop_last() =~= keep(pop2(g1)));
                        }
                        p.pop();  // 6
                        outprod(sink, Rule::EET);
                        proof {
                            lemma_add_push(old(sink)@, done, Rule::EET);
                            lemma_step_fire(
                                goal,
                                done,
                                State::S9,
                                g1,
                                i0,
                                Rule::EET,
                                State::EGoto,
                                pop2(g1),
                                i0,
                            );
                            done = done.push(Rule::EET);
                            g2 = pop2(g1);
                        }
                    },
                    _ => {
                        proof {
                            lemma_step_silent(goal, done, State::TGoto, g1, i0, State::S2, g1, i0);
                        }
                        outprod(sink, Rule::ET);
                        proof {
                            lemma_add_push(old(sink)@, done, Rule::ET);
                            lemma_step_fire(
                                goal,
                                done,
                                State::S2,
                                g1,
                                i0,
                                Rule::ET,
                                State::EGoto,
                                g1,
                                i0,
                            );
                            done = done.push(Rule::ET);
                        }
                    },
                }
                proof {
                    lemma_keep_last(g2);
                    lemma_step_silent(
                        goal,
                        done,
                        State::EGoto,
                        g2,
                        i0,
                        if g2.last() == 5 {
                            State::S8
                        } else {
                            State::S1
                        },
                        g2,
                        i0,
                    );
                    assert(run(
                        if g2.last() == 5 {
                            State::S8
                        } else {
                            State::S1
                        },
                        g2,
                        i0,
                    ) == failure(Error::Unexpected(i0[0])));
                    lemma_add_empty(done);
                }
                return Err(Error::Unexpected(c));
            },
            (State::FGoto, None) => {
                proof {
                    lemma_keep_last(g0);
                }
                let ghost mut g1 = g0;
                match p.peek() {
                    StackLabel::SL7 => {
                        proof {
                            lemma_step_silent(goal, done, State::FGoto, g0, i0, State::S10, g0, i0);
                            lemma_wf_reduce(g0);
                            lemma_keep_reduce(g0);
                            lemma_keep_bottom(pop2(g0));
                            assert(keep(pop2(g0)).push(7u8).drop_last() =~= keep(pop2(g0)));
                        }
                        p.pop();  // 7
                        outprod(sink, Rule::TTF);
                        proof {
                            lemma_add_push(old(sink)@, done, Rule::TTF);
                            lemma_step_fire(
                                goal,
                                done,
                                State::S10,
                                g0,
                                i0,
                                Rule::TTF,
                                State::TGoto,
                                pop2(g0),
                                i0,
                            );
                            done = done.push(Rule::TTF);
                            g1 = pop2(g0);
                        }
                    },
                    _ => {
                        proof {
                            lemma_step_silent(goal, done, State::FGoto, g0, i0, State::S3, g0, i0);
                        }
                        outprod(sink, Rule::TF);
                        proof {
                            lemma_add_push(old(sink)@, done, Rule::TF);
                            lemma_step_fire(
                                goal,
                                done,
                                State::S3,
                                g0,
                                i0,
                                Rule::TF,
                                State::TGoto,
                                g0,
                                i0,
                            );
                            done = done.push(Rule::TF);
                        }
                    },
                }
                proof {
                    lemma_keep_last(g1);
                }
                let ghost mut g2 = g1;
                match p.peek() {
                    StackLabel::SL6 => {
                        proof {
                            lemma_step_silent(goal, done, State::TGoto, g1, i0, State::S9, g1, i0);
                            lemma_wf_reduce(g1);
                            lemma_keep_reduce(g1);
                            lemma_keep_bottom(pop2(g1));
                            assert(keep(pop2(g1)).push(6u8).drop_last() =~= keep(pop2(g1)));
                        }
                        p.pop();  // 6
                        outprod(sink, Rule::EET);
                        proof {
                            lemma_add_push(old(sink)@, done, Rule::EET);
                            lemma_step_fire(
                                goal,
                                done,
                                State::S9,
                                g1,
                                i0,
                                Rule::EET,
                                State::EGoto,
                                pop2(g1),
                                i0,
                            );
                            done = done.push(Rule::EET);
                            g2 = pop2(g1);
                        }
                    },
                    _ => {
                        proof {
                            lemma_step_silent(goal, done, State::TGoto, g1, i0, State::S2, g1, i0);
                        }
                        outprod(sink, Rule::ET);
                        proof {
                            lemma_add_push(old(sink)@, done, Rule::ET);
                            lemma_step_fire(
                                goal,
                                done,
                                State::S2,
                                g1,
                                i0,
                                Rule::ET,
                                State::EGoto,
                                g1,
                                i0,
                            );
                            done = done.push(Rule::ET);
                        }
                    },
                }
                proof {
                    lemma_keep_last(g2);
                    lemma_step_silent(
                        goal,
                        done,
                        State::EGoto,
                        g2,
                        i0,
                        if g2.last() == 5 {
                            State::S8
                        } else {
                            State::S1
                        },
                        g2,
                        i0,
                    );
                }
                match p.peek() {
                    StackLabel::SL5 => {
                        proof {
                            assert(run(State::S8, g2, i0) == failure(Error::EOF));
                            lemma_add_empty(done);
                        }
                        return Err(Error::EOF);
                    },
                    _ => {
                        outprod(sink, Rule::SE);
                        proof {
                            lemma_add_push(old(sink)@, done, Rule::SE);
                            assert(done.push(Rule::SE) =~= done + seq![Rule::SE]);
                        }
                        return Ok(());
                    },
                }
            },
            _ => {
                return unreached();
            },
        }
    }
}

} // verus!
