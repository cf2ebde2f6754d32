//! The cached-top engines: the [`Parser`] struct keeps the effective stack
//! top in a scalar, `TGoto` is inlined into its uses, and the accept, `+`
//! and `)` decisions all live in the `EGoto` label.

use vstd::pervasive::unreached;
use vstd::prelude::*;

use crate::cursor::Cursor;
use crate::model::Error;
use crate::model::Rule;
use crate::model::State;
use crate::model::failure;
use crate::model::keep;
use crate::model::lemma_add_empty;
use crate::model::lemma_add_push;
use crate::model::lemma_keep_last;
use crate::model::lemma_keep_push;
use crate::model::lemma_keep_reduce;
use crate::model::lemma_step_fire;
use crate::model::lemma_step_silent;
use crate::model::lemma_wf_push;
use crate::model::lemma_wf_reduce;
use crate::model::outprod;
use crate::model::parse_spec;
use crate::model::pop2;
use crate::model::rank;
use crate::model::run;
use crate::model::top_ok;
use crate::model::tracks;
use crate::model::wf_stack;
use crate::stack::Parser;
use crate::stack::StackLabel;

verus! {

/// The effective stack sits on the sentinel: pushing and popping above it
/// commutes with prefixing it.
proof fn lemma_bot_push(k: Seq<u8>, n: u8)
    ensures
        (seq![0u8] + k).push(n) == seq![0u8] + k.push(n),
{
    assert((seq![0u8] + k).push(n) =~= seq![0u8] + k.push(n));
}

/// Reading or removing the top above the sentinel.
proof fn lemma_bot_pop(k: Seq<u8>)
    requires
        k.len() >= 1,
    ensures
        (seq![0u8] + k).len() == k.len() + 1,
        (seq![0u8] + k).last() == k.last(),
        (seq![0u8] + k).drop_last() == seq![0u8] + k.drop_last(),
{
    assert((seq![0u8] + k).drop_last() =~= seq![0u8] + k.drop_last());
}

/// The [`Parser`]-struct engine: minimal source-state pushes through the
/// cached-top stack, `TGoto` inlined, and the `EGoto` decision flipped so
/// the lookahead is read first and the stack top second.
#[verifier::loop_isolation(false)]
pub fn parse_parser_struct(input: &mut Cursor, sink: &mut Vec<Rule>) -> (r: Result<(), Error>)
    requires
        old(input).wf(),
    ensures
        final(input).wf(),
        r == parse_spec(old(input)@).res,
        final(sink)@ == old(sink)@ + parse_spec(old(input)@).rules,
{
    let ghost goal = parse_spec(old(input)@);
    let mut p = Parser::default();
    let ghost mut gstack: Seq<u8> = Seq::empty();
    let ghost mut done: Seq<Rule> = Seq::empty();
    proof {
        assert(keep(Seq::<u8>::empty()) == Seq::<u8>::empty());
        assert(p.labels() =~= seq![0u8] + keep(Seq::<u8>::empty()));
        assert(Seq::<Rule>::empty() + run(State::S0, Seq::empty(), old(input)@).rules
            =~= run(State::S0, Seq::empty(), old(input)@).rules);
    }
    loop
        invariant
            input.wf(),
            (p.label is S0 && gstack =~= Seq::<u8>::empty()) || (wf_stack(gstack) && top_ok(
                p.label,
                gstack,
            )),
            !(p.label is S1) && !(p.label is S3) && !(p.label is S4) && !(p.label is S8) && !(
            p.label is S11) && !(p.label is TGoto) && !(p.label is FGoto),
            p.labels() == seq![0u8] + keep(gstack),
            tracks(goal, done, p.label, gstack, input@),
            sink@ == old(sink)@ + done,
        decreases input@.len(), gstack.len(), rank(p.label),
    {
        let ghost g0 = gstack;
        let ghost i0 = input@;
        match p.label {
            State::S0 => match input.next() {
                Some('a') => {
                    p.push(StackLabel::SL0);
                    let ghost g1 = g0.push(0u8);
                    let ghost i1 = i0.skip(1);
                    proof {
                        lemma_keep_push(g0, 0u8);
                        lemma_bot_push(keep(g0), 0u8);
                        lemma_step_silent(goal, done, State::S0, g0, i0, State::S4, g1, i1);
                    }
                    outprod(sink, Rule::FA);
                    proof {
                        lemma_add_push(old(sink)@, done, Rule::FA);
                        lemma_step_fire(goal, done, State::S4, g1, i1, Rule::FA, State::FGoto, g1, i1);
                        done = done.push(Rule::FA);
                        lemma_step_silent(goal, done, State::FGoto, g1, i1, State::S3, g1, i1);
                    }
                    outprod(sink, Rule::TF);
                    proof {
                        lemma_add_push(old(sink)@, done, Rule::TF);
                        lemma_step_fire(goal, done, State::S3, g1, i1, Rule::TF, State::TGoto, g1, i1);
                        done = done.push(Rule::TF);
                        lemma_step_silent(goal, done, State::TGoto, g1, i1, State::S2, g1, i1);
                        gstack = g1;
                    }
                    p.label = State::S2;
                },
                Some('(') => {
                    p.push(StackLabel::SL0);
                    proof {
                        lemma_keep_push(g0, 0u8);
                        lemma_bot_push(keep(g0), 0u8);
                        lemma_step_silent(
                            goal,
                            done,
                            State::S0,
                            g0,
                            i0,
                            State::S5,
                            g0.push(0u8),
                            i0.skip(1),
                        );
                        gstack = g0.push(0u8);
                    }
                    p.label = State::S5;
                },
                Some(c) => {
                    proof {
                        lemma_add_empty(done);
                    }
                    return Err(Error::Unexpected(c));
                },
                None => {
                    proof {
                        lemma_add_empty(done);
                    }
                    return Err(Error::EOF);
                },
            },
            State::S2 => match input.peek() {
                Some('*') => {
                    let _ = input.next();
                    proof {
                        lemma_wf_push(g0, 2u8);
                        lemma_keep_push(g0, 2u8);
                        lemma_step_silent(
                            goal,
                            done,
                            State::S2,
                            g0,
                            i0,
                            State::S7,
                            g0.push(2u8),
                            i0.skip(1),
                        );
                        gstack = g0.push(2u8);
                    }
                    p.label = State::S7;
                },
                _ => {
                    outprod(sink, Rule::ET);
                    proof {
                        lemma_add_push(old(sink)@, done, Rule::ET);
                        lemma_step_fire(goal, done, State::S2, g0, i0, Rule::ET, State::EGoto, g0, i0);
                        done = done.push(Rule::ET);
                    }
                    p.label = State::EGoto;
                },
            },
            State::S5 => match input.next() {
                Some('a') => {
                    p.push(StackLabel::SL5);
                    let ghost g1 = g0.push(5u8);
                    let ghost i1 = i0.skip(1);
                    proof {
                        lemma_wf_push(g0, 5u8);
                        lemma_keep_push(g0, 5u8);
                        lemma_bot_push(keep(g0), 5u8);
                        lemma_step_silent(goal, done, State::S5, g0, i0, State::S4, g1, i1);
                    }
                    outprod(sink, Rule::FA);
                    proof {
                        lemma_add_push(old(sink)@, done, Rule::FA);
                        lemma_step_fire(goal, done, State::S4, g1, i1, Rule::FA, State::FGoto, g1, i1);
                        done = done.push(Rule::FA);
                        lemma_step_silent(goal, done, State::FGoto, g1, i1, State::S3, g1, i1);
                    }
                    outprod(sink, Rule::TF);
                    proof {
                        lemma_add_push(old(sink)@, done, Rule::TF);
                        lemma_step_fire(goal, done, State::S3, g1, i1, Rule::TF, State::TGoto, g1, i1);
                        done = done.push(Rule::TF);
                        lemma_step_silent(goal, done, State::TGoto, g1, i1, State::S2, g1, i1);
                        gstack = g1;
                    }
                    p.label = State::S2;
                },
                Some('(') => {
                    p.push(StackLabel::SL5);
                    proof {
                        lemma_wf_push(g0, 5u8);
                        lemma_keep_push(g0, 5u8);
                        lemma_bot_push(keep(g0), 5u8);
                        lemma_step_silent(
                            goal,
                            done,
                            State::S5,
                            g0,
                            i0,
                            State::S5,
                            g0.push(5u8),
                            i0.skip(1),
                        );
                        gstack = g0.push(5u8);
                    }
                    p.label = State::S5;  // (self)
                },
                Some(c) => {
                    proof {
                        lemma_add_empty(done);
                    }
                    return Err(Error::Unexpected(c));
                },
                None => {
                    proof {
                        lemma_add_empty(done);
                    }
                    return Err(Error::EOF);
                },
            },
            State::S6 => match input.next() {
                Some('a') => {
                    p.push(StackLabel::SL6);
                    let ghost g1 = g0.push(6u8);
                    let ghost i1 = i0.skip(1);
                    proof {
                        lemma_wf_push(g0, 6u8);
                        lemma_keep_push(g0, 6u8);
                        lemma_bot_push(keep(g0), 6u8);
                        lemma_step_silent(goal, done, State::S6, g0, i0, State::S4, g1, i1);
                    }
                    outprod(sink, Rule::FA);
                    proof {
                        lemma_add_push(old(sink)@, done, Rule::FA);
                        lemma_step_fire(goal, done, State::S4, g1, i1, Rule::FA, State::FGoto, g1, i1);
                        done = done.push(Rule::FA);
                        lemma_step_silent(goal, done, State::FGoto, g1, i1, State::S3, g1, i1);
                    }
                    outprod(sink, Rule::TF);
                    proof {
                        lemma_add_push(old(sink)@, done, Rule::TF);
                        lemma_step_fire(goal, done, State::S3, g1, i1, Rule::TF, State::TGoto, g1, i1);
                        done = done.push(Rule::TF);
                        lemma_step_silent(goal, done, State::TGoto, g1, i1, State::S9, g1, i1);
                        gstack = g1;
                    }
                    p.label = State::S9;
                },
                Some('(') => {
                    p.push(StackLabel::SL6);
                    proof {
                        lemma_wf_push(g0, 6u8);
                        lemma_keep_push(g0, 6u8);
                        lemma_bot_push(keep(g0), 6u8);
                        lemma_step_silent(
                            goal,
                            done,
                            State::S6,
                            g0,
                            i0,
                            State::S5,
                            g0.push(6u8),
                            i0.skip(1),
                        );
                        gstack = g0.push(6u8);
                    }
                    p.label = State::S5;
                },
                Some(c) => {
                    proof {
                        lemma_add_empty(done);
                    }
                    return Err(Error::Unexpected(c));
                },
                None => {
                    proof {
                        lemma_add_empty(done);
                    }
                    return Err(Error::EOF);
                },
            },
            State::S7 => match input.next() {
                Some('a') => {
                    p.push(StackLabel::SL7);
                    let ghost g1 = g0.push(7u8);
                    let ghost i1 = i0.skip(1);
                    proof {
                        lemma_wf_push(g0, 7u8);
                        lemma_keep_push(g0, 7u8);
                        lemma_bot_push(keep(g0), 7u8);
                        lemma_step_silent(goal, done, State::S7, g0, i0, State::S4, g1, i1);
                    }
                    outprod(sink, Rule::FA);
                    proof {
                        lemma_add_push(old(sink)@, done, Rule::FA);
                        lemma_step_fire(goal, done, State::S4, g1, i1, Rule::FA, State::FGoto, g1, i1);
                        done = done.push(Rule::FA);
                        lemma_step_silent(goal, done, State::FGoto, g1, i1, State::S10, g1, i1);
                        gstack = g1;
                    }
                    p.label = State::S10;
                },
                Some('(') => {
                    p.push(StackLabel::SL7);
                    proof {
                        lemma_wf_push(g0, 7u8);
                        lemma_keep_push(g0, 7u8);
                        lemma_bot_push(keep(g0), 7u8);
                        lemma_step_silent(
                            goal,
                            done,
                            State::S7,
                            g0,
                            i0,
                            State::S5,
                            g0.push(7u8),
                            i0.skip(1),
                        );
                        gstack = g0.push(7u8);
                    }
                    p.label = State::S5;
                },
                Some(c) => {
                    proof {
                        lemma_add_empty(done);
                    }
                    return Err(Error::Unexpected(c));
                },
                None => {
                    proof {
                        lemma_add_empty(done);
                    }
                    return Err(Error::EOF);
                },
            },
            State::S9 => match input.peek() {
                Some('*') => {
                    let _ = input.next();
                    proof {
                        lemma_wf_push(g0, 9u8);
                        lemma_keep_push(g0, 9u8);
                        lemma_step_silent(
                            goal,
                            done,
                            State::S9,
                            g0,
                            i0,
                            State::S7,
                            g0.push(9u8),
                            i0.skip(1),
                        );
                        gstack = g0.push(9u8);
                    }
                    p.label = State::S7;
                },
                _ => {
                    proof {
                        lemma_wf_reduce(g0);
                        lemma_keep_reduce(g0);
                        lemma_keep_last(g0);
                        lemma_bot_pop(keep(g0));
                        assert(keep(pop2(g0)).push(6u8).drop_last() =~= keep(pop2(g0)));
                    }
                    p.pop();  // 6
                    outprod(sink, Rule::EET);
                    proof {
                        lemma_add_push(old(sink)@, done, Rule::EET);
                        lemma_step_fire(
                            goal,
                            done,
                            State::S9,
                            g0,
                            i0,
                            Rule::EET,
                            State::EGoto,
                            pop2(g0),
                            i0,
                        );
                        done = done.push(Rule::EET);
                        gstack = pop2(g0);
                    }
                    p.label = State::EGoto;
                },
            },
            State::S10 => {
                proof {
                    lemma_wf_reduce(g0);
                    lemma_keep_reduce(g0);
                    lemma_keep_last(g0);
                    lemma_bot_pop(keep(g0));
                    assert(keep(pop2(g0)).push(7u8).drop_last() =~= keep(pop2(g0)));
                }
                p.pop();  // 7
                outprod(sink, Rule::TTF);
                let ghost g1 = pop2(g0);
                proof {
                    lemma_add_push(old(sink)@, done, Rule::TTF);
                    lemma_step_fire(
                        goal,
                        done,
                        State::S10,
                        g0,
                        i0,
                        Rule::TTF,
                        State::TGoto,
                        g1,
                        i0,
                    );
                    done = done.push(Rule::TTF);
                    gstack = g1;
                    lemma_keep_last(g1);
                    lemma_bot_pop(keep(g1));
                }
                match p.peek() {
                    StackLabel::SL6 => {
                        proof {
                            lemma_step_silent(goal, done, State::TGoto, g1, i0, State::S9, g1, i0);
                        }
                        p.label = State::S9;
                    },
                    _ => {
                        proof {
                            lemma_step_silent(goal, done, State::TGoto, g1, i0, State::S2, g1, i0);
                        }
                        p.label = State::S2;
                    },
                }
            },
            State::EGoto => {
                let ghost mid = if g0.last() == 5 {
                    State::S8
                } else {
                    State::S1
                };
                proof {
                    lemma_keep_last(g0);
                    lemma_bot_pop(keep(g0));
                    lemma_step_silent(goal, done, State::EGoto, g0, i0, mid, g0, i0);
                }
                match input.next() {
                    Some('+') => {
                        let ghost pv: u8 = if g0.last() == 5 {
                            8u8
                        } else {
                            1u8
                        };
                        proof {
                            lemma_wf_push(g0, pv);
                            lemma_keep_push(g0, pv);
                            assert(run(mid, g0, i0) == run(State::S6, g0.push(pv), i0.skip(1)));
                            lemma_step_silent(
                                goal,
                                done,
                                mid,
                                g0,
                                i0,
                                State::S6,
                                g0.push(pv),
                                i0.skip(1),
                            );
                            gstack = g0.push(pv);
                        }
                        p.label = State::S6;
                    },
                    Some(')') => match p.peek() {
                        StackLabel::SL5 => {
                            let ghost g1 = g0.push(8u8);
                            let ghost i1 = i0.skip(1);
                            proof {
                                lemma_wf_push(g0, 8u8);
                                lemma_step_silent(goal, done, State::S8, g0, i0, State::S11, g1, i1);
                                lemma_wf_reduce(g1);
                                lemma_keep_push(g0, 8u8);
                                lemma_keep_reduce(g1);
                                assert(keep(pop2(g1)).push(5u8).drop_last() =~= keep(pop2(g1)));
                            }
                            p.pop();  // 5
                            outprod(sink, Rule::FParen);
                            let ghost g2 = pop2(g1);
                            proof {
                                lemma_add_push(old(sink)@, done, Rule::FParen);
                                lemma_step_fire(
                                    goal,
                                    done,
                                    State::S11,
                                    g1,
                                    i1,
                                    Rule::FParen,
                                    State::FGoto,
                                    g2,
                                    i1,
                                );
                                done = done.push(Rule::FParen);
                                gstack = g2;
                                lemma_keep_last(g2);
                                lemma_bot_pop(keep(g2));
                            }
                            match p.peek() {
                                StackLabel::SL7 => {
                                    proof {
                                        lemma_step_silent(
                                            goal,
                                            done,
                                            State::FGoto,
                                            g2,
                                            i1,
                                            State::S10,
                                            g2,
                                            i1,
                                        );
                                    }
                                    p.label = State::S10;
                                },
                                _ => {
                                    proof {
                                        lemma_step_silent(
                                            goal,
                                            done,
                                            State::FGoto,
                                            g2,
                                            i1,
                                            State::S3,
                                            g2,
                                            i1,
                                        );
                                    }
                                    outprod(sink, Rule::TF);
                                    proof {
                                        lemma_add_push(old(sink)@, done, Rule::TF);
                                        lemma_step_fire(
                                            goal,
                                            done,
                                            State::S3,
                                            g2,
                                            i1,
                                            Rule::TF,
                                            State::TGoto,
                                            g2,
                                            i1,
                                        );
                                        done = done.push(Rule::TF);
                                    }
                                    match p.peek() {
                                        StackLabel::SL6 => {
                                            proof {
                                                lemma_step_silent(
                                                    goal,
                                                    done,
                                                    State::TGoto,
                                                    g2,
                                                    i1,
                                                    State::S9,
                                                    g2,
                                                    i1,
                                                );
                                            }
                                            p.label = State::S9;
                                        },
                                        _ => {
                                            proof {
                                                lemma_step_silent(
                                                    goal,
                                                    done,
                                                    State::TGoto,
                                                    g2,
                                                    i1,
                                                    State::S2,
                                                    g2,
                                                    i1,
                                                );
                                            }
                                            p.label = State::S2;
                                        },
                                    }
                                },
                            }
                        },
                        _ => {
                            proof {
                                assert(run(mid, g0, i0) == failure(Error::Unexpected(i0[0])));
                                lemma_add_empty(done);
                            }
                            return Err(Error::Unexpected(')'));
                        },
                    },
                    Some(c) => {
                        proof {
                            assert(run(mid, g0, i0) == failure(Error::Unexpected(i0[0])));
                            lemma_add_empty(done);
                        }
                        return Err(Error::Unexpected(c));
                    },
                    None => match p.peek() {
                        StackLabel::SL5 => {
                            proof {
                                assert(run(mid, g0, i0) == failure(Error::EOF));
                                lemma_add_empty(done);
                            }
                            return Err(Error::EOF);
                        },
                        _ => {
                            outprod(sink, Rule::SE);
                            proof {
                                lemma_add_push(old(sink)@, done, Rule::SE);
                                assert(done.push(Rule::SE) =~= done + seq![Rule::SE]);
                            }
                            return Ok(());
                        },
                    },
                }
            },
            State::S1 | State::S3 | State::S4 | State::S8 | State::S11 | State::TGoto
                | State::FGoto => {
                return unreached();
            },
        }
    }
}

/// The same engine as [`parse_parser_struct`], rewritten as one match over
/// the pair of control label and lookahead; consumption happens inside the
/// arms that commit to a terminal.
#[verifier::loop_isolation(false)]
pub fn parse_single_match(input: &mut Cursor, sink: &mut Vec<Rule>) -> (r: Result<(), Error>)
    requires
        old(input).wf(),
    ensures
        final(input).wf(),
        r == parse_spec(old(input)@).res,
        final(sink)@ == old(sink)@ + parse_spec(old(input)@).rules,
{
    let ghost goal = parse_spec(old(input)@);
    let mut p = Parser::default();
    let ghost mut gstack: Seq<u8> = Seq::empty();
    let ghost mut done: Seq<Rule> = Seq::empty();
    proof {
        assert(keep(Seq::<u8>::empty()) == Seq::<u8>::empty());
        assert(p.labels() =~= seq![0u8] + keep(Seq::<u8>::empty()));
        assert(Seq::<Rule>::empty() + run(State::S0, Seq::empty(), old(input)@).rules
            =~= run(State::S0, Seq::empty(), old(input)@).rules);
    }
    loop
        invariant
            input.wf(),
            (p.label is S0 && gstack =~= Seq::<u8>::empty()) || (wf_stack(gstack) && top_ok(
                p.label,
                gstack,
            )),
            !(p.label is S1) && !(p.label is S3) && !(p.label is S4) && !(p.label is S8) && !(
            p.label is S11) && !(p.label is TGoto) && !(p.label is FGoto),
            p.labels() == seq![0u8] + keep(gstack),
            tracks(goal, done, p.label, gstack, input@),
            sink@ == old(sink)@ + done,
        decreases input@.len(), gstack.len(), rank(p.label),
    {
        let ghost g0 = gstack;
        let ghost i0 = input@;
        match (p.label, input.peek()) {
            (State::S0, Some('a')) => {
                let _ = input.next();
                p.push(StackLabel::SL0);
                let ghost g1 = g0.push(0u8);
                let ghost i1 = i0.skip(1);
                proof {
                    lemma_keep_push(g0, 0u8);
                    lemma_bot_push(keep(g0), 0u8);
                    lemma_step_silent(goal, done, State::S0, g0, i0, State::S4, g1, i1);
                }
                outprod(sink, Rule::FA);
                proof {
                    lemma_add_push(old(sink)@, done, Rule::FA);
                    lemma_step_fire(goal, done, State::S4, g1, i1, Rule::FA, State::FGoto, g1, i1);
                    done = done.push(Rule::FA);
                    lemma_step_silent(goal, done, State::FGoto, g1, i1, State::S3, g1, i1);
                }
                outprod(sink, Rule::TF);
                proof {
                    lemma_add_push(old(sink)@, done, Rule::TF);
                    lemma_step_fire(goal, done, State::S3, g1, i1, Rule::TF, State::TGoto, g1, i1);
                    done = done.push(Rule::TF);
                    lemma_step_silent(goal, done, State::TGoto, g1, i1, State::S2, g1, i1);
                    gstack = g1;
                }
                p.label = State::S2;
            },
            (State::S0, Some('(')) => {
                let _ = input.next();
                p.push(StackLabel::SL0);
                proof {
                    lemma_keep_push(g0, 0u8);
                    lemma_bot_push(keep(g0), 0u8);
                    lemma_step_silent(
                        goal,
                        done,
                        State::S0,
                        g0,
                        i0,
                        State::S5,
                        g0.push(0u8),
                        i0.skip(1),
                    );
                    gstack = g0.push(0u8);
                }
                p.label = State::S5;
            },
            (State::S0, Some(c)) => {
                proof {
                    lemma_add_empty(done);
                }
                return Err(Error::Unexpected(c));
            },
            (State::S0, None) => {
                proof {
                    lemma_add_empty(done);
                }
                return Err(Error::EOF);
            },
            (State::S2, Some('*')) => {
                let _ = input.next();
                proof {
                    lemma_wf_push(g0, 2u8);
                    lemma_keep_push(g0, 2u8);
                    lemma_step_silent(
                        goal,
                        done,
                        State::S2,
                        g0,
                        i0,
                        State::S7,
                        g0.push(2u8),
                        i0.skip(1),
                    );
                    gstack = g0.push(2u8);
                }
                p.label = State::S7;
            },
            (State::S2, _) => {
                outprod(sink, Rule::ET);
                proof {
                    lemma_add_push(old(sink)@, done, Rule::ET);
                    lemma_step_fire(goal, done, State::S2, g0, i0, Rule::ET, State::EGoto, g0, i0);
                    done = done.push(Rule::ET);
                }
                p.label = State::EGoto;
            },
            (State::S5, Some('a')) => {
                let _ = input.next();
                p.push(StackLabel::SL5);
                let ghost g1 = g0.push(5u8);
                let ghost i1 = i0.skip(1);
                proof {
                    lemma_wf_push(g0, 5u8);
                    lemma_keep_push(g0, 5u8);
                    lemma_bot_push(keep(g0), 5u8);
                    lemma_step_silent(goal, done, State::S5, g0, i0, State::S4, g1, i1);
                }
                outprod(sink, Rule::FA);
                proof {
                    lemma_add_push(old(sink)@, done, Rule::FA);
                    lemma_step_fire(goal, done, State::S4, g1, i1, Rule::FA, State::FGoto, g1, i1);
                    done = done.push(Rule::FA);
                    lemma_step_silent(goal, done, State::FGoto, g1, i1, State::S3, g1, i1);
                }
                outprod(sink, Rule::TF);
                proof {
                    lemma_add_push(old(sink)@, done, Rule::TF);
                    lemma_step_fire(goal, done, State::S3, g1, i1, Rule::TF, State::TGoto, g1, i1);
                    done = done.push(Rule::TF);
                    lemma_step_silent(goal, done, State::TGoto, g1, i1, State::S2, g1, i1);
                    gstack = g1;
                }
                p.label = State::S2;
            },
            (State::S5, Some('(')) => {
                let _ = input.next();
                p.push(StackLabel::SL5);
                proof {
                    lemma_wf_push(g0, 5u8);
                    lemma_keep_push(g0, 5u8);
                    lemma_bot_push(keep(g0), 5u8);
                    lemma_step_silent(
                        goal,
                        done,
                        State::S5,
                        g0,
                        i0,
                        State::S5,
                        g0.push(5u8),
                        i0.skip(1),
                    );
                    gstack = g0.push(5u8);
                }
                p.label = State::S5;  // (self)
            },
            (State::S5, Some(c)) => {
                proof {
                    lemma_add_empty(done);
                }
                return Err(Error::Unexpected(c));
            },
            (State::S5, None) => {
                proof {
                    lemma_add_empty(done);
                }
                return Err(Error::EOF);
            },
            (State::S6, Some('a')) => {
                let _ = input.next();
                p.push(StackLabel::SL6);
                let ghost g1 = g0.push(6u8);
                let ghost i1 = i0.skip(1);
                proof {
                    lemma_wf_push(g0, 6u8);
                    lemma_keep_push(g0, 6u8);
                    lemma_bot_push(keep(g0), 6u8);
                    lemma_step_silent(goal, done, State::S6, g0, i0, State::S4, g1, i1);
                }
                outprod(sink, Rule::FA);
                proof {
                    lemma_add_push(old(sink)@, done, Rule::FA);
                    lemma_step_fire(goal, done, State::S4, g1, i1, Rule::FA, State::FGoto, g1, i1);
                    done = done.push(Rule::FA);
                    lemma_step_silent(goal, done, State::FGoto, g1, i1, State::S3, g1, i1);
                }
                outprod(sink, Rule::TF);
                proof {
                    lemma_add_push(old(sink)@, done, Rule::TF);
                    lemma_step_fire(goal, done, State::S3, g1, i1, Rule::TF, State::TGoto, g1, i1);
                    done = done.push(Rule::TF);
                    lemma_step_silent(goal, done, State::TGoto, g1, i1, State::S9, g1, i1);
                    gstack = g1;
                }
                p.label = State::S9;
            },
            (State::S6, Some('(')) => {
                let _ = input.next();
                p.push(StackLabel::SL6);
                proof {
                    lemma_wf_push(g0, 6u8);
                    lemma_keep_push(g0, 6u8);
                    lemma_bot_push(keep(g0), 6u8);
                    lemma_step_silent(
                        goal,
                        done,
                        State::S6,
                        g0,
                        i0,
                        State::S5,
                        g0.push(6u8),
                        i0.skip(1),
                    );
                    gstack = g0.push(6u8);
                }
                p.label = State::S5;
            },
            (State::S6, Some(c)) => {
                proof {
                    lemma_add_empty(done);
                }
                return Err(Error::Unexpected(c));
            },
            (State::S6, None) => {
                proof {
                    lemma_add_empty(done);
                }
                return Err(Error::EOF);
            },
            (State::S7, Some('a')) => {
                let _ = input.next();
                p.push(StackLabel::SL7);
                let ghost g1 = g0.push(7u8);
                let ghost i1 = i0.skip(1);
                proof {
                    lemma_wf_push(g0, 7u8);
                    lemma_keep_push(g0, 7u8);
                    lemma_bot_push(keep(g0), 7u8);
                    lemma_step_silent(goal, done, State::S7, g0, i0, State::S4, g1, i1);
                }
                outprod(sink, Rule::FA);
                proof {
                    lemma_add_push(old(sink)@, done, Rule::FA);
                    lemma_step_fire(goal, done, State::S4, g1, i1, Rule::FA, State::FGoto, g1, i1);
                    done = done.push(Rule::FA);
                    lemma_step_silent(goal, done, State::FGoto, g1, i1, State::S10, g1, i1);
                    gstack = g1;
                }
                p.label = State::S10;
            },
            (State::S7, Some('(')) => {
                let _ = input.next();
                p.push(StackLabel::SL7);
                proof {
                    lemma_wf_push(g0, 7u8);
                    lemma_keep_push(g0, 7u8);
                    lemma_bot_push(keep(g0), 7u8);
                    lemma_step_silent(
                        goal,
                        done,
                        State::S7,
                        g0,
                        i0,
                        State::S5,
                        g0.push(7u8),
                        i0.skip(1),
                    );
                    gstack = g0.push(7u8);
                }
                p.label = State::S5;
            },
            (State::S7, Some(c)) => {
                proof {
                    lemma_add_empty(done);
                }
                return Err(Error::Unexpected(c));
            },
            (State::S7, None) => {
                proof {
                    lemma_add_empty(done);
                }
                return Err(Error::EOF);
            },
            (State::S9, Some('*')) => {
                let _ = input.next();
                proof {
                    lemma_wf_push(g0, 9u8);
                    lemma_keep_push(g0, 9u8);
                    lemma_step_silent(
                        goal,
                        done,
                        State::S9,
                        g0,
                        i0,
                        State::S7,
                        g0.push(9u8),
                        i0.skip(1),
                    );
                    gstack = g0.push(9u8);
                }
                p.label = State::S7;
            },
            (State::S9, _) => {
                proof {
                    lemma_wf_reduce(g0);
                    lemma_keep_reduce(g0);
                    lemma_keep_last(g0);
                    lemma_bot_pop(keep(g0));
                    assert(keep(pop2(g0)).push(6u8).drop_last() =~= keep(pop2(g0)));
                }
                p.pop();  // 6
                outprod(sink, Rule::EET);
                proof {
                    lemma_add_push(old(sink)@, done, Rule::EET);
                    lemma_step_fire(
                        goal,
                        done,
                        State::S9,
                        g0,
                        i0,
                        Rule::EET,
                        State::EGoto,
                        pop2(g0),
                        i0,
                    );
                    done = done.push(Rule::EET);
                    gstack = pop2(g0);
                }
                p.label = State::EGoto;
            },
            (State::S10, _) => {
                proof {
                    lemma_wf_reduce(g0);
                    lemma_keep_reduce(g0);
                    lemma_keep_last(g0);
                    lemma_bot_pop(keep(g0));
                    assert(keep(pop2(g0)).push(7u8).drop_last() =~= keep(pop2(g0)));
                }
                p.pop();  // 7
                outprod(sink, Rule::TTF);
                let ghost g1 = pop2(g0);
                proof {
                    lemma_add_push(old(sink)@, done, Rule::TTF);
                    lemma_step_fire(goal, done, State::S10, g0, i0, Rule::TTF, State::TGoto, g1, i0);
                    done = done.push(Rule::TTF);
                    gstack = g1;
                    lemma_keep_last(g1);
                    lemma_bot_pop(keep(g1));
                }
                match p.peek() {
                    StackLabel::SL6 => {
                        proof {
                            lemma_step_silent(goal, done, State::TGoto, g1, i0, State::S9, g1, i0);
                        }
                        p.label = State::S9;
                    },
                    _ => {
                        proof {
                            lemma_step_silent(goal, done, State::TGoto, g1, i0, State::S2, g1, i0);
                        }
                        p.label = State::S2;
                    },
                }
            },
            (State::EGoto, Some('+')) => {
                let _ = input.next();
                let ghost mid = if g0.last() == 5 {
                    State::S8
                } else {
                    State::S1
                };
                let ghost pv: u8 = if g0.last() == 5 {
                    8u8
                } else {
                    1u8
                };
                proof {
                    lemma_keep_last(g0);
                    lemma_bot_pop(keep(g0));
                    lemma_step_silent(goal, done, State::EGoto, g0, i0, mid, g0, i0);
                    lemma_wf_push(g0, pv);
                    lemma_keep_push(g0, pv);
                    assert(run(mid, g0, i0) == run(State::S6, g0.push(pv), i0.skip(1)));
                    lemma_step_silent(goal, done, mid, g0, i0, State::S6, g0.push(pv), i0.skip(1));
                    gstack = g0.push(pv);
                }
                p.label = State::S6;
            },
            (State::EGoto, Some(')')) => {
                proof {
                    lemma_keep_last(g0);
                    lemma_bot_pop(keep(g0));
                }
                match p.peek() {
                    StackLabel::SL5 => {
                        let _ = input.next();
                        let ghost g1 = g0.push(8u8);
                        let ghost i1 = i0.skip(1);
                        proof {
                            lemma_step_silent(goal, done, State::EGoto, g0, i0, State::S8, g0, i0);
                            lemma_wf_push(g0, 8u8);
                            lemma_step_silent(goal, done, State::S8, g0, i0, State::S11, g1, i1);
                            lemma_wf_reduce(g1);
                            lemma_keep_push(g0, 8u8);
                            lemma_keep_reduce(g1);
                            assert(keep(pop2(g1)).push(5u8).drop_last() =~= keep(pop2(g1)));
                        }
                        p.pop();  // 5
                        outprod(sink, Rule::FParen);
                        let ghost g2 = pop2(g1);
                        proof {
                            lemma_add_push(old(sink)@, done, Rule::FParen);
                            lemma_step_fire(
                                goal,
                                done,
                                State::S11,
                                g1,
                                i1,
                                Rule::FParen,
                                State::FGoto,
                                g2,
                                i1,
                            );
                            done = done.push(Rule::FParen);
                            gstack = g2;
                            lemma_keep_last(g2);
                            lemma_bot_pop(keep(g2));
                        }
                        match p.peek() {
                            StackLabel::SL7 => {
                                proof {
                                    lemma_step_silent(
                                        goal,
                                        done,
                                        State::FGoto,
                                        g2,
                                        i1,
                                        State::S10,
                                        g2,
                                        i1,
                                    );
                                }
                                p.label = State::S10;
                            },
                            _ => {
                                proof {
                                    lemma_step_silent(
                                        goal,
                                        done,
                                        State::FGoto,
                                        g2,
                                        i1,
                                        State::S3,
                                        g2,
                                        i1,
                                    );
                                }
                                outprod(sink, Rule::TF);
                                proof {
                                    lemma_add_push(old(sink)@, done, Rule::TF);
                                    lemma_step_fire(
                                        goal,
                                        done,
                                        State::S3,
                                        g2,
                                        i1,
                                        Rule::TF,
                                        State::TGoto,
                                        g2,
                                        i1,
                                    );
                                    done = done.push(Rule::TF);
                                }
                                match p.peek() {
                                    StackLabel::SL6 => {
                                        proof {
                                            lemma_step_silent(
                                                goal,
                                                done,
                                                State::TGoto,
                                                g2,
                                                i1,
                                                State::S9,
                                                g2,
                                                i1,
                                            );
                                        }
                                        p.label = State::S9;
                                    },
                                    _ => {
                                        proof {
                                            lemma_step_silent(
                                                goal,
                                                done,
                                                State::TGoto,
                                                g2,
                                                i1,
                                                State::S2,
                                                g2,
                                                i1,
                                            );
                                        }
                                        p.label = State::S2;
                                    },
                                }
                            },
                        }
                    },
                    _ => {
                        proof {
                            lemma_step_silent(goal, done, State::EGoto, g0, i0, State::S1, g0, i0);
                            assert(run(State::S1, g0, i0) == failure(Error::Unexpected(i0[0])));
                            lemma_add_empty(done);
                        }
                        return Err(Error::Unexpected(')'));
                    },
                }
            },
            (State::EGoto, Some(c)) => {
                let ghost mid = if g0.last() == 5 {
                    State::S8
                } else {
                    State::S1
                };
                proof {
                    lemma_keep_last(g0);
                    lemma_bot_pop(keep(g0));
                    lemma_step_silent(goal, done, State::EGoto, g0, i0, mid, g0, i0);
                    assert(run(mid, g0, i0) == failure(Error::Unexpected(i0[0])));
                    lemma_add_empty(done);
                }
                return Err(Error::Unexpected(c));
            },
            (State::EGoto, None) => {
                proof {
                    lemma_keep_last(g0);
                    lemma_bot_pop(keep(g0));
                }
                match p.peek() {
                    StackLabel::SL5 => {
                        proof {
                            lemma_step_silent(goal, done, State::EGoto, g0, i0, State::S8, g0, i0);
                            assert(run(State::S8, g0, i0) == failure(Error::EOF));
                            lemma_add_empty(done);
                        }
                        return Err(Error::EOF);
                    },
                    _ => {
                        proof {
                            lemma_step_silent(goal, done, State::EGoto, g0, i0, State::S1, g0, i0);
                        }
                        outprod(sink, Rule::SE);
                        proof {
                            lemma_add_push(old(sink)@, done, Rule::SE);
                            assert(done.push(Rule::SE) =~= done + seq![Rule::SE]);
                        }
                        return Ok(());
                    },
                }
            },
            _ => {
                return unreached();
            },
        }
    }
}

} // verus!
