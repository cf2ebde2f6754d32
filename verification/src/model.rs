//! The grammar automaton model.
//!
//! The fixed LR automaton for the grammar
//!
//! ```text
//! S = E
//! E = E + T | T
//! T = T * F | F
//! F = a | ( E )
//! ```
//!
//! is described once, as the specification function [`run`]: a small-step
//! interpreter over a configuration of control label, stack of state numbers,
//! and remaining input.  Every executable parse variant in this crate is
//! proved to return exactly `run`'s classification and to fire exactly
//! `run`'s sequence of semantic actions.

use vstd::prelude::*;

verus! {

/// A nonterminal of the grammar.  `S`, the start symbol, never appears on a
/// stack and has no tag.
#[derive(Clone, Copy, Debug, Eq, Hash, PartialEq)]
pub enum Sort {
    E,
    T,
    F,
}

/// A control label of the automaton.
///
/// `S0`–`S11` are the LR states; `EGoto`, `TGoto` and `FGoto` are the
/// "reverse goto" labels: a reduction of the named nonterminal has just
/// fired, and the stack top decides where control returns.
#[derive(Clone, Copy, Debug, Eq, Hash, PartialEq)]
pub enum State {
    S0,
    S1,
    S2,
    S3,
    S4,
    S5,
    S6,
    S7,
    S8,
    S9,
    S10,
    S11,
    EGoto,
    TGoto,
    FGoto,
}

/// The two ways a parse can fail, both terminal.
#[derive(Clone, Copy, Debug, Eq, Hash, PartialEq)]
pub enum Error {
    /// Input ended while more terminals were syntactically required.
    EOF,
    /// A terminal was read that is not legal in the current state.
    Unexpected(char),
}

/// A grammar rule, the identifier handed to the semantic action sink once
/// per completed reduction, in bottom-up derivation order.
#[derive(Clone, Copy, Debug, Eq, Hash, PartialEq)]
pub enum Rule {
    /// `F = a`
    FA,
    /// `F = ( E )`
    FParen,
    /// `T = F`
    TF,
    /// `T = T * F`
    TTF,
    /// `E = T`
    ET,
    /// `E = E + T`
    EET,
    /// `S = E`
    SE,
}

/// What a parse observably does: its classification and the ordered sequence
/// of rules fired at the semantic action sink.
pub ghost struct Outcome {
    pub res: Result<(), Error>,
    pub rules: Seq<Rule>,
}

/// Prepend one fired rule to an outcome.
pub open spec fn fired(r: Rule, o: Outcome) -> Outcome {
    Outcome { res: o.res, rules: seq![r] + o.rules }
}

/// An outcome that fails with `e` without firing anything.
pub open spec fn failure(e: Error) -> Outcome {
    Outcome { res: Err(e), rules: Seq::empty() }
}

/// Termination rank of a label: every transition of [`run`] that neither
/// consumes input nor pops the stack strictly decreases this rank.
pub open spec fn rank(label: State) -> nat {
    match label {
        State::EGoto => 4,
        State::S2 => 5,
        State::S9 => 5,
        State::TGoto => 6,
        State::S3 => 7,
        State::S10 => 7,
        State::FGoto => 8,
        State::S4 => 9,
        State::S11 => 9,
        _ => 0,
    }
}

/// The stack after a reduction has popped its two entries.
pub open spec fn pop2(s: Seq<u8>) -> Seq<u8> {
    if s.len() >= 2 {
        s.take(s.len() - 2)
    } else {
        Seq::empty()
    }
}

/// The automaton itself: from a configuration, the outcome of the parse.
///
/// Shift states (`S0`, `S1`, `S5`–`S8`) consume one terminal and push the
/// source state's number; the lookahead states `S2` and `S9` consume only
/// when the next terminal is `*`; reduce states fire their rule, pop what
/// the rule's right-hand side pushed, and hand control to a goto label,
/// which branches on the stack top.
pub open spec fn run(label: State, stack: Seq<u8>, input: Seq<char>) -> Outcome
    decreases input.len(), stack.len(), rank(label),
{
    match label {
        State::S0 => {
            if input.len() == 0 {
                failure(Error::EOF)
            } else if input[0] == 'a' {
                run(State::S4, stack.push(0u8), input.skip(1))
            } else if input[0] == '(' {
                run(State::S5, stack.push(0u8), input.skip(1))
            } else {
                failure(Error::Unexpected(input[0]))
            }
        },
        State::S1 => {
            if input.len() == 0 {
                Outcome { res: Ok(()), rules: seq![Rule::SE] }
            } else if input[0] == '+' {
                run(State::S6, stack.push(1u8), input.skip(1))
            } else {
                failure(Error::Unexpected(input[0]))
            }
        },
        State::S2 => {
            if input.len() > 0 && input[0] == '*' {
                run(State::S7, stack.push(2u8), input.skip(1))
            } else {
                fired(Rule::ET, run(State::EGoto, stack, input))
            }
        },
        State::S3 => fired(Rule::TF, run(State::TGoto, stack, input)),
        State::S4 => fired(Rule::FA, run(State::FGoto, stack, input)),
        State::S5 => {
            if input.len() == 0 {
                failure(Error::EOF)
            } else if input[0] == 'a' {
                run(State::S4, stack.push(5u8), input.skip(1))
            } else if input[0] == '(' {
                run(State::S5, stack.push(5u8), input.skip(1))
            } else {
                failure(Error::Unexpected(input[0]))
            }
        },
        State::S6 => {
            if input.len() == 0 {
                failure(Error::EOF)
            } else if input[0] == 'a' {
                run(State::S4, stack.push(6u8), input.skip(1))
            } else if input[0] == '(' {
                run(State::S5, stack.push(6u8), input.skip(1))
            } else {
                failure(Error::Unexpected(input[0]))
            }
        },
        State::S7 => {
            if input.len() == 0 {
                failure(Error::EOF)
            } else if input[0] == 'a' {
                run(State::S4, stack.push(7u8), input.skip(1))
            } else if input[0] == '(' {
                run(State::S5, stack.push(7u8), input.skip(1))
            } else {
                failure(Error::Unexpected(input[0]))
            }
        },
        State::S8 => {
            if input.len() == 0 {
                failure(Error::EOF)
            } else if input[0] == '+' {
                run(State::S6, stack.push(8u8), input.skip(1))
            } else if input[0] == ')' {
                run(State::S11, stack.push(8u8), input.skip(1))
            } else {
                failure(Error::Unexpected(input[0]))
            }
        },
        State::S9 => {
            if input.len() > 0 && input[0] == '*' {
                run(State::S7, stack.push(9u8), input.skip(1))
            } else {
                fired(Rule::EET, run(State::EGoto, pop2(stack), input))
            }
        },
        State::S10 => fired(Rule::TTF, run(State::TGoto, pop2(stack), input)),
        State::S11 => fired(Rule::FParen, run(State::FGoto, pop2(stack), input)),
        State::EGoto => {
            if stack.len() > 0 && stack.last() == 5 {
                run(State::S8, stack, input)
            } else {
                run(State::S1, stack, input)
            }
        },
        State::TGoto => {
            if stack.len() > 0 && stack.last() == 6 {
                run(State::S9, stack, input)
            } else {
                run(State::S2, stack, input)
            }
        },
        State::FGoto => {
            if stack.len() > 0 && stack.last() == 7 {
                run(State::S10, stack, input)
            } else {
                run(State::S3, stack, input)
            }
        },
    }
}

/// The outcome of parsing `input` from the start configuration.
pub open spec fn parse_spec(input: Seq<char>) -> Outcome {
    run(State::S0, Seq::empty(), input)
}

/// Record one semantic action at the sink: the rule identifier of a
/// completed reduction, appended in derivation order.
pub fn outprod(sink: &mut Vec<Rule>, rule: Rule)
    ensures
        final(sink)@ == old(sink)@.push(rule),
{
    sink.push(rule);
}

/// Which state numbers may sit directly on top of which: the local shape of
/// every stack the automaton can build.  The bottom sentinel `0` never sits
/// on anything.
pub open spec fn wf_entry(prev: u8, cur: u8) -> bool {
    match cur {
        1u8 => prev == 0,
        2u8 => prev == 0 || prev == 5,
        5u8 => prev == 0 || prev == 5 || prev == 6 || prev == 7,
        6u8 => prev == 1 || prev == 8,
        7u8 => prev == 2 || prev == 9,
        8u8 => prev == 5,
        9u8 => prev == 6,
        _ => false,
    }
}

/// A reachable stack: the bottom sentinel `0`, then entries stacked only in
/// the orders the automaton's pushes can produce.  Each entry is one still
/// unresolved grammar context.
pub open spec fn wf_stack(s: Seq<u8>) -> bool {
    &&& s.len() >= 1
    &&& s[0] == 0
    &&& forall|i: int| 1 <= i < s.len() ==> #[trigger] wf_entry(s[i - 1], s[i])
}

/// What the stack top can be when control sits at a given label.
pub open spec fn top_ok(label: State, s: Seq<u8>) -> bool {
    s.len() >= 1 && {
        let t = s.last();
        match label {
            State::S0 => false,
            State::S1 => t == 0,
            State::S2 => t == 0 || t == 5,
            State::S3 => t == 0 || t == 5 || t == 6,
            State::S4 => t == 0 || t == 5 || t == 6 || t == 7,
            State::S5 => t == 0 || t == 5 || t == 6 || t == 7,
            State::S6 => t == 1 || t == 8,
            State::S7 => t == 2 || t == 9,
            State::S8 => t == 5,
            State::S9 => t == 6,
            State::S10 => t == 7,
            State::S11 => t == 8,
            State::EGoto => t == 0 || t == 5,
            State::TGoto => t == 0 || t == 5 || t == 6,
            State::FGoto => t == 0 || t == 5 || t == 6 || t == 7,
        }
    }
}

/// The simulation relation every variant's loop maintains: from the current
/// configuration, the automaton still produces the goal classification, and
/// the goal's rule sequence is what was already fired followed by what the
/// automaton still fires.
pub open spec fn tracks(
    goal: Outcome,
    done: Seq<Rule>,
    label: State,
    stack: Seq<u8>,
    input: Seq<char>,
) -> bool {
    &&& goal.res == run(label, stack, input).res
    &&& goal.rules == done + run(label, stack, input).rules
}

/// A transition that fires nothing keeps the simulation relation.
pub proof fn lemma_step_silent(
    goal: Outcome,
    done: Seq<Rule>,
    l1: State,
    s1: Seq<u8>,
    i1: Seq<char>,
    l2: State,
    s2: Seq<u8>,
    i2: Seq<char>,
)
    requires
        tracks(goal, done, l1, s1, i1),
        run(l1, s1, i1) == run(l2, s2, i2),
    ensures
        tracks(goal, done, l2, s2, i2),
{
}

/// A transition that fires one rule keeps the simulation relation, with the
/// rule appended to the fired prefix.
pub proof fn lemma_step_fire(
    goal: Outcome,
    done: Seq<Rule>,
    l1: State,
    s1: Seq<u8>,
    i1: Seq<char>,
    r: Rule,
    l2: State,
    s2: Seq<u8>,
    i2: Seq<char>,
)
    requires
        tracks(goal, done, l1, s1, i1),
        run(l1, s1, i1) == fired(r, run(l2, s2, i2)),
    ensures
        tracks(goal, done.push(r), l2, s2, i2),
{
    assert(done + (seq![r] + run(l2, s2, i2).rules) =~= done.push(r) + run(l2, s2, i2).rules);
}

/// Appending an element distributes over concatenation.
pub proof fn lemma_add_push<A>(a: Seq<A>, b: Seq<A>, x: A)
    ensures
        (a + b).push(x) == a + b.push(x),
{
    assert((a + b).push(x) =~= a + b.push(x));
}

/// The empty sequence is a right identity of concatenation.
pub proof fn lemma_add_empty<A>(a: Seq<A>)
    ensures
        a + Seq::<A>::empty() == a,
{
    assert(a + Seq::<A>::empty() =~= a);
}

/// A well-formed stack grows by any entry the local shape admits on its top.
pub proof fn lemma_wf_push(s: Seq<u8>, x: u8)
    requires
        wf_stack(s),
        wf_entry(s.last(), x),
    ensures
        wf_stack(s.push(x)),
{
    let t = s.push(x);
    assert forall|i: int| 1 <= i < t.len() implies #[trigger] wf_entry(t[i - 1], t[i]) by {
        if i < s.len() {
            assert(wf_entry(s[i - 1], s[i]));
        }
    }
}

/// Popping a reduction's two entries keeps the stack well formed, and the
/// shape rules say exactly what lay under the popped pair: precisely the
/// tops the goto that follows the reduction branches on.
pub proof fn lemma_wf_reduce(s: Seq<u8>)
    requires
        wf_stack(s),
        s.last() == 6 || s.last() == 7 || s.last() == 8,
    ensures
        s.len() >= 3,
        wf_stack(pop2(s)),
        s.last() == 6 ==> (s[s.len() - 2] == 1 || s[s.len() - 2] == 8) && (pop2(s).last() == 0
            || pop2(s).last() == 5),
        s.last() == 7 ==> (s[s.len() - 2] == 2 || s[s.len() - 2] == 9) && (pop2(s).last() == 0
            || pop2(s).last() == 5 || pop2(s).last() == 6),
        s.last() == 8 ==> s[s.len() - 2] == 5 && (pop2(s).last() == 0 || pop2(s).last() == 5
            || pop2(s).last() == 6 || pop2(s).last() == 7),
{
    if s.len() == 1 {
        assert(s.last() == s[0]);
        assert(false);
    }
    assert(wf_entry(s[s.len() - 1 - 1], s[s.len() - 1]));
    if s.len() == 2 {
        assert(s[s.len() - 2] == s[0]);
        assert(false);
    }
    assert(wf_entry(s[s.len() - 2 - 1], s[s.len() - 2]));
    assert forall|i: int| 1 <= i < pop2(s).len() implies #[trigger] wf_entry(
        pop2(s)[i - 1],
        pop2(s)[i],
    ) by {
        assert(wf_entry(s[i - 1], s[i]));
    }
}

/// Stack-discipline invariant, acceptance half: a well-formed stack whose
/// top is the bottom sentinel is the lone sentinel — every context opened
/// during the parse has been resolved when the automaton can accept.
pub proof fn lemma_acceptance_sentinel(s: Seq<u8>)
    requires
        wf_stack(s),
        s.last() == 0,
    ensures
        s == seq![0u8],
{
    if s.len() >= 2 {
        assert(wf_entry(s[s.len() - 1 - 1], s[s.len() - 1]));
        assert(false);
    }
    assert(s =~= seq![0u8]);
}

/// Whether a minimal-push engine keeps a canonical stack entry.  The kept
/// labels are exactly the ones some goto decision later branches on; the
/// rest are always popped unseen and need not be pushed at all.
pub open spec fn kept(x: u8) -> bool {
    x == 0 || x == 5 || x == 6 || x == 7
}

/// The minimal-push image of a canonical stack: the entries a goto decision
/// can inspect, in order.
pub open spec fn keep(s: Seq<u8>) -> Seq<u8>
    decreases s.len(),
{
    if s.len() == 0 {
        Seq::empty()
    } else if kept(s.last()) {
        keep(s.drop_last()).push(s.last())
    } else {
        keep(s.drop_last())
    }
}

/// The bottom sentinel is kept, so the minimal-push image of a reachable
/// stack is never empty.
pub proof fn lemma_keep_bottom(s: Seq<u8>)
    requires
        s.len() >= 1,
        s[0] == 0,
    ensures
        keep(s).len() >= 1,
        keep(s)[0] == 0,
    decreases s.len(),
{
    if s.len() == 1 {
        assert(s.last() == s[0]);
        assert(keep(s.drop_last()) == Seq::<u8>::empty());
        assert(keep(s) == Seq::<u8>::empty().push(0u8));
    } else {
        assert(s.drop_last()[0] == s[0]);
        lemma_keep_bottom(s.drop_last());
        if kept(s.last()) {
            assert(keep(s) == keep(s.drop_last()).push(s.last()));
            assert(keep(s)[0] == keep(s.drop_last())[0]);
        }
    }
}

/// How one push changes the minimal-push image.
pub proof fn lemma_keep_push(s: Seq<u8>, x: u8)
    ensures
        keep(s.push(x)) == if kept(x) {
            keep(s).push(x)
        } else {
            keep(s)
        },
{
    assert(s.push(x).drop_last() =~= s);
}

/// A kept top survives into the minimal-push image as its top.
pub proof fn lemma_keep_last(s: Seq<u8>)
    requires
        s.len() >= 1,
        kept(s.last()),
    ensures
        keep(s).len() >= 1,
        keep(s).last() == s.last(),
        keep(s).drop_last() == keep(s.drop_last()),
{
    assert(keep(s) == keep(s.drop_last()).push(s.last()));
    assert(keep(s.drop_last()).push(s.last()).drop_last() =~= keep(s.drop_last()));
}

/// How popping a reduction's two entries changes the minimal-push image.
pub proof fn lemma_keep_reduce(s: Seq<u8>)
    requires
        s.len() >= 2,
    ensures
        keep(s) == if kept(s.last()) {
            if kept(s[s.len() - 2]) {
                keep(pop2(s)).push(s[s.len() - 2]).push(s.last())
            } else {
                keep(pop2(s)).push(s.last())
            }
        } else {
            if kept(s[s.len() - 2]) {
                keep(pop2(s)).push(s[s.len() - 2])
            } else {
                keep(pop2(s))
            }
        },
{
    assert(s =~= pop2(s).push(s[s.len() - 2]).push(s.last()));
    lemma_keep_push(pop2(s).push(s[s.len() - 2]), s.last());
    lemma_keep_push(pop2(s), s[s.len() - 2]);
}

/// The number a state pushes in a push-on-entry encoding: its own.
pub open spec fn state_num(l: State) -> u8 {
    match l {
        State::S0 => 0,
        State::S1 => 1,
        State::S2 => 2,
        State::S3 => 3,
        State::S4 => 4,
        State::S5 => 5,
        State::S6 => 6,
        State::S7 => 7,
        State::S8 => 8,
        State::S9 => 9,
        State::S10 => 10,
        State::S11 => 11,
        State::EGoto => 12,
        State::TGoto => 13,
        State::FGoto => 14,
    }
}

/// In a push-on-entry encoding the stack carries, above the canonical
/// entries, the number of the state control currently sits in; goto labels
/// carry nothing.
pub open spec fn entry_marker(l: State) -> Seq<u8> {
    match l {
        State::EGoto => Seq::empty(),
        State::TGoto => Seq::empty(),
        State::FGoto => Seq::empty(),
        _ => seq![state_num(l)],
    }
}

/// The same marker in a minimal push-on-entry encoding: only markers some
/// goto can inspect are materialized.
pub open spec fn kept_marker(l: State) -> Seq<u8> {
    if l is EGoto || l is TGoto || l is FGoto || !kept(state_num(l)) {
        Seq::empty()
    } else {
        seq![state_num(l)]
    }
}

/// Swapping a marker for a new stack entry: the old top-of-stack marker
/// becomes a real entry and the entered state's marker goes on top.
pub proof fn lemma_marker_shift(g: Seq<u8>, m: u8, n: u8)
    ensures
        (g + seq![m]).push(n) == g.push(m) + seq![n],
{
    assert((g + seq![m]).push(n) =~= g.push(m) + seq![n]);
}

/// Removing the marker of the state just left.
pub proof fn lemma_marker_pop(g: Seq<u8>, m: u8)
    ensures
        (g + seq![m]).len() == g.len() + 1,
        (g + seq![m]).last() == m,
        (g + seq![m]).drop_last() == g,
{
    assert((g + seq![m]).drop_last() =~= g);
}

/// Equivalence across variants: any two parses that meet the shared
/// contract — classification and fired rules pinned to [`parse_spec`] —
/// agree on both, whatever variant produced them.
pub proof fn lemma_variants_equivalent(
    input: Seq<char>,
    r1: Result<(), Error>,
    rules1: Seq<Rule>,
    r2: Result<(), Error>,
    rules2: Seq<Rule>,
)
    requires
        r1 == parse_spec(input).res,
        rules1 == parse_spec(input).rules,
        r2 == parse_spec(input).res,
        rules2 == parse_spec(input).rules,
    ensures
        r1 == r2,
        rules1 == rules2,
{
}

} // verus!
