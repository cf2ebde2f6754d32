//! The cached-top stack: the current top label lives in a scalar field
//! outside the stack proper, saving a stack read on every goto decision.
//! `push` spills the old top onto the stack and installs the new one;
//! `pop` restores the previous entry into the scalar.

use vstd::prelude::*;

use crate::model::State;

verus! {

/// The labels a minimal-push engine materializes: exactly the ones some
/// goto decision later branches on.
#[derive(Clone, Copy, Debug, Eq, Hash, PartialEq)]
pub enum StackLabel {
    SL0,
    SL5,
    SL6,
    SL7,
}

/// The canonical state number a stack label stands for.
pub open spec fn sl_num(l: StackLabel) -> u8 {
    match l {
        StackLabel::SL0 => 0,
        StackLabel::SL5 => 5,
        StackLabel::SL6 => 6,
        StackLabel::SL7 => 7,
    }
}

/// A parse in progress: the stack, its cached top, and the control label.
pub struct Parser {
    pub stack: Vec<StackLabel>,
    pub stack_last: StackLabel,
    pub label: State,
}

impl Parser {
    /// The whole effective stack, cached top included, as state numbers;
    /// the bottom sentinel `SL0` is never popped in a well-formed parse.
    pub open spec fn labels(self) -> Seq<u8> {
        self.stack@.map_values(|l: StackLabel| sl_num(l)).push(sl_num(self.stack_last))
    }

    /// Spill the cached top onto the stack and cache `n` instead.
    #[inline(always)]
    pub fn push(&mut self, n: StackLabel)
        ensures
            final(self).labels() == old(self).labels().push(sl_num(n)),
            final(self).label == old(self).label,
    {
        proof {
            assert(self.stack@.push(self.stack_last).map_values(|l: StackLabel| sl_num(l))
                =~= self.stack@.map_values(|l: StackLabel| sl_num(l)).push(sl_num(self.stack_last)));
            assert(self.stack@.map_values(|l: StackLabel| sl_num(l)).push(
                sl_num(self.stack_last),
            ).push(sl_num(n)) =~= self.labels().push(sl_num(n)));
        }
        self.stack.push(self.stack_last);
        self.stack_last = n;
    }

    /// Drop the cached top and restore the previous entry into the cache.
    /// Popping the lone sentinel is a programming error, ruled out here by
    /// contract: the effective stack must still hold an entry below the top.
    #[inline(always)]
    pub fn pop(&mut self)
        requires
            old(self).labels().len() >= 2,
        ensures
            final(self).labels() == old(self).labels().drop_last(),
            final(self).label == old(self).label,
    {
        proof {
            assert(self.stack@.len() >= 1);
            assert(self.stack@.drop_last().map_values(|l: StackLabel| sl_num(l)).push(
                sl_num(self.stack@.last()),
            ) =~= self.labels().drop_last());
        }
        self.stack_last = self.stack.pop().unwrap();
    }

    /// The effective top of the stack, read from the cache.
    #[inline(always)]
    pub fn peek(&self) -> (r: StackLabel)
        ensures
            sl_num(r) == self.labels().last(),
    {
        self.stack_last
    }
}

impl Default for Parser {
    /// A fresh parse: empty stack, the sentinel cached, control at the
    /// start state.
    fn default() -> (p: Parser)
        ensures
            p.labels() == seq![0u8],
            p.label == State::S0,
    {
        let p = Parser { stack: Vec::new(), stack_last: StackLabel::SL0, label: State::S0 };
        proof {
            assert(p.labels() =~= seq![0u8]);
        }
        p
    }
}

} // verus!
