//! The input cursor: a pull-based, one-token-lookahead source of terminals.
//!
//! `peek` observes the next terminal without consuming it and is idempotent:
//! any number of peeks without an intervening `next` observe the same
//! terminal and do not advance the cursor.  `next` consumes one terminal.
//! Both return nothing at end of input.

use vstd::prelude::*;

verus! {

/// A cursor over a sequence of characters.  Its view is the remaining,
/// not yet consumed, part of the input.
pub struct Cursor {
    chars: Vec<char>,
    pos: usize,
}

impl View for Cursor {
    type V = Seq<char>;

    closed spec fn view(&self) -> Seq<char> {
        self.chars@.skip(self.pos as int)
    }
}

/// What a non-consuming read of a character sequence observes: its first
/// element, or nothing when it is empty.
pub open spec fn peek_spec(s: Seq<char>) -> Option<char> {
    if s.len() == 0 {
        None
    } else {
        Some(s[0])
    }
}

impl Cursor {
    /// The position never runs past the end of the characters.
    pub closed spec fn wf(self) -> bool {
        self.pos <= self.chars.len()
    }

    /// A fresh cursor over `chars`, nothing consumed yet.
    pub fn new(chars: Vec<char>) -> (c: Cursor)
        ensures
            c.wf(),
            c@ == chars@,
    {
        Cursor { chars, pos: 0 }
    }

    /// Observe the next terminal without consuming it.  Repeated peeks
    /// observe the same terminal: the cursor is not advanced.
    pub fn peek(&self) -> (r: Option<char>)
        requires
            self.wf(),
        ensures
            r == peek_spec(self@),
    {
        if self.pos < self.chars.len() {
            Some(self.chars[self.pos])
        } else {
            None
        }
    }

    /// Consume and return the next terminal.
    pub fn next(&mut self) -> (r: Option<char>)
        requires
            old(self).wf(),
        ensures
            final(self).wf(),
            r == peek_spec(old(self)@),
            old(self)@.len() == 0 ==> final(self)@ == old(self)@,
            old(self)@.len() > 0 ==> final(self)@ == old(self)@.skip(1),
    {
        if self.pos < self.chars.len() {
            let c = self.chars[self.pos];
            self.pos = self.pos + 1;
            assert(self.chars@.skip(self.pos as int) == self.chars@.skip(self.pos - 1).skip(1));
            Some(c)
        } else {
            None
        }
    }
}

} // verus!
