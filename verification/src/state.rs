//! The three regions of a request message and the transitions between them.

use vstd::prelude::*;
use crate::ascii::{CR, LF};
use crate::grammar::line_terminator;

verus! {

/// The region of a request message that the next line belongs to.
#[derive(Clone, Copy, Debug, PartialEq, Eq, Structural)]
pub enum ParseState {
    /// Nothing has been read yet: the next line is the request line.
    StartLine,
    /// The request line has been read: the next line is a header field or
    /// the blank line that closes the header block.
    Headers,
    /// The blank line has been read: the head of the message is complete.
    Body,
}

/// Whether `line` is the blank line: the line terminator and nothing else.
pub fn is_blank_line(line: &[u8]) -> (r: bool)
    ensures
        r == (line@ == line_terminator()),
{
    if line.len() == 2 && line[0] == CR && line[1] == LF {
        assert(line@ =~= line_terminator());
        true
    } else {
        assert(line@.len() == 2 ==> line@[0] == line_terminator()[0] ==> line@[1]
            != line_terminator()[1]);
        false
    }
}

impl ParseState {
    /// The state in which every request cycle begins.
    pub fn new() -> (state: ParseState)
        ensures
            state == ParseState::StartLine,
    {
        ParseState::StartLine
    }

    /// The position of a state in the one order in which states follow each
    /// other.
    pub open spec fn rank(self) -> nat {
        match self {
            ParseState::StartLine => 0,
            ParseState::Headers => 1,
            ParseState::Body => 2,
        }
    }

    /// The state after `line` has been read in state `self`: the request
    /// line is followed by the header block, the header block lasts until
    /// the blank line, and nothing follows `Body`.
    pub open spec fn successor(self, line: Seq<u8>) -> ParseState {
        match self {
            ParseState::StartLine => ParseState::Headers,
            ParseState::Headers => if line == line_terminator() {
                ParseState::Body
            } else {
                ParseState::Headers
            },
            ParseState::Body => ParseState::Body,
        }
    }

    /// The transition function of the state machine.
    pub fn next(self, line: &[u8]) -> (state: ParseState)
        ensures
            state == self.successor(line@),
    {
        match self {
            ParseState::StartLine => ParseState::Headers,
            ParseState::Headers => if is_blank_line(line) {
                ParseState::Body
            } else {
                ParseState::Headers
            },
            ParseState::Body => ParseState::Body,
        }
    }

    /// Transitions never lead back: the next state is the same state or a
    /// later one, `Body` is never left, and `Body` is entered from `Headers`
    /// only, on the blank line.
    pub proof fn lemma_next_is_monotonic(self, line: Seq<u8>)
        ensures
            self.rank() <= self.successor(line).rank() <= self.rank() + 1,
            self == ParseState::Body ==> self.successor(line) == ParseState::Body,
            self != ParseState::Body && self.successor(line) == ParseState::Body <==> self
                == ParseState::Headers && line == line_terminator(),
    {
    }
}

} // verus!
