//! The request cycle: lines are read into a fresh environment until the
//! blank line, the response is rendered, and the next cycle begins.
//!
//! [`Cycle::feed`] is one step of the cycle, for a caller that reads the
//! lines from a stream; [`serve`] runs the cycles over lines that are all at
//! hand.

use vstd::prelude::*;
use crate::ascii::push_bytes;
use crate::environment::{distinct_keys, Environment};
use crate::grammar::{is_request_line, line_terminator};
use crate::parser::{line_effect, line_result, parse_line};
use crate::render::{render_response, response_text};
use crate::state::ParseState;

verus! {

/// A request cycle in progress: the parse state and the environment built
/// from the lines read so far.
#[derive(Debug)]
pub struct Cycle {
    state: ParseState,
    env: Environment,
}

/// What the caller of [`Cycle::feed`] does next.
#[derive(Debug)]
pub enum Step {
    /// The head is not complete: read the next line into this cycle.
    Continue(Cycle),
    /// The head is complete: send this response and begin a new cycle.
    Respond(Vec<u8>),
    /// The request line was malformed: send nothing and begin a new cycle.
    Abort,
}

impl Cycle {
    /// The parse state of the cycle.
    pub closed spec fn state(&self) -> ParseState {
        self.state
    }

    /// The listing of the environment of the cycle.
    pub closed spec fn listing(&self) -> Seq<(Seq<u8>, Seq<u8>)> {
        self.env.listing()
    }

    /// The cycle has not reached the body, and its environment holds no key
    /// twice. This holds of every cycle.
    pub open spec fn wf(&self) -> bool {
        &&& self.state() != ParseState::Body
        &&& distinct_keys(self.listing())
    }

    /// The invariant of the type.
    #[verifier::type_invariant]
    spec fn in_progress(&self) -> bool {
        self.wf()
    }

    /// A cycle at its beginning: nothing read, nothing stored.
    pub fn new() -> (cycle: Cycle)
        ensures
            cycle.wf(),
            cycle.state() == ParseState::StartLine,
            cycle.listing() == Seq::<(Seq<u8>, Seq<u8>)>::empty(),
    {
        Cycle { state: ParseState::StartLine, env: Environment::new() }
    }

    /// Reads `line` into the cycle and says what to do next.
    ///
    /// A malformed request line aborts the cycle. The blank line after the
    /// header block completes it: the response lists the environment as it
    /// stood before that line. Any other line continues the cycle, in the
    /// state and with the environment that the line leaves.
    pub fn feed(self, line: &[u8]) -> (step: Step)
        ensures
            match line_result(self.state(), line@) {
                Err(_) => step is Abort,
                Ok(ParseState::Body) => step matches Step::Respond(response) && response@
                    == response_text(self.listing()),
                Ok(next) => step matches Step::Continue(cycle) && cycle.wf() && cycle.state()
                    == next && cycle.listing() == line_effect(
                    self.state(),
                    self.listing(),
                    line@,
                ),
            },
    {
        proof {
            use_type_invariant(&self);
        }
        let mut env = self.env;
        match parse_line(self.state, &mut env, line) {
            Err(_) => Step::Abort,
            Ok(ParseState::Body) => Step::Respond(render_response(&env)),
            Ok(next) => Step::Continue(Cycle { state: next, env }),
        }
    }
}

/// The bytes sent in answer to the lines from index `at` on, by a cycle
/// that stands in `state` with the listing `l` when it reads line `at`.
///
/// Each complete head is answered with the response for its environment,
/// and the next line begins a new cycle with an empty environment. A
/// malformed request line is passed over without an answer, and so are the
/// lines of a head that the end of the input cuts short.
pub open spec fn run(
    lines: Seq<Seq<u8>>,
    at: int,
    state: ParseState,
    l: Seq<(Seq<u8>, Seq<u8>)>,
) -> Seq<u8>
    decreases lines.len() - at,
{
    if at < 0 || at >= lines.len() {
        Seq::empty()
    } else {
        match line_result(state, lines[at]) {
            Err(_) => run(lines, at + 1, ParseState::StartLine, Seq::empty()),
            Ok(ParseState::Body) => response_text(l) + run(
                lines,
                at + 1,
                ParseState::StartLine,
                Seq::empty(),
            ),
            Ok(next) => run(lines, at + 1, next, line_effect(state, l, lines[at])),
        }
    }
}

/// All the bytes sent in answer to `lines`.
pub open spec fn responses(lines: Seq<Seq<u8>>) -> Seq<u8> {
    run(lines, 0, ParseState::StartLine, Seq::empty())
}

/// The lines of an input as byte sequences.
pub open spec fn lines_view(lines: Seq<Vec<u8>>) -> Seq<Seq<u8>> {
    lines.map_values(|line: Vec<u8>| line@)
}

/// Runs the request cycles over `lines` and returns the responses, one
/// after the other.
pub fn serve(lines: &Vec<Vec<u8>>) -> (out: Vec<u8>)
    ensures
        out@ == responses(lines_view(lines@)),
{
    let ghost all = lines_view(lines@);
    let mut out: Vec<u8> = Vec::new();
    let mut cycle = Cycle::new();
    let mut i: usize = 0;
    while i < lines.len()
        invariant
            i <= lines@.len(),
            all == lines_view(lines@),
            cycle.wf(),
            out@ + run(all, i as int, cycle.state(), cycle.listing()) == responses(all),
        decreases lines@.len() - i,
    {
        assert(all[i as int] == lines@[i as int]@);
        let ghost before = out@;
        let ghost rest = run(all, i + 1, ParseState::StartLine, Seq::empty());
        match cycle.feed(lines[i].as_slice()) {
            Step::Continue(next) => {
                cycle = next;
            },
            Step::Respond(response) => {
                push_bytes(&mut out, response.as_slice());
                assert(out@ + rest =~= before + (response@ + rest));
                cycle = Cycle::new();
            },
            Step::Abort => {
                cycle = Cycle::new();
            },
        }
        i += 1;
    }
    assert(out@ + Seq::<u8>::empty() =~= out@);
    out
}

/// The listing after the header lines `lines[from..to]` have been read, one
/// after the other, into the listing `l`.
pub open spec fn after_headers(
    lines: Seq<Seq<u8>>,
    from: int,
    to: int,
    l: Seq<(Seq<u8>, Seq<u8>)>,
) -> Seq<(Seq<u8>, Seq<u8>)>
    decreases to - from,
{
    if from >= to {
        l
    } else {
        after_headers(lines, from + 1, to, line_effect(ParseState::Headers, l, lines[from]))
    }
}

/// In the header block the first blank line ends the head, however many
/// lines stand before it: the response lists the fields of those lines, and
/// the line after the blank line begins a new cycle with an empty
/// environment.
pub proof fn lemma_blank_line_ends_headers(
    lines: Seq<Seq<u8>>,
    from: int,
    to: int,
    l: Seq<(Seq<u8>, Seq<u8>)>,
)
    requires
        0 <= from <= to < lines.len(),
        forall|j: int| from <= j < to ==> #[trigger] lines[j] != line_terminator(),
        lines[to] == line_terminator(),
    ensures
        run(lines, from, ParseState::Headers, l) == response_text(
            after_headers(lines, from, to, l),
        ) + run(lines, to + 1, ParseState::StartLine, Seq::empty()),
    decreases to - from,
{
    if from < to {
        assert(lines[from] != line_terminator());
        lemma_blank_line_ends_headers(
            lines,
            from + 1,
            to,
            line_effect(ParseState::Headers, l, lines[from]),
        );
    }
}

/// A request line, any number of lines that are not blank (none too), and
/// a blank line make one complete head: the blank line ends the cycle, the
/// cycle is answered with the response for the fields of exactly these
/// lines, and what follows is read as a new request with an empty
/// environment.
pub proof fn lemma_blank_line_ends_head(lines: Seq<Seq<u8>>, at: int, headers: int)
    requires
        0 <= at,
        0 <= headers,
        at + headers + 1 < lines.len(),
        is_request_line(lines[at]),
        forall|j: int| at < j <= at + headers ==> #[trigger] lines[j] != line_terminator(),
        lines[at + headers + 1] == line_terminator(),
    ensures
        run(lines, at, ParseState::StartLine, Seq::empty()) == response_text(
            after_headers(
                lines,
                at + 1,
                at + headers + 1,
                line_effect(ParseState::StartLine, Seq::empty(), lines[at]),
            ),
        ) + run(lines, at + headers + 2, ParseState::StartLine, Seq::empty()),
{
    lemma_blank_line_ends_headers(
        lines,
        at + 1,
        at + headers + 1,
        line_effect(ParseState::StartLine, Seq::empty(), lines[at]),
    );
}

/// A line that is no request line, read at the beginning of a cycle, is
/// passed over without an answer, and the next line begins a new cycle.
pub proof fn lemma_malformed_request_line_is_skipped(lines: Seq<Seq<u8>>, at: int)
    requires
        0 <= at < lines.len(),
        !is_request_line(lines[at]),
    ensures
        run(lines, at, ParseState::StartLine, Seq::empty()) == run(
            lines,
            at + 1,
            ParseState::StartLine,
            Seq::empty(),
        ),
{
}

/// The answer to the lines from a position on does not depend on the lines
/// before it.
pub proof fn lemma_run_skips(
    lines: Seq<Seq<u8>>,
    a: int,
    j: int,
    state: ParseState,
    l: Seq<(Seq<u8>, Seq<u8>)>,
)
    requires
        0 <= a <= lines.len(),
        0 <= j,
    ensures
        run(lines, a + j, state, l) == run(lines.skip(a), j, state, l),
    decreases lines.len() - (a + j),
{
    if a + j < lines.len() {
        assert(lines.skip(a)[j] == lines[a + j]);
        lemma_run_skips(lines, a, j + 1, ParseState::StartLine, Seq::empty());
        match line_result(state, lines[a + j]) {
            Ok(next) => {
                lemma_run_skips(lines, a, j + 1, next, line_effect(state, l, lines[a + j]));
            },
            Err(_) => {},
        }
    }
}

/// The fields of header lines do not depend on the lines that follow them.
proof fn lemma_after_headers_prefix(
    first: Seq<Seq<u8>>,
    rest: Seq<Seq<u8>>,
    from: int,
    to: int,
    l: Seq<(Seq<u8>, Seq<u8>)>,
)
    requires
        0 <= from,
        to <= first.len(),
    ensures
        after_headers(first + rest, from, to, l) == after_headers(first, from, to, l),
    decreases to - from,
{
    if from < to {
        assert((first + rest)[from] == first[from]);
        lemma_after_headers_prefix(
            first,
            rest,
            from + 1,
            to,
            line_effect(ParseState::Headers, l, first[from]),
        );
    }
}

/// Requests that follow one another are answered independently: the answer
/// to a complete head followed by more lines is the answer to the head
/// alone, followed by the answer to those lines alone. Nothing of the first
/// request shows in the responses to the later ones.
pub proof fn lemma_requests_are_independent(first: Seq<Seq<u8>>, rest: Seq<Seq<u8>>)
    requires
        first.len() >= 2,
        is_request_line(first[0]),
        forall|j: int| 0 < j < first.len() - 1 ==> #[trigger] first[j] != line_terminator(),
        first.last() == line_terminator(),
    ensures
        responses(first + rest) == responses(first) + responses(rest),
{
    let all = first + rest;
    let headers = first.len() - 2;
    let l = line_effect(ParseState::StartLine, Seq::empty(), first[0]);
    assert(all[0] == first[0]);
    assert forall|j: int| 0 < j <= headers implies #[trigger] all[j] != line_terminator() by {
        assert(all[j] == first[j]);
    }
    assert(all[headers + 1] == first[headers + 1]);
    lemma_blank_line_ends_head(all, 0, headers);
    lemma_blank_line_ends_head(first, 0, headers);
    lemma_after_headers_prefix(first, rest, 1, headers + 1, l);
    lemma_run_skips(all, first.len() as int, 0, ParseState::StartLine, Seq::empty());
    assert(all.skip(first.len() as int) =~= rest);
    assert(run(first, headers + 2, ParseState::StartLine, Seq::empty()) =~= Seq::<u8>::empty());
    assert(responses(first) =~= response_text(after_headers(first, 1, headers + 1, l)));
}

} // verus!
