//! The two line grammars of a request head, each with two captured parts.
//!
//! A request line reads `<METHOD> <TARGET> HTTP/1.1` and a header line reads
//! `<NAME>: <VALUE>`; both end with carriage return and line feed. The
//! grammars are stated as predicates over the positions at which a line
//! splits into its parts, and the matchers return the parts of the one split
//! that the grammar selects.

use vstd::prelude::*;
use vstd::string::StringSliceAdditionalSpecFns;
use crate::ascii::{all_space, all_upper, free_of, is_space, is_upper, copy_range, ends_with_at};
use crate::ascii::{COLON, CR, LF, SLASH};

verus! {

/// The two parts that a grammar captures from a line, in order.
#[derive(Debug)]
pub struct Captures {
    pub first: Vec<u8>,
    pub second: Vec<u8>,
}

impl View for Captures {
    type V = (Seq<u8>, Seq<u8>);

    open spec fn view(&self) -> (Seq<u8>, Seq<u8>) {
        (self.first@, self.second@)
    }
}

/// What a matcher returned, as a pair of byte sequences.
pub open spec fn captured(r: Option<Captures>) -> Option<(Seq<u8>, Seq<u8>)> {
    match r {
        Some(c) => Some(c@),
        None => None,
    }
}

/// The text `HTTP/1.1` followed by the line terminator: the end of every
/// request line.
pub open spec fn request_line_tail() -> Seq<u8> {
    "HTTP/1.1\r\n".spec_bytes()
}

/// The bytes of [`request_line_tail`].
pub proof fn lemma_request_line_tail()
    ensures
        request_line_tail() =~= seq![72u8, 84u8, 84u8, 80u8, 47u8, 49u8, 46u8, 49u8, CR, LF],
{
    reveal_strlit("HTTP/1.1\r\n");
    vstd::string::is_ascii_spec_bytes("HTTP/1.1\r\n");
}

/// `line` is a request line whose method is `line[0..a]` and whose target is
/// `line[b..c]`: a non-empty run of upper-case letters, white space, a target
/// that begins with a slash and holds no line feed, white space, and the
/// tail.
pub open spec fn request_line_split(line: Seq<u8>, a: int, b: int, c: int) -> bool {
    let end = line.len() - request_line_tail().len();
    &&& 0 < a < b < c < end
    &&& all_upper(line.subrange(0, a))
    &&& all_space(line.subrange(a, b))
    &&& line[b] == SLASH
    &&& free_of(line.subrange(b, c), LF)
    &&& all_space(line.subrange(c, end))
    &&& line.subrange(end, line.len() as int) == request_line_tail()
}

/// `line` follows the request-line grammar.
pub open spec fn is_request_line(line: Seq<u8>) -> bool {
    exists|a: int, b: int, c: int| request_line_split(line, a, b, c)
}

/// The split that the grammar selects: of all the ways to read `line` as a
/// request line, the one with the shortest target.
pub open spec fn request_line_match(line: Seq<u8>, a: int, b: int, c: int) -> bool {
    &&& request_line_split(line, a, b, c)
    &&& forall|a2: int, b2: int, c2: int| request_line_split(line, a2, b2, c2) ==> c <= c2
}

/// Method and target of `line`, if it follows the request-line grammar.
pub open spec fn request_line_captures(line: Seq<u8>) -> Option<(Seq<u8>, Seq<u8>)> {
    if is_request_line(line) {
        let (a, b, c) = choose|a: int, b: int, c: int| request_line_match(line, a, b, c);
        Some((line.subrange(0, a), line.subrange(b, c)))
    } else {
        None
    }
}

/// The grammar selects at most one split of a line.
pub proof fn lemma_request_line_match_unique(
    line: Seq<u8>,
    a: int,
    b: int,
    c: int,
    a2: int,
    b2: int,
    c2: int,
)
    requires
        request_line_match(line, a, b, c),
        request_line_match(line, a2, b2, c2),
    ensures
        a == a2,
        b == b2,
        c == c2,
{
    lemma_request_line_split_starts(line, a, b, c, a2, b2, c2);
}

/// All readings of a line as a request line agree on where the method ends
/// and where the target begins.
pub proof fn lemma_request_line_split_starts(
    line: Seq<u8>,
    a: int,
    b: int,
    c: int,
    a2: int,
    b2: int,
    c2: int,
)
    requires
        request_line_split(line, a, b, c),
        request_line_split(line, a2, b2, c2),
    ensures
        a == a2,
        b == b2,
{
    if a < a2 {
        assert(is_space(line.subrange(a, b)[0]));
        assert(is_upper(line.subrange(0, a2)[a]));
    }
    if a2 < a {
        assert(is_space(line.subrange(a2, b2)[0]));
        assert(is_upper(line.subrange(0, a)[a2]));
    }
    if b < b2 {
        assert(is_space(line.subrange(a2, b2)[b - a2]));
    }
    if b2 < b {
        assert(is_space(line.subrange(a, b)[b2 - a]));
    }
}

/// Matches `line` against the request-line grammar and returns its method
/// and its target.
#[verifier::loop_isolation(false)]
pub fn match_request_line(line: &[u8]) -> (r: Option<Captures>)
    ensures
        captured(r) == request_line_captures(line@),
{
    let tail = "HTTP/1.1\r\n".as_bytes();
    proof {
        lemma_request_line_tail();
    }
    if line.len() < tail.len() {
        return None;
    }
    let end: usize = line.len() - tail.len();
    if !ends_with_at(line, end, tail) {
        return None;
    }
    let mut a: usize = 0;
    while a < end && is_upper(line[a])
        invariant
            a <= end <= line@.len(),
            forall|i: int| 0 <= i < a ==> is_upper(line@[i]),
        decreases end - a,
    {
        a += 1;
    }
    let mut b: usize = a;
    while b < end && is_space(line[b])
        invariant
            a <= b <= end <= line@.len(),
            forall|i: int| a <= i < b ==> is_space(line@[i]),
        decreases end - b,
    {
        b += 1;
    }
    proof {
        // Every reading of the line ends its method at `a` and begins its
        // target at `b`.
        assert forall|a2: int, b2: int, c2: int| request_line_split(line@, a2, b2, c2) implies a2
            == a && b2 == b by {
            assert(is_space(line@.subrange(a2, b2)[0]));
            if a < a2 {
                assert(is_upper(line@.subrange(0, a2)[a as int]));
            }
            if b < b2 {
                assert(is_space(line@.subrange(a2, b2)[b - a2]));
            }
            if b2 < b {
                assert(is_space(line@[b2]));
            }
        }
    }
    if a == 0 || b == a || b == end || line[b] != SLASH {
        return None;
    }
    let mut c: usize = end;
    while c > b + 1 && is_space(line[c - 1])
        invariant
            b < c <= end <= line@.len(),
            forall|i: int| c <= i < end ==> is_space(line@[i]),
        decreases c,
    {
        c -= 1;
    }
    proof {
        // No reading of the line has a target that ends before `c`.
        assert forall|a2: int, b2: int, c2: int| request_line_split(line@, a2, b2, c2) implies c
            <= c2 by {
            if c2 < c {
                assert(is_space(line@.subrange(c2, end as int)[c - 1 - c2]));
            }
        }
    }
    if c == end {
        return None;
    }
    let mut k: usize = b;
    while k < c
        invariant
            b <= k <= c <= line@.len(),
            forall|i: int| b <= i < k ==> line@[i] != LF,
        decreases c - k,
    {
        if line[k] == LF {
            proof {
                assert forall|a2: int, b2: int, c2: int| !request_line_split(
                    line@,
                    a2,
                    b2,
                    c2,
                ) by {
                    if request_line_split(line@, a2, b2, c2) {
                        assert(line@.subrange(b2, c2)[k - b2] != LF);
                    }
                }
            }
            return None;
        }
        k += 1;
    }
    proof {
        assert(request_line_match(line@, a as int, b as int, c as int));
        let (a2, b2, c2) = choose|a2: int, b2: int, c2: int| request_line_match(line@, a2, b2, c2);
        lemma_request_line_match_unique(line@, a as int, b as int, c as int, a2, b2, c2);
    }
    Some(Captures { first: copy_range(line, 0, a), second: copy_range(line, b, c) })
}

/// Carriage return and line feed: the line terminator, and by itself the
/// blank line that closes the header block.
pub open spec fn line_terminator() -> Seq<u8> {
    seq![CR, LF]
}

/// `line` is a header line whose name is `line[0..a]` and whose value is
/// `line[b..end]`, where `end` is the position of the line terminator: a
/// name, a colon, white space up to `b`, and a value; name and value hold no
/// line feed.
pub open spec fn header_line_split(line: Seq<u8>, a: int, b: int) -> bool {
    let end = line.len() - 2;
    &&& 0 <= a
    &&& a + 1 < b <= end
    &&& free_of(line.subrange(0, a), LF)
    &&& line[a] == COLON
    &&& all_space(line.subrange(a + 1, b))
    &&& free_of(line.subrange(b, end), LF)
    &&& line.subrange(end, line.len() as int) == line_terminator()
}

/// `line` follows the header grammar.
pub open spec fn is_header_line(line: Seq<u8>) -> bool {
    exists|a: int, b: int| header_line_split(line, a, b)
}

/// The split that the grammar selects: of all the ways to read `line` as a
/// header line, the one with the shortest name and, for that name, the
/// longest run of white space before the value.
pub open spec fn header_line_match(line: Seq<u8>, a: int, b: int) -> bool {
    &&& header_line_split(line, a, b)
    &&& forall|a2: int, b2: int|
        header_line_split(line, a2, b2) ==> a < a2 || (a == a2 && b2 <= b)
}

/// Name and value of `line`, if it follows the header grammar.
pub open spec fn header_line_captures(line: Seq<u8>) -> Option<(Seq<u8>, Seq<u8>)> {
    if is_header_line(line) {
        let (a, b) = choose|a: int, b: int| header_line_match(line, a, b);
        Some((line.subrange(0, a), line.subrange(b, line.len() - 2)))
    } else {
        None
    }
}

/// The grammar selects at most one split of a line.
pub proof fn lemma_header_line_match_unique(line: Seq<u8>, a: int, b: int, a2: int, b2: int)
    requires
        header_line_match(line, a, b),
        header_line_match(line, a2, b2),
    ensures
        a == a2,
        b == b2,
{
}

/// The end of the longest run of white space that begins at `from` and stays
/// below `end`.
fn skip_space(line: &[u8], from: usize, end: usize) -> (b: usize)
    requires
        from <= end <= line@.len(),
    ensures
        from <= b <= end,
        all_space(line@.subrange(from as int, b as int)),
        b == end || !is_space(line@[b as int]),
{
    let mut b: usize = from;
    while b < end && is_space(line[b])
        invariant
            from <= b <= end <= line@.len(),
            forall|i: int| from <= i < b ==> is_space(line@[i]),
        decreases end - b,
    {
        b += 1;
    }
    b
}

/// Whether no byte of `line[from..to]` is a line feed.
fn no_line_feed(line: &[u8], from: usize, to: usize) -> (r: bool)
    requires
        from <= to <= line@.len(),
    ensures
        r == free_of(line@.subrange(from as int, to as int), LF),
{
    let mut k: usize = from;
    while k < to
        invariant
            from <= k <= to <= line@.len(),
            forall|i: int| from <= i < k ==> line@[i] != LF,
        decreases to - k,
    {
        if line[k] == LF {
            assert(line@.subrange(from as int, to as int)[k - from] == LF);
            return false;
        }
        k += 1;
    }
    true
}

/// Matches `line` against the header grammar and returns its name and its
/// value.
#[verifier::loop_isolation(false)]
pub fn match_header_line(line: &[u8]) -> (r: Option<Captures>)
    ensures
        captured(r) == header_line_captures(line@),
{
    if line.len() < 2 {
        return None;
    }
    let end: usize = line.len() - 2;
    if line[end] != CR || line[end + 1] != LF {
        assert(line@.subrange(end as int, line@.len() as int)[0] == line@[end as int]);
        assert(line@.subrange(end as int, line@.len() as int)[1] == line@[end + 1]);
        return None;
    }
    assert(line@.subrange(end as int, line@.len() as int) =~= line_terminator());
    let mut a: usize = 0;
    while a + 1 < end
        invariant
            a <= end,
            forall|i: int| 0 <= i < a ==> line@[i] != LF,
            forall|a2: int, b2: int| a2 < a ==> !header_line_split(line@, a2, b2),
        decreases end - a,
    {
        if line[a] == COLON && is_space(line[a + 1]) {
            let b: usize = skip_space(line, a + 1, end);
            if no_line_feed(line, b, end) {
                proof {
                    assert forall|b2: int| header_line_split(line@, a as int, b2) implies b2
                        <= b by {
                        if b < b2 {
                            assert(is_space(line@.subrange(a + 1, b2)[b - (a + 1)]));
                        }
                    }
                    assert(header_line_match(line@, a as int, b as int));
                    let (a2, b2) = choose|a2: int, b2: int| header_line_match(line@, a2, b2);
                    lemma_header_line_match_unique(line@, a as int, b as int, a2, b2);
                }
                return Some(
                    Captures { first: copy_range(line, 0, a), second: copy_range(line, b, end) },
                );
            }
        }
        proof {
            assert forall|b2: int| !header_line_split(line@, a as int, b2) by {
                if header_line_split(line@, a as int, b2) {
                    assert(is_space(line@.subrange(a + 1, b2)[0]));
                    let b = choose|b: int|
                        a + 1 <= b <= end && all_space(line@.subrange(a + 1, b)) && (b == end
                            || !is_space(line@[b])) && !free_of(line@.subrange(b, end as int), LF);
                    if b < b2 {
                        assert(is_space(line@.subrange(a + 1, b2)[b - (a + 1)]));
                    } else {
                        let k = choose|k: int|
                            0 <= k < end - b && line@.subrange(b, end as int)[k] == LF;
                        assert(line@.subrange(b2, end as int)[k + b - b2] != LF);
                    }
                }
            }
        }
        if line[a] == LF {
            proof {
                assert forall|a2: int, b2: int| !header_line_split(line@, a2, b2) by {
                    if header_line_split(line@, a2, b2) {
                        assert(line@.subrange(0, a2)[a as int] != LF);
                    }
                }
            }
            return None;
        }
        a += 1;
    }
    None
}

/// A line made of a method, white space, a target, white space and the
/// tail is a request line, and the grammar captures that method and that
/// target, provided the target begins with a slash, holds no line feed and
/// does not end in white space.
pub proof fn lemma_request_line_reads(
    method: Seq<u8>,
    gap: Seq<u8>,
    target: Seq<u8>,
    gap2: Seq<u8>,
)
    requires
        method.len() > 0,
        all_upper(method),
        gap.len() > 0,
        all_space(gap),
        target.len() > 0,
        target[0] == SLASH,
        free_of(target, LF),
        !is_space(target.last()),
        gap2.len() > 0,
        all_space(gap2),
    ensures
        request_line_captures(method + gap + target + gap2 + request_line_tail()) == Some(
            (method, target),
        ),
{
    let line = method + gap + target + gap2 + request_line_tail();
    let a = method.len() as int;
    let b = a + gap.len();
    let c = b + target.len();
    let end = c + gap2.len();
    assert(line.subrange(0, a) =~= method);
    assert(line.subrange(a, b) =~= gap);
    assert(line.subrange(b, c) =~= target);
    assert(line.subrange(c, end) =~= gap2);
    assert(line.subrange(end, line.len() as int) =~= request_line_tail());
    assert(line[b] == target[0]);
    assert(request_line_split(line, a, b, c));
    assert forall|a2: int, b2: int, c2: int| request_line_split(line, a2, b2, c2) implies c
        <= c2 by {
        if c2 < c {
            assert(is_space(line.subrange(c2, end)[c - 1 - c2]));
            assert(line[c - 1] == target[target.len() - 1]);
        }
    }
    assert(request_line_match(line, a, b, c));
    let (a2, b2, c2) = choose|a2: int, b2: int, c2: int| request_line_match(line, a2, b2, c2);
    lemma_request_line_match_unique(line, a, b, c, a2, b2, c2);
}

/// A line made of a name, a colon, white space, a value and the line
/// terminator is a header line, and the grammar captures that name and that
/// value, provided the name holds no colon, neither holds a line feed, and
/// the value does not begin with white space.
pub proof fn lemma_header_line_reads(name: Seq<u8>, gap: Seq<u8>, value: Seq<u8>)
    requires
        free_of(name, COLON),
        free_of(name, LF),
        gap.len() > 0,
        all_space(gap),
        free_of(value, LF),
        value.len() > 0 ==> !is_space(value[0]),
    ensures
        header_line_captures(name + seq![COLON] + gap + value + line_terminator()) == Some(
            (name, value),
        ),
{
    let line = name + seq![COLON] + gap + value + line_terminator();
    let a = name.len() as int;
    let b = a + 1 + gap.len();
    let end = b + value.len();
    assert(line.subrange(0, a) =~= name);
    assert(line.subrange(a + 1, b) =~= gap);
    assert(line.subrange(b, end) =~= value);
    assert(line.subrange(end, line.len() as int) =~= line_terminator());
    assert(header_line_split(line, a, b));
    assert forall|a2: int, b2: int| header_line_split(line, a2, b2) implies a < a2 || (a == a2
        && b2 <= b) by {
        if a2 < a {
            assert(line[a2] == name[a2]);
        }
        if a2 == a && b < b2 {
            assert(is_space(line.subrange(a + 1, b2)[b - (a + 1)]));
            assert(line[b] == value[0]);
        }
    }
    assert(header_line_match(line, a, b));
    let (a2, b2) = choose|a2: int, b2: int| header_line_match(line, a2, b2);
    lemma_header_line_match_unique(line, a, b, a2, b2);
}

/// Every request line is made of its method, white space, its target,
/// white space and the tail, and nothing else: the captured method is a
/// non-empty run of upper-case letters, and the captured target begins with
/// a slash, holds no line feed and does not end in white space.
pub proof fn lemma_request_line_parts(line: Seq<u8>)
    requires
        is_request_line(line),
    ensures
        ({
            let (method, target) = request_line_captures(line)->0;
            &&& request_line_captures(line) is Some
            &&& method.len() > 0 && all_upper(method)
            &&& target.len() > 0 && target[0] == SLASH && free_of(target, LF)
            &&& !is_space(target.last())
            &&& exists|gap: Seq<u8>, gap2: Seq<u8>|
                gap.len() > 0 && all_space(gap) && gap2.len() > 0 && all_space(gap2) && line
                    == method + gap + target + gap2 + request_line_tail()
        }),
{
    let (a0, b0, c0) = choose|a: int, b: int, c: int| request_line_split(line, a, b, c);
    // The target of some reading, cut back to its last byte that is no
    // white space, is the shortest target.
    let end = line.len() - request_line_tail().len();
    let c1 = choose|c: int|
        b0 < c <= c0 && !is_space(line[c - 1]) && all_space(line.subrange(c, end));
    assert(exists|c: int|
        b0 < c <= c0 && !is_space(line[c - 1]) && all_space(line.subrange(c, end))) by {
        lemma_last_black(line, b0, c0, end);
    }
    assert(request_line_split(line, a0, b0, c1)) by {
        assert forall|i: int| 0 <= i < c1 - b0 implies #[trigger] line.subrange(b0, c1)[i]
            != LF by {
            assert(line.subrange(b0, c0)[i] != LF);
        }
    }
    assert forall|a2: int, b2: int, c2: int| request_line_split(line, a2, b2, c2) implies c1
        <= c2 by {
        if c2 < c1 {
            assert(is_space(line.subrange(c2, end)[c1 - 1 - c2]));
        }
    }
    assert(request_line_match(line, a0, b0, c1));
    let (a, b, c) = choose|a: int, b: int, c: int| request_line_match(line, a, b, c);
    lemma_request_line_match_unique(line, a0, b0, c1, a, b, c);
    let method = line.subrange(0, a);
    let gap = line.subrange(a, b);
    let target = line.subrange(b, c);
    let gap2 = line.subrange(c, end);
    assert(line =~= method + gap + target + gap2 + request_line_tail());
    assert(target[0] == line[b]);
    assert(target.last() == line[c - 1]);
}

/// Between a byte that is no white space and a run of white space that
/// begins later stands a last byte that is no white space.
proof fn lemma_last_black(line: Seq<u8>, b: int, c: int, end: int)
    requires
        0 <= b < c <= end <= line.len(),
        !is_space(line[b]),
        all_space(line.subrange(c, end)),
    ensures
        exists|c1: int| b < c1 <= c && !is_space(line[c1 - 1]) && all_space(line.subrange(c1, end)),
    decreases c - b,
{
    if !is_space(line[c - 1]) {
        assert(b < c <= c && !is_space(line[c - 1]) && all_space(line.subrange(c, end)));
    } else {
        assert forall|i: int| 0 <= i < end - (c - 1) implies is_space(
            #[trigger] line.subrange(c - 1, end)[i],
        ) by {
            if i > 0 {
                assert(is_space(line.subrange(c, end)[i - 1]));
            }
        }
        lemma_last_black(line, b, c - 1, end);
        let c1 = choose|c1: int|
            b < c1 <= c - 1 && !is_space(line[c1 - 1]) && all_space(line.subrange(c1, end));
        assert(b < c1 <= c && !is_space(line[c1 - 1]) && all_space(line.subrange(c1, end)));
    }
}

/// Every header line is made of its name, a colon, white space, its value
/// and the line terminator, and nothing else; neither the captured name nor
/// the captured value holds a line feed.
pub proof fn lemma_header_line_parts(line: Seq<u8>)
    requires
        is_header_line(line),
    ensures
        ({
            let (name, value) = header_line_captures(line)->0;
            &&& header_line_captures(line) is Some
            &&& free_of(name, LF)
            &&& free_of(value, LF)
            &&& exists|gap: Seq<u8>|
                gap.len() > 0 && all_space(gap) && line == name + seq![COLON] + gap + value
                    + line_terminator()
        }),
{
    lemma_header_line_match_exists(line);
    let (a, b) = choose|a: int, b: int| header_line_match(line, a, b);
    let end = line.len() - 2;
    let name = line.subrange(0, a);
    let gap = line.subrange(a + 1, b);
    let value = line.subrange(b, end);
    assert(line =~= name + seq![COLON] + gap + value + line_terminator());
}

/// Among the readings of a header line one has the shortest name and, for
/// that name, the longest run of white space: the grammar selects a split
/// of every line that follows it.
pub proof fn lemma_header_line_match_exists(line: Seq<u8>)
    requires
        is_header_line(line),
    ensures
        exists|a: int, b: int| header_line_match(line, a, b),
{
    let (a0, b0) = choose|a: int, b: int| header_line_split(line, a, b);
    lemma_shortest_name(line, a0, b0);
    let (a1, b1) = choose|a: int, b: int|
        header_line_split(line, a, b) && forall|a2: int, b2: int|
            header_line_split(line, a2, b2) ==> a <= a2;
    lemma_longest_gap(line, a1, b1);
    let b2 = choose|b: int|
        header_line_split(line, a1, b) && forall|b3: int|
            header_line_split(line, a1, b3) ==> b3 <= b;
    assert(header_line_match(line, a1, b2));
}

/// Below any reading of a header line stands one whose name is the
/// shortest.
proof fn lemma_shortest_name(line: Seq<u8>, a: int, b: int)
    requires
        header_line_split(line, a, b),
    ensures
        exists|a1: int, b1: int|
            header_line_split(line, a1, b1) && forall|a2: int, b2: int|
                header_line_split(line, a2, b2) ==> a1 <= a2,
    decreases a,
{
    if exists|a2: int, b2: int| header_line_split(line, a2, b2) && a2 < a {
        let (a2, b2) = choose|a2: int, b2: int| header_line_split(line, a2, b2) && a2 < a;
        lemma_shortest_name(line, a2, b2);
    } else {
        assert(header_line_split(line, a, b) && forall|a2: int, b2: int|
            header_line_split(line, a2, b2) ==> a <= a2);
    }
}

/// Above any reading of a header line stands one with the same name whose
/// run of white space is the longest.
proof fn lemma_longest_gap(line: Seq<u8>, a: int, b: int)
    requires
        header_line_split(line, a, b),
    ensures
        exists|b1: int|
            header_line_split(line, a, b1) && forall|b2: int|
                header_line_split(line, a, b2) ==> b2 <= b1,
    decreases line.len() - b,
{
    if exists|b2: int| header_line_split(line, a, b2) && b < b2 {
        let b2 = choose|b2: int| header_line_split(line, a, b2) && b < b2;
        lemma_longest_gap(line, a, b2);
    } else {
        assert(header_line_split(line, a, b) && forall|b2: int|
            header_line_split(line, a, b2) ==> b2 <= b);
    }
}

/// The grammars that a line of a request head can be held against.
#[derive(Clone, Copy, Debug, PartialEq, Eq, Structural)]
pub enum Grammar {
    /// `<METHOD> <TARGET> HTTP/1.1`
    RequestLine,
    /// `<NAME>: <VALUE>`
    Header,
}

/// The two parts that `grammar` captures from `line`, if `line` follows it.
pub open spec fn captures(grammar: Grammar, line: Seq<u8>) -> Option<(Seq<u8>, Seq<u8>)> {
    match grammar {
        Grammar::RequestLine => request_line_captures(line),
        Grammar::Header => header_line_captures(line),
    }
}

/// Holds `line` against `grammar` and returns the two captured parts, or
/// `None` if the line does not follow the grammar.
pub fn process_regex(line: &[u8], grammar: Grammar) -> (r: Option<Captures>)
    ensures
        captured(r) == captures(grammar, line@),
{
    match grammar {
        Grammar::RequestLine => match_request_line(line),
        Grammar::Header => match_header_line(line),
    }
}

} // verus!
