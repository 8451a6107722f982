//! Byte classes of the line grammars and small operations on byte strings.

use vstd::prelude::*;
use vstd::string::StringSliceAdditionalSpecFns;

verus! {

/// Horizontal tab.
pub const TAB: u8 = 9;

/// Line feed.
pub const LF: u8 = 10;

/// Vertical tab.
pub const VT: u8 = 11;

/// Form feed.
pub const FF: u8 = 12;

/// Carriage return.
pub const CR: u8 = 13;

/// The blank.
pub const SPACE: u8 = 32;

/// `-`
pub const HYPHEN: u8 = 45;

/// `/`
pub const SLASH: u8 = 47;

/// `:`
pub const COLON: u8 = 58;

/// `?`
pub const QUESTION: u8 = 63;

/// `_`
pub const UNDERSCORE: u8 = 95;

/// White space: blank, horizontal and vertical tab, form feed, carriage
/// return and line feed.
pub open spec fn spec_is_space(b: u8) -> bool {
    b == SPACE || (TAB <= b && b <= CR)
}

/// Whether `b` is white space.
#[verifier::when_used_as_spec(spec_is_space)]
pub fn is_space(b: u8) -> (r: bool)
    ensures
        r == spec_is_space(b),
{
    b == SPACE || (TAB <= b && b <= CR)
}

/// The upper-case letters `A` to `Z`.
pub open spec fn spec_is_upper(b: u8) -> bool {
    65 <= b && b <= 90
}

/// Whether `b` is an upper-case letter.
#[verifier::when_used_as_spec(spec_is_upper)]
pub fn is_upper(b: u8) -> (r: bool)
    ensures
        r == spec_is_upper(b),
{
    65 <= b && b <= 90
}

/// The upper-case form of a lower-case letter; any other byte unchanged.
pub open spec fn spec_to_upper(b: u8) -> u8 {
    if 97 <= b && b <= 122 {
        (b - 32) as u8
    } else {
        b
    }
}

/// The upper-case form of `b`.
#[verifier::when_used_as_spec(spec_to_upper)]
pub fn to_upper(b: u8) -> (r: u8)
    ensures
        r == spec_to_upper(b),
{
    if 97 <= b && b <= 122 {
        b - 32
    } else {
        b
    }
}

/// Every byte of `s` is white space.
pub open spec fn all_space(s: Seq<u8>) -> bool {
    forall|i: int| 0 <= i < s.len() ==> is_space(#[trigger] s[i])
}

/// Every byte of `s` is an upper-case letter.
pub open spec fn all_upper(s: Seq<u8>) -> bool {
    forall|i: int| 0 <= i < s.len() ==> is_upper(#[trigger] s[i])
}

/// No byte of `s` is `b`.
pub open spec fn free_of(s: Seq<u8>, b: u8) -> bool {
    forall|i: int| 0 <= i < s.len() ==> #[trigger] s[i] != b
}

/// A copy of the bytes of `src` from index `from` up to, not including, `to`.
pub fn copy_range(src: &[u8], from: usize, to: usize) -> (out: Vec<u8>)
    requires
        from <= to <= src@.len(),
    ensures
        out@ == src@.subrange(from as int, to as int),
{
    let mut out: Vec<u8> = Vec::new();
    out.extend_from_slice(&src[from..to]);
    out
}

/// Whether two byte strings hold the same bytes.
pub fn bytes_equal(a: &[u8], b: &[u8]) -> (r: bool)
    ensures
        r == (a@ == b@),
{
    if a.len() != b.len() {
        return false;
    }
    let mut i: usize = 0;
    while i < a.len()
        invariant
            a@.len() == b@.len(),
            i <= a@.len(),
            forall|j: int| 0 <= j < i ==> a@[j] == b@[j],
        decreases a@.len() - i,
    {
        if a[i] != b[i] {
            return false;
        }
        i += 1;
    }
    assert(a@ =~= b@);
    true
}

/// Whether the bytes of `line` from index `at` on are exactly `tail`.
pub fn ends_with_at(line: &[u8], at: usize, tail: &[u8]) -> (r: bool)
    requires
        at <= line@.len(),
    ensures
        r == (line@.subrange(at as int, line@.len() as int) == tail@),
{
    bytes_equal(&line[at..line.len()], tail)
}

/// Appends the bytes of `text` to `out`.
pub fn push_text(out: &mut Vec<u8>, text: &str)
    ensures
        final(out)@ == old(out)@ + text.spec_bytes(),
{
    out.extend_from_slice(text.as_bytes());
    assert(out@ =~= old(out)@ + text.spec_bytes());
}

/// Appends `bytes` to `out`.
pub fn push_bytes(out: &mut Vec<u8>, bytes: &[u8])
    ensures
        final(out)@ == old(out)@ + bytes@,
{
    out.extend_from_slice(bytes);
    assert(out@ =~= old(out)@ + bytes@);
}

/// The bytes of `text` as a vector of their own.
pub fn text_bytes(text: &str) -> (out: Vec<u8>)
    ensures
        out@ == text.spec_bytes(),
{
    let mut out: Vec<u8> = Vec::new();
    push_text(&mut out, text);
    out
}

} // verus!
