//! The response: the environment of a request, listed as plain text behind
//! a minimal HTTP/1.1 response head.

use vstd::prelude::*;
use vstd::string::StringSliceAdditionalSpecFns;
use crate::ascii::{push_bytes, push_text};
use crate::environment::Environment;

verus! {

/// The decimal digits of `n`, most significant first, as ASCII bytes.
pub open spec fn decimal(n: nat) -> Seq<u8>
    decreases n,
{
    if n < 10 {
        seq![(48 + n) as u8]
    } else {
        decimal(n / 10).push((48 + n % 10) as u8)
    }
}

/// The number that a sequence of ASCII decimal digits denotes.
pub open spec fn decimal_value(digits: Seq<u8>) -> nat
    decreases digits.len(),
{
    if digits.len() == 0 {
        0
    } else {
        decimal_value(digits.drop_last()) * 10 + (digits.last() - 48) as nat
    }
}

/// Every byte of `digits` is one of the ASCII digits `0` to `9`.
pub open spec fn all_digits(digits: Seq<u8>) -> bool {
    forall|i: int| 0 <= i < digits.len() ==> 48 <= #[trigger] digits[i] <= 57
}

/// The digits of a number denote that number: they are decimal digits, at
/// least one, with no leading zero but for zero itself.
pub proof fn lemma_decimal(n: nat)
    ensures
        decimal(n).len() > 0,
        all_digits(decimal(n)),
        decimal_value(decimal(n)) == n,
        n > 0 ==> decimal(n)[0] != 48,
    decreases n,
{
    if n < 10 {
        assert(decimal(n).drop_last() =~= Seq::<u8>::empty());
        assert(decimal_value(decimal(n).drop_last()) == 0);
    } else {
        lemma_decimal(n / 10);
        assert(decimal(n).drop_last() =~= decimal(n / 10));
    }
}

/// One line of the body: key, blank, colon, blank, value, line feed.
pub open spec fn entry_line(key: Seq<u8>, value: Seq<u8>) -> Seq<u8> {
    key + " : ".spec_bytes() + value + "\n".spec_bytes()
}

/// The body: one line for each entry, in the order of the listing.
pub open spec fn body_text(l: Seq<(Seq<u8>, Seq<u8>)>) -> Seq<u8>
    decreases l.len(),
{
    if l.len() == 0 {
        Seq::empty()
    } else {
        body_text(l.drop_last()) + entry_line(l.last().0, l.last().1)
    }
}

/// The status line and the two fixed header fields.
pub open spec fn response_preamble() -> Seq<u8> {
    "HTTP/1.1 200 OK\r\n".spec_bytes() + "Server: rust-http/0.1\r\n".spec_bytes()
        + "Content-Type: text/plain\r\n".spec_bytes()
}

/// The whole response to a request with the environment `l`: the preamble,
/// the `Content-Length` field with the length of the body in bytes, a blank
/// line, and the body.
pub open spec fn response_text(l: Seq<(Seq<u8>, Seq<u8>)>) -> Seq<u8> {
    response_preamble() + "Content-Length: ".spec_bytes() + decimal(body_text(l).len())
        + "\r\n".spec_bytes() + "\r\n".spec_bytes() + body_text(l)
}

/// The number in the `Content-Length` field of a response is the exact
/// length of the body that follows the blank line, and the body is the end
/// of the response.
pub proof fn lemma_content_length(l: Seq<(Seq<u8>, Seq<u8>)>)
    ensures
        ({
            let body = body_text(l);
            let digits = decimal(body.len());
            let response = response_text(l);
            &&& response == response_preamble() + "Content-Length: ".spec_bytes() + digits
                + "\r\n".spec_bytes() + "\r\n".spec_bytes() + body
            &&& all_digits(digits)
            &&& decimal_value(digits) == body.len()
            &&& response.len() >= body.len()
            &&& response.subrange(response.len() - body.len(), response.len() as int) == body
        }),
{
    let body = body_text(l);
    let response = response_text(l);
    lemma_decimal(body.len());
    assert(response.subrange(response.len() - body.len(), response.len() as int) =~= body);
}

/// Appends the decimal digits of `n` to `out`.
pub fn push_decimal(out: &mut Vec<u8>, n: usize)
    ensures
        final(out)@ == old(out)@ + decimal(n as nat),
    decreases n,
{
    if n >= 10 {
        push_decimal(out, n / 10);
    }
    let digit: u8 = (n % 10) as u8;
    out.push(48 + digit);
    assert(out@ =~= old(out)@ + decimal(n as nat));
}

/// Renders the body of the response: a line `<key> : <value>` for each entry
/// of the environment, in the order of its listing.
pub fn render_body(env: &Environment) -> (body: Vec<u8>)
    ensures
        body@ == body_text(env.listing()),
{
    let mut body: Vec<u8> = Vec::new();
    let mut i: usize = 0;
    while i < env.len()
        invariant
            i <= env.listing().len(),
            body@ == body_text(env.listing().take(i as int)),
        decreases env.listing().len() - i,
    {
        let ghost before = body@;
        push_bytes(&mut body, env.key_at(i).as_slice());
        push_text(&mut body, " : ");
        push_bytes(&mut body, env.value_at(i).as_slice());
        push_text(&mut body, "\n");
        proof {
            let l = env.listing().take(i + 1);
            assert(l.drop_last() =~= env.listing().take(i as int));
            assert(l.last() == env.listing()[i as int]);
            assert(body@ == before + entry_line(l.last().0, l.last().1));
        }
        i += 1;
    }
    assert(env.listing().take(i as int) =~= env.listing());
    body
}

/// Renders the response to a request with the environment `env`.
pub fn render_response(env: &Environment) -> (response: Vec<u8>)
    ensures
        response@ == response_text(env.listing()),
{
    let body = render_body(env);
    let mut response: Vec<u8> = Vec::new();
    push_text(&mut response, "HTTP/1.1 200 OK\r\n");
    push_text(&mut response, "Server: rust-http/0.1\r\n");
    push_text(&mut response, "Content-Type: text/plain\r\n");
    push_text(&mut response, "Content-Length: ");
    push_decimal(&mut response, body.len());
    push_text(&mut response, "\r\n");
    push_text(&mut response, "\r\n");
    push_bytes(&mut response, body.as_slice());
    assert(response@ =~= response_text(env.listing()));
    response
}

} // verus!
