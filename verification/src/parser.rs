//! The request parser: what one line of a request head does to the parse
//! state and to the environment.

use vstd::prelude::*;
use vstd::string::StringSliceAdditionalSpecFns;
use crate::ascii::{all_upper, copy_range, free_of, is_space, text_bytes, to_upper};
use crate::ascii::{COLON, HYPHEN, LF, QUESTION, SLASH, SPACE, UNDERSCORE};
use crate::environment::{as_map, distinct_keys, lemma_put, put, Environment};
use crate::grammar::{header_line_captures, is_request_line, request_line_captures};
use crate::grammar::{lemma_header_line_reads, lemma_request_line_reads};
use crate::grammar::{line_terminator, match_header_line, match_request_line, request_line_tail};
use crate::state::ParseState;

verus! {

/// Why a line of a request head was not accepted.
#[derive(Clone, Copy, Debug, PartialEq, Eq, Structural)]
pub enum ParseError {
    /// The first line of a request does not follow the request-line grammar.
    MalformedRequestLine,
}

/// The key under which the method of the request line is stored.
pub open spec fn request_method_key() -> Seq<u8> {
    "REQUEST_METHOD".spec_bytes()
}

/// The key of the script name, whose value is always empty.
pub open spec fn script_name_key() -> Seq<u8> {
    "SCRIPT_NAME".spec_bytes()
}

/// The key under which the path of the request target is stored.
pub open spec fn path_info_key() -> Seq<u8> {
    "PATH_INFO".spec_bytes()
}

/// The key under which the query of the request target is stored.
pub open spec fn query_string_key() -> Seq<u8> {
    "QUERY_STRING".spec_bytes()
}

/// The text with which the key of every header field begins.
pub open spec fn header_prefix() -> Seq<u8> {
    "HTTP_".spec_bytes()
}

/// Length and first letter of each fixed key and of the header prefix.
pub proof fn lemma_key_shapes()
    ensures
        request_method_key().len() == 14 && request_method_key()[0] == 82,
        script_name_key().len() == 11 && script_name_key()[0] == 83,
        path_info_key().len() == 9 && path_info_key()[0] == 80,
        query_string_key().len() == 12 && query_string_key()[0] == 81,
        header_prefix().len() == 5 && header_prefix()[0] == 72,
{
    reveal_strlit("REQUEST_METHOD");
    reveal_strlit("SCRIPT_NAME");
    reveal_strlit("PATH_INFO");
    reveal_strlit("QUERY_STRING");
    reveal_strlit("HTTP_");
    vstd::string::is_ascii_spec_bytes("REQUEST_METHOD");
    vstd::string::is_ascii_spec_bytes("SCRIPT_NAME");
    vstd::string::is_ascii_spec_bytes("PATH_INFO");
    vstd::string::is_ascii_spec_bytes("QUERY_STRING");
    vstd::string::is_ascii_spec_bytes("HTTP_");
}

/// `i` is where the path of `target` ends: at the first question mark, or
/// at the end of a target without one.
pub open spec fn path_ends_at(target: Seq<u8>, i: int) -> bool {
    &&& 0 <= i <= target.len()
    &&& free_of(target.take(i), QUESTION)
    &&& i < target.len() ==> target[i] == QUESTION
}

/// The number of bytes of `target` before its first question mark.
pub open spec fn path_length(target: Seq<u8>) -> int {
    choose|i: int| path_ends_at(target, i)
}

/// The path of a request target: what stands before the first question
/// mark, or the whole target if it has none.
pub open spec fn path_info(target: Seq<u8>) -> Seq<u8> {
    target.take(path_length(target))
}

/// The query of a request target: what stands after the first question
/// mark, or nothing if it has none.
pub open spec fn query_string(target: Seq<u8>) -> Seq<u8> {
    if path_length(target) < target.len() {
        target.skip(path_length(target) + 1)
    } else {
        Seq::empty()
    }
}

/// The path of a target ends at one place only.
pub proof fn lemma_path_length(target: Seq<u8>, i: int)
    requires
        path_ends_at(target, i),
    ensures
        path_length(target) == i,
{
    let j = path_length(target);
    if j < i {
        assert(target.take(i)[j] == QUESTION);
    }
    if i < j {
        assert(target.take(j)[i] == QUESTION);
    }
}

/// A target made of a path without a question mark, a question mark and a
/// query splits into that path and that query, whatever the query holds.
pub proof fn lemma_target_with_query(path: Seq<u8>, query: Seq<u8>)
    requires
        free_of(path, QUESTION),
    ensures
        path_info(path + seq![QUESTION] + query) == path,
        query_string(path + seq![QUESTION] + query) == query,
{
    let target = path + seq![QUESTION] + query;
    let i = path.len() as int;
    assert(target.take(i) =~= path);
    lemma_path_length(target, i);
    assert(target.skip(i + 1) =~= query);
}

/// A target without a question mark is all path, and its query is empty.
pub proof fn lemma_target_without_query(path: Seq<u8>)
    requires
        free_of(path, QUESTION),
    ensures
        path_info(path) == path,
        query_string(path) == Seq::<u8>::empty(),
{
    assert(path.take(path.len() as int) =~= path);
    lemma_path_length(path, path.len() as int);
}

/// Splits a request target at its first question mark into path and query.
pub fn split_target(target: &[u8]) -> (parts: (Vec<u8>, Vec<u8>))
    ensures
        parts.0@ == path_info(target@),
        parts.1@ == query_string(target@),
{
    let mut i: usize = 0;
    while i < target.len() && target[i] != QUESTION
        invariant
            i <= target@.len(),
            forall|j: int| 0 <= j < i ==> target@[j] != QUESTION,
        decreases target@.len() - i,
    {
        i += 1;
    }
    proof {
        lemma_path_length(target@, i as int);
    }
    let path = copy_range(target, 0, i);
    let query = if i < target.len() {
        copy_range(target, i + 1, target.len())
    } else {
        Vec::new()
    };
    (path, query)
}

/// A byte of a header name as it stands in the key: a hyphen becomes an
/// underscore, a lower-case letter its upper-case form.
pub open spec fn normalize(b: u8) -> u8 {
    if b == HYPHEN {
        UNDERSCORE
    } else {
        to_upper(b)
    }
}

/// The key of the header field with the given name: the prefix `HTTP_` and
/// the name with each byte normalized.
pub open spec fn header_key(name: Seq<u8>) -> Seq<u8> {
    header_prefix() + name.map_values(|b: u8| normalize(b))
}

/// Builds the key of the header field with the given name.
pub fn normalize_name(name: &[u8]) -> (key: Vec<u8>)
    ensures
        key@ == header_key(name@),
{
    let mut key = text_bytes("HTTP_");
    let mut i: usize = 0;
    while i < name.len()
        invariant
            i <= name@.len(),
            key@ == header_prefix() + name@.take(i as int).map_values(|b: u8| normalize(b)),
        decreases name@.len() - i,
    {
        let b: u8 = name[i];
        key.push(if b == HYPHEN { UNDERSCORE } else { to_upper(b) });
        assert(key@ =~= header_prefix() + name@.take(i + 1).map_values(|b: u8| normalize(b)));
        i += 1;
    }
    assert(name@.take(i as int) =~= name@);
    key
}

/// The listing after the fields of a request line have been stored: the
/// method, the empty script name, and path and query of the target.
pub open spec fn with_request_fields(
    l: Seq<(Seq<u8>, Seq<u8>)>,
    method: Seq<u8>,
    target: Seq<u8>,
) -> Seq<(Seq<u8>, Seq<u8>)> {
    put(
        put(
            put(put(l, request_method_key(), method), script_name_key(), Seq::empty()),
            path_info_key(),
            path_info(target),
        ),
        query_string_key(),
        query_string(target),
    )
}

/// The listing after a header field has been stored under its key.
pub open spec fn with_header_field(
    l: Seq<(Seq<u8>, Seq<u8>)>,
    name: Seq<u8>,
    value: Seq<u8>,
) -> Seq<(Seq<u8>, Seq<u8>)> {
    put(l, header_key(name), value)
}

/// What reading `line` in `state` returns: the next state, or the error for
/// a first line that is no request line.
pub open spec fn line_result(state: ParseState, line: Seq<u8>) -> Result<ParseState, ParseError> {
    if state == ParseState::StartLine && !is_request_line(line) {
        Err(ParseError::MalformedRequestLine)
    } else {
        Ok(state.successor(line))
    }
}

/// The listing after `line` has been read in `state`: a request line stores
/// its four fields, a header line stores its field, and the blank line, a
/// line that follows neither grammar, and any line read in state `Body`
/// leave the listing as it is.
pub open spec fn line_effect(
    state: ParseState,
    l: Seq<(Seq<u8>, Seq<u8>)>,
    line: Seq<u8>,
) -> Seq<(Seq<u8>, Seq<u8>)> {
    match state {
        ParseState::StartLine => match request_line_captures(line) {
            Some((method, target)) => with_request_fields(l, method, target),
            None => l,
        },
        ParseState::Headers => if line == line_terminator() {
            l
        } else {
            match header_line_captures(line) {
                Some((name, value)) => with_header_field(l, name, value),
                None => l,
            }
        },
        ParseState::Body => l,
    }
}

/// Reads one line of a request head in state `state` and stores the fields
/// that it holds in `env`.
///
/// In state `StartLine` the line must be a request line: its four fields are
/// stored and the state becomes `Headers`; any other line is an error and
/// leaves `env` as it was. In state `Headers` the blank line leads to
/// `Body`; a header line stores its field, and a line that is neither is
/// passed over. In state `Body` nothing is read.
pub fn parse_line(state: ParseState, env: &mut Environment, line: &[u8]) -> (r: Result<
    ParseState,
    ParseError,
>)
    ensures
        final(env).wf(),
        r == line_result(state, line@),
        final(env).listing() == line_effect(state, old(env).listing(), line@),
{
    proof {
        use_type_invariant(&*env);
    }
    let next = state.next(line);
    match state {
        ParseState::StartLine => {
            match match_request_line(line) {
                Some(captures) => {
                    let (path, query) = split_target(captures.second.as_slice());
                    env.insert(text_bytes("REQUEST_METHOD"), captures.first);
                    env.insert(text_bytes("SCRIPT_NAME"), Vec::new());
                    env.insert(text_bytes("PATH_INFO"), path);
                    env.insert(text_bytes("QUERY_STRING"), query);
                    Ok(next)
                },
                None => Err(ParseError::MalformedRequestLine),
            }
        },
        ParseState::Headers => {
            if next == ParseState::Headers {
                match match_header_line(line) {
                    Some(captures) => {
                        env.insert(normalize_name(captures.first.as_slice()), captures.second);
                    },
                    None => {},
                }
            }
            Ok(next)
        },
        ParseState::Body => Ok(next),
    }
}

/// The four keys of a request line differ from each other, and the key of a
/// header field is never one of them: a header line cannot overwrite a field
/// of the request line.
pub proof fn lemma_keys_differ(name: Seq<u8>)
    ensures
        request_method_key() != script_name_key(),
        request_method_key() != path_info_key(),
        request_method_key() != query_string_key(),
        script_name_key() != path_info_key(),
        script_name_key() != query_string_key(),
        path_info_key() != query_string_key(),
        header_key(name) != request_method_key(),
        header_key(name) != script_name_key(),
        header_key(name) != path_info_key(),
        header_key(name) != query_string_key(),
{
    lemma_key_shapes();
    assert(header_key(name)[0] == header_prefix()[0]);
}

/// Storing the fields of a request line keeps the keys distinct and gives
/// each of the four keys its value; every other key keeps the value it had.
pub proof fn lemma_with_request_fields(
    l: Seq<(Seq<u8>, Seq<u8>)>,
    method: Seq<u8>,
    target: Seq<u8>,
)
    requires
        distinct_keys(l),
    ensures
        distinct_keys(with_request_fields(l, method, target)),
        as_map(with_request_fields(l, method, target)) == as_map(l).insert(
            request_method_key(),
            method,
        ).insert(script_name_key(), Seq::empty()).insert(path_info_key(), path_info(target)).insert(
            query_string_key(),
            query_string(target),
        ),
        as_map(with_request_fields(l, method, target))[request_method_key()] == method,
        as_map(with_request_fields(l, method, target))[script_name_key()] == Seq::<u8>::empty(),
        as_map(with_request_fields(l, method, target))[path_info_key()] == path_info(target),
        as_map(with_request_fields(l, method, target))[query_string_key()] == query_string(
            target,
        ),
{
    lemma_keys_differ(Seq::empty());
    let l1 = put(l, request_method_key(), method);
    let l2 = put(l1, script_name_key(), Seq::empty());
    let l3 = put(l2, path_info_key(), path_info(target));
    lemma_put(l, request_method_key(), method);
    lemma_put(l1, script_name_key(), Seq::empty());
    lemma_put(l2, path_info_key(), path_info(target));
    lemma_put(l3, query_string_key(), query_string(target));
}

/// A request line `METHOD PATH?QUERY HTTP/1.1` is accepted, leads to state
/// `Headers` and stores `METHOD` as the request method, `PATH` as the path
/// and `QUERY` as the query string, beside the empty script name. The
/// method is a run of upper-case letters, the path begins with a slash and
/// holds no question mark, and the target holds no line feed and does not
/// end in white space.
pub proof fn lemma_request_line_with_query(
    l: Seq<(Seq<u8>, Seq<u8>)>,
    method: Seq<u8>,
    path: Seq<u8>,
    query: Seq<u8>,
)
    requires
        distinct_keys(l),
        method.len() > 0,
        all_upper(method),
        path.len() > 0,
        path[0] == SLASH,
        free_of(path, QUESTION),
        free_of(path, LF),
        free_of(query, LF),
        query.len() > 0 ==> !is_space(query.last()),
    ensures
        ({
            let line = method + seq![SPACE] + (path + seq![QUESTION] + query) + seq![SPACE]
                + request_line_tail();
            let env = as_map(line_effect(ParseState::StartLine, l, line));
            &&& line_result(ParseState::StartLine, line) == Ok::<ParseState, ParseError>(
                ParseState::Headers,
            )
            &&& env[request_method_key()] == method
            &&& env[script_name_key()] == Seq::<u8>::empty()
            &&& env[path_info_key()] == path
            &&& env[query_string_key()] == query
        }),
{
    let target = path + seq![QUESTION] + query;
    assert(target[0] == path[0]);
    assert(free_of(target, LF));
    assert(target.last() == if query.len() > 0 {
        query.last()
    } else {
        QUESTION
    });
    lemma_request_line_reads(method, seq![SPACE], target, seq![SPACE]);
    lemma_target_with_query(path, query);
    lemma_with_request_fields(l, method, target);
}

/// A request line `METHOD PATH HTTP/1.1` whose path holds no question mark
/// is accepted, leads to state `Headers` and stores `METHOD` as the request
/// method, `PATH` as the path and the empty string as the query string. The
/// method is a run of upper-case letters, and the path begins with a slash,
/// holds no line feed and does not end in white space.
pub proof fn lemma_request_line_without_query(
    l: Seq<(Seq<u8>, Seq<u8>)>,
    method: Seq<u8>,
    path: Seq<u8>,
)
    requires
        distinct_keys(l),
        method.len() > 0,
        all_upper(method),
        path.len() > 0,
        path[0] == SLASH,
        free_of(path, QUESTION),
        free_of(path, LF),
        !is_space(path.last()),
    ensures
        ({
            let line = method + seq![SPACE] + path + seq![SPACE] + request_line_tail();
            let env = as_map(line_effect(ParseState::StartLine, l, line));
            &&& line_result(ParseState::StartLine, line) == Ok::<ParseState, ParseError>(
                ParseState::Headers,
            )
            &&& env[request_method_key()] == method
            &&& env[script_name_key()] == Seq::<u8>::empty()
            &&& env[path_info_key()] == path
            &&& env[query_string_key()] == Seq::<u8>::empty()
        }),
{
    lemma_request_line_reads(method, seq![SPACE], path, seq![SPACE]);
    lemma_target_without_query(path);
    lemma_with_request_fields(l, method, path);
}

/// A header line `Name: Value` read in state `Headers` keeps the state and
/// stores `Value` under the key `HTTP_NAME`, the name in upper case with
/// each hyphen replaced by an underscore; no other key changes. The name
/// holds no colon, neither holds a line feed, and the value does not begin
/// with white space.
pub proof fn lemma_header_line_field(l: Seq<(Seq<u8>, Seq<u8>)>, name: Seq<u8>, value: Seq<u8>)
    requires
        distinct_keys(l),
        free_of(name, COLON),
        free_of(name, LF),
        free_of(value, LF),
        value.len() > 0 ==> !is_space(value[0]),
    ensures
        ({
            let line = name + seq![COLON] + seq![SPACE] + value + line_terminator();
            let after = line_effect(ParseState::Headers, l, line);
            &&& line_result(ParseState::Headers, line) == Ok::<ParseState, ParseError>(
                ParseState::Headers,
            )
            &&& after == with_header_field(l, name, value)
            &&& distinct_keys(after)
            &&& as_map(after) == as_map(l).insert(header_key(name), value)
            &&& as_map(after)[header_key(name)] == value
        }),
{
    let line = name + seq![COLON] + seq![SPACE] + value + line_terminator();
    assert(line.len() > 2);
    lemma_header_line_reads(name, seq![SPACE], value);
    lemma_put(l, header_key(name), value);
}

/// Of two header fields stored under one key the later one stays: the
/// environment holds one value for the key, and the listing is as long as
/// after the first of them.
pub proof fn lemma_repeated_header_overwrites(
    l: Seq<(Seq<u8>, Seq<u8>)>,
    name: Seq<u8>,
    value: Seq<u8>,
    name2: Seq<u8>,
    value2: Seq<u8>,
)
    requires
        distinct_keys(l),
        header_key(name) == header_key(name2),
    ensures
        ({
            let once = with_header_field(l, name, value);
            let twice = with_header_field(once, name2, value2);
            &&& distinct_keys(twice)
            &&& twice.len() == once.len()
            &&& as_map(twice) == as_map(l).insert(header_key(name), value2)
            &&& as_map(twice)[header_key(name)] == value2
        }),
{
    let once = with_header_field(l, name, value);
    lemma_put(l, header_key(name), value);
    lemma_put(once, header_key(name2), value2);
    assert(as_map(once).dom().contains(header_key(name)));
    assert(as_map(l).insert(header_key(name), value).insert(header_key(name), value2)
        =~= as_map(l).insert(header_key(name), value2));
}

} // verus!
