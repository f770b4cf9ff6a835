//! Parsing requests and responses from the bytes of a connection.

use crate::headers;
use crate::headers::Field;
use crate::http::message;
use crate::http::message::{find_header, Request, RequestView, Response, ResponseView};
use crate::lex;
use crate::lex::{find_byte, parse_number, trim};
use crate::text::{copy_bytes, string_from_utf8};
use vstd::prelude::*;
use vstd::slice::slice_subrange;
use vstd::utf8::*;

verus! {

/// Why a message could not be parsed.
#[derive(Clone, Copy, Debug, PartialEq, Eq)]
pub enum HttpError {
    /// A line of the head is not valid UTF-8.
    NotUtf8,
    /// The request line lacks a method or a target.
    MalformedRequestLine,
    /// A header line has no colon.
    MalformedHeader,
    /// The peer closed without sending a response.
    EmptyResponse,
    /// The status line has no status code.
    BadStatusLine,
    /// The peer closed before the end of the body.
    UnexpectedEof,
}

// ---------------------------------------------------------------------------
// The grammar
// ---------------------------------------------------------------------------

/// How many bytes the first line of `b` takes, its line feed included. A last
/// line without one takes all there is.
pub open spec fn line_len(b: Seq<u8>) -> int {
    let n = lex::first_index(b, 10u8);
    if n < b.len() {
        n + 1
    } else {
        b.len() as int
    }
}

/// A line without the carriage returns and line feeds at its end.
pub open spec fn chopped(line: Seq<u8>) -> Seq<u8>
    decreases line.len(),
{
    if line.len() > 0 && (line.last() == 10 || line.last() == 13) {
        chopped(line.drop_last())
    } else {
        line
    }
}

/// The header that a line holds: name and value around the first colon, both
/// without surrounding white space.
pub open spec fn header_of(line: Seq<u8>) -> Option<Field> {
    let colon = lex::first_index(line, 58u8);
    if colon < line.len() {
        Some(
            (
                lex::trimmed(decode_utf8(line.take(colon))),
                lex::trimmed(decode_utf8(line.skip(colon + 1))),
            ),
        )
    } else {
        None
    }
}

/// The headers at the front of `b`, and what follows them. They end with a blank
/// line or where the input does.
pub open spec fn headers_of(b: Seq<u8>) -> Result<(Seq<Field>, Seq<u8>), HttpError>
    decreases b.len(),
    when b.len() >= 0
    via line_is_consumed
{
    if b.len() == 0 {
        Ok((Seq::empty(), b))
    } else {
        let raw = b.take(line_len(b));
        let line = chopped(raw);
        let rest = b.skip(line_len(b));
        if !valid_utf8(raw) {
            Err(HttpError::NotUtf8)
        } else if line.len() == 0 {
            Ok((Seq::empty(), rest))
        } else {
            match header_of(line) {
                None => Err(HttpError::MalformedHeader),
                Some(field) => match headers_of(rest) {
                    Err(e) => Err(e),
                    Ok((fields, body)) => Ok((seq![field] + fields, body)),
                },
            }
        }
    }
}

#[via_fn]
proof fn line_is_consumed(b: Seq<u8>) {
    lex::first_index_is_first(b, 10u8);
}

/// The first word of a line: all up to the first space.
pub open spec fn first_word(line: Seq<u8>) -> Seq<u8> {
    line.take(lex::first_index(line, 32u8))
}

/// What follows the first space of a line; nothing where there is none.
pub open spec fn after_first_word(line: Seq<u8>) -> Seq<u8> {
    let n = lex::first_index(line, 32u8);
    if n < line.len() {
        line.skip(n + 1)
    } else {
        Seq::empty()
    }
}

/// The body length that the first `Content-Length` header announces, if that is a
/// number that an address can hold.
pub open spec fn announced_len(fields: Seq<Field>) -> Option<nat> {
    match message::header_value(fields, "content-length"@) {
        None => None,
        Some(value) => match lex::number_value(encode_utf8(value)) {
            Some(n) => if n <= usize::MAX {
                Some(n)
            } else {
                None
            },
            None => None,
        },
    }
}

/// The first `n` bytes of what follows the head.
pub open spec fn body_of(rest: Seq<u8>, n: nat) -> Result<Seq<u8>, HttpError> {
    if rest.len() < n {
        Err(HttpError::UnexpectedEof)
    } else {
        Ok(rest.take(n as int))
    }
}

/// The request that the bytes of a connection hold; none where there are none.
pub open spec fn request_of(b: Seq<u8>) -> Result<Option<RequestView>, HttpError> {
    if b.len() == 0 {
        Ok(None)
    } else {
        let raw = b.take(line_len(b));
        let line = chopped(raw);
        let method = first_word(line);
        let target = first_word(after_first_word(line));
        if !valid_utf8(raw) {
            Err(HttpError::NotUtf8)
        } else if method.len() == 0 || target.len() == 0 {
            Err(HttpError::MalformedRequestLine)
        } else {
            match headers_of(b.skip(line_len(b))) {
                Err(e) => Err(e),
                Ok((headers, rest)) => {
                    let n = match announced_len(headers) {
                        Some(n) => n,
                        None => 0,
                    };
                    match body_of(rest, n) {
                        Err(e) => Err(e),
                        Ok(body) => Ok(
                            Some(
                                RequestView {
                                    method: decode_utf8(method),
                                    target: decode_utf8(target),
                                    headers,
                                    body,
                                },
                            ),
                        ),
                    }
                },
            }
        }
    }
}

/// The status code of a status line: its second word.
pub open spec fn status_of(line: Seq<u8>) -> Option<u16> {
    match lex::number_value(first_word(after_first_word(line))) {
        Some(n) => if n <= u16::MAX {
            Some(n as u16)
        } else {
            None
        },
        None => None,
    }
}

/// The response that the bytes of a connection hold. Without a usable length it
/// takes all there is.
pub open spec fn response_of(b: Seq<u8>) -> Result<ResponseView, HttpError> {
    if b.len() == 0 {
        Err(HttpError::EmptyResponse)
    } else {
        let raw = b.take(line_len(b));
        if !valid_utf8(raw) {
            Err(HttpError::NotUtf8)
        } else {
            match status_of(chopped(raw)) {
                None => Err(HttpError::BadStatusLine),
                Some(status) => match headers_of(b.skip(line_len(b))) {
                    Err(e) => Err(e),
                    Ok((headers, rest)) => match announced_len(headers) {
                        None => Ok(ResponseView { status, headers, body: rest }),
                        Some(n) => match body_of(rest, n) {
                            Err(e) => Err(e),
                            Ok(body) => Ok(ResponseView { status, headers, body }),
                        },
                    },
                },
            }
        }
    }
}

/// The headers at the front of `b` have ended: with a blank line, or with a line
/// that is in error.
pub open spec fn headers_have_ended(b: Seq<u8>) -> bool
    decreases b.len(),
    when b.len() >= 0
    via line_is_consumed_again
{
    let n = lex::first_index(b, 10u8);
    if n == b.len() {
        false
    } else {
        let raw = b.take(line_len(b));
        let line = chopped(raw);
        !valid_utf8(raw) || line.len() == 0 || header_of(line) is None || headers_have_ended(
            b.skip(line_len(b)),
        )
    }
}

#[via_fn]
proof fn line_is_consumed_again(b: Seq<u8>) {
    lex::first_index_is_first(b, 10u8);
}

/// Whether `b` holds all of a response: what follows does not change what it
/// parses to. A response that announces no length goes on until its peer closes.
pub open spec fn response_is_settled(b: Seq<u8>) -> bool {
    let raw = b.take(line_len(b));
    let head = b.skip(line_len(b));
    &&& lex::first_index(b, 10u8) < b.len()
    &&& {
        ||| !valid_utf8(raw)
        ||| status_of(chopped(raw)) is None
        ||| headers_have_ended(head) && match headers_of(head) {
            Err(_) => true,
            Ok((headers, rest)) => announced_len(headers) matches Some(n) && rest.len() >= n,
        }
    }
}

/// Whether `b` holds all of a request: what follows does not change what it
/// parses to.
pub open spec fn request_is_settled(b: Seq<u8>) -> bool {
    let raw = b.take(line_len(b));
    let line = chopped(raw);
    let head = b.skip(line_len(b));
    &&& lex::first_index(b, 10u8) < b.len()
    &&& {
        ||| !valid_utf8(raw)
        ||| first_word(line).len() == 0
        ||| first_word(after_first_word(line)).len() == 0
        ||| headers_have_ended(head) && match headers_of(head) {
            Err(_) => true,
            Ok((headers, rest)) => match announced_len(headers) {
                None => true,
                Some(n) => rest.len() >= n,
            },
        }
    }
}

// ---------------------------------------------------------------------------
// Parsing
// ---------------------------------------------------------------------------

/// A line of the head: its bytes without the line ending, or nothing where it is
/// not valid UTF-8; and the bytes it takes.
fn next_line(b: &[u8]) -> (r: (Option<&[u8]>, usize))
    ensures
        r.1 == line_len(b@),
        r.1 <= b@.len(),
        b@.len() > 0 ==> r.1 > 0,
        ({
            let raw = b@.take(line_len(b@));
            match r.0 {
                None => !valid_utf8(raw),
                Some(line) => valid_utf8(raw) && line@ == chopped(raw) && valid_utf8(line@),
            }
        }),
{
    let n: usize = find_byte(b, 10);
    let end: usize = if n < b.len() {
        n + 1
    } else {
        n
    };
    let raw = slice_subrange(b, 0, end);
    assert(raw@ =~= b@.take(line_len(b@)));
    if string_from_utf8(copy_bytes(raw)).is_none() {
        return (None, end);
    }
    let mut len: usize = raw.len();
    assert(raw@.take(len as int) =~= raw@);
    while len > 0 && (raw[len - 1] == 10 || raw[len - 1] == 13)
        invariant
            len <= raw@.len(),
            valid_utf8(raw@.take(len as int)),
            chopped(raw@) == chopped(raw@.take(len as int)),
        decreases len,
    {
        proof {
            let cut = raw@.take(len as int);
            assert(cut.drop_last() =~= raw@.take(len - 1));
            lex::cut_at_ascii(cut, len - 1);
            assert(cut.take(len - 1) =~= raw@.take(len - 1));
        }
        len = len - 1;
    }
    proof {
        let cut = raw@.take(len as int);
        if len > 0 {
            assert(cut.last() == raw@[len - 1]);
        }
        assert(chopped(cut) == cut);
    }
    let line = slice_subrange(raw, 0, len);
    assert(line@ =~= raw@.take(len as int));
    (Some(line), end)
}

/// The text of a piece of a line that is known to be valid.
fn piece(b: &[u8]) -> (r: String)
    requires
        valid_utf8(b@),
    ensures
        r@ == decode_utf8(b@),
{
    match string_from_utf8(copy_bytes(b)) {
        Some(s) => s,
        None => String::new(),
    }
}

/// The header that a line holds.
fn parse_header(line: &[u8]) -> (r: Option<(String, String)>)
    requires
        valid_utf8(line@),
    ensures
        match header_of(line@) {
            None => r is None,
            Some(field) => r matches Some((name, value)) && (name@, value@) == field,
        },
{
    let colon: usize = find_byte(line, 58);
    if colon == line.len() {
        return None;
    }
    proof {
        lex::first_index_is_first(line@, 58u8);
        lex::cut_after_ascii(line@, colon as int);
    }
    let before = slice_subrange(line, 0, colon);
    let after = slice_subrange(line, colon + 1, line.len());
    assert(before@ =~= line@.take(colon as int));
    assert(after@ =~= line@.skip(colon + 1));
    let name = trim(piece(before).as_str());
    let value = trim(piece(after).as_str());
    Some((name, value))
}

/// Parses the headers at the front of `b`; returns them with the number of bytes
/// that the head takes.
fn parse_headers(b: &[u8]) -> (r: Result<(Vec<(String, String)>, usize), HttpError>)
    ensures
        match headers_of(b@) {
            Err(e) => r == Err::<(Vec<(String, String)>, usize), HttpError>(e),
            Ok((fields, rest)) => r matches Ok((found, n)) && headers::field_views(found@) == fields
                && n <= b@.len() && b@.skip(n as int) == rest,
        },
{
    let mut found: Vec<(String, String)> = Vec::new();
    let mut pos: usize = 0;
    assert(b@.skip(0) =~= b@);
    assert(headers::field_views(found@) =~= Seq::<Field>::empty());
    proof {
        if let Ok((fields, rest)) = headers_of(b@) {
            assert(Seq::<Field>::empty() + fields =~= fields);
        }
    }
    while pos < b.len()
        invariant
            pos <= b.len(),
            match headers_of(b@.skip(pos as int)) {
                Err(e) => headers_of(b@) == Err::<(Seq<Field>, Seq<u8>), HttpError>(e),
                Ok((fields, rest)) => headers_of(b@) == Ok::<(Seq<Field>, Seq<u8>), HttpError>(
                    (headers::field_views(found@) + fields, rest),
                ),
            },
        decreases b.len() - pos,
    {
        let here = slice_subrange(b, pos, b.len());
        let ghost at = b@.skip(pos as int);
        assert(here@ =~= at);
        let (line, taken) = next_line(here);
        assert(at.skip(taken as int) =~= b@.skip(pos + taken));
        match line {
            None => {
                return Err(HttpError::NotUtf8);
            },
            Some(line) => {
                if line.len() == 0 {
                    let ghost so_far = headers::field_views(found@);
                    assert(so_far + Seq::<Field>::empty() =~= so_far);
                    return Ok((found, pos + taken));
                }
                match parse_header(line) {
                    None => {
                        return Err(HttpError::MalformedHeader);
                    },
                    Some(field) => {
                        let ghost so_far = headers::field_views(found@);
                        let ghost f = (field.0@, field.1@);
                        found.push(field);
                        proof {
                            assert(headers::field_views(found@) =~= so_far.push(f));
                            if let Ok((fields, rest)) = headers_of(b@.skip(pos + taken)) {
                                assert(so_far + (seq![f] + fields) =~= headers::field_views(found@)
                                    + fields);
                            }
                        }
                        pos = pos + taken;
                    },
                }
            },
        }
    }
    let ghost so_far = headers::field_views(found@);
    assert(so_far + Seq::<Field>::empty() =~= so_far);
    Ok((found, pos))
}

/// The body length that the headers announce.
fn content_length(fields: &Vec<(String, String)>) -> (r: Option<usize>)
    ensures
        match announced_len(headers::field_views(fields@)) {
            None => r is None,
            Some(n) => r == Some(n as usize),
        },
{
    match find_header(fields, "content-length") {
        None => None,
        Some(value) => match parse_number(value.as_bytes(), usize::MAX as u64) {
            None => None,
            Some(n) => Some(n as usize),
        },
    }
}

/// The first and second word of a line.
fn two_words(line: &[u8]) -> (r: (&[u8], &[u8]))
    requires
        valid_utf8(line@),
    ensures
        r.0@ == first_word(line@),
        r.1@ == first_word(after_first_word(line@)),
        valid_utf8(r.0@),
        valid_utf8(r.1@),
{
    let n: usize = find_byte(line, 32);
    proof {
        lex::first_index_is_first(line@, 32u8);
        lex::cut_at_ascii(line@, n as int);
    }
    let first = slice_subrange(line, 0, n);
    assert(first@ =~= first_word(line@));
    let from: usize = if n < line.len() {
        proof {
            lex::cut_after_ascii(line@, n as int);
        }
        n + 1
    } else {
        n
    };
    let rest = slice_subrange(line, from, line.len());
    assert(rest@ =~= after_first_word(line@));
    assert(valid_utf8(rest@)) by {
        assert(rest@ =~= line@.skip(from as int));
    }
    let m: usize = find_byte(rest, 32);
    proof {
        lex::first_index_is_first(rest@, 32u8);
        lex::cut_at_ascii(rest@, m as int);
    }
    let second = slice_subrange(rest, 0, m);
    assert(second@ =~= first_word(rest@));
    (first, second)
}

/// Whether the headers at the front of `b` have ended.
fn headers_ended(b: &[u8]) -> (r: bool)
    ensures
        r == headers_have_ended(b@),
{
    let mut pos: usize = 0;
    assert(b@.skip(0) =~= b@);
    while pos < b.len()
        invariant
            pos <= b.len(),
            headers_have_ended(b@) == headers_have_ended(b@.skip(pos as int)),
        decreases b.len() - pos,
    {
        let here = slice_subrange(b, pos, b.len());
        let ghost at = b@.skip(pos as int);
        assert(here@ =~= at);
        if find_byte(here, 10) == here.len() {
            return false;
        }
        let (line, taken) = next_line(here);
        assert(at.skip(taken as int) =~= b@.skip(pos + taken));
        match line {
            None => {
                return true;
            },
            Some(line) => {
                if line.len() == 0 || parse_header(line).is_none() {
                    return true;
                }
            },
        }
        pos = pos + taken;
    }
    false
}

/// Whether `input` holds all of a request. Until it does, a caller that reads a
/// connection reads on (or, at its end, parses what there is).
pub fn is_settled(input: &[u8]) -> (r: bool)
    ensures
        r == request_is_settled(input@),
{
    if find_byte(input, 10) == input.len() {
        return false;
    }
    let (line, taken) = next_line(input);
    let line = match line {
        None => {
            return true;
        },
        Some(line) => line,
    };
    let (method, target) = two_words(line);
    if method.len() == 0 || target.len() == 0 {
        return true;
    }
    let head = slice_subrange(input, taken, input.len());
    assert(head@ =~= input@.skip(taken as int));
    if !headers_ended(head) {
        return false;
    }
    match parse_headers(head) {
        Err(_) => true,
        Ok((headers, used)) => match content_length(&headers) {
            None => true,
            Some(n) => head.len() - used >= n,
        },
    }
}

/// Whether `input` holds all of a response. Until it does, a caller that reads a
/// connection reads on (or, at its end, parses what there is).
pub fn is_response_settled(input: &[u8]) -> (r: bool)
    ensures
        r == response_is_settled(input@),
{
    if find_byte(input, 10) == input.len() {
        return false;
    }
    let (line, taken) = next_line(input);
    let line = match line {
        None => {
            return true;
        },
        Some(line) => line,
    };
    let (_version, code) = two_words(line);
    if parse_number(code, u16::MAX as u64).is_none() {
        return true;
    }
    let head = slice_subrange(input, taken, input.len());
    assert(head@ =~= input@.skip(taken as int));
    if !headers_ended(head) {
        return false;
    }
    match parse_headers(head) {
        Err(_) => true,
        Ok((headers, used)) => match content_length(&headers) {
            None => false,
            Some(n) => head.len() - used >= n,
        },
    }
}

/// Parse one request from the bytes of a connection. Returns `Ok(None)` where
/// there are none (the peer closed without sending anything), or an error on a
/// malformed request.
pub fn parse_request(input: &[u8]) -> (r: Result<Option<Request>, HttpError>)
    ensures
        match request_of(input@) {
            Err(e) => r == Err::<Option<Request>, HttpError>(e),
            Ok(None) => r matches Ok(None),
            Ok(Some(request)) => r matches Ok(Some(parsed)) && parsed@ == request,
        },
{
    if input.len() == 0 {
        return Ok(None);
    }
    let (line, taken) = next_line(input);
    let line = match line {
        None => {
            return Err(HttpError::NotUtf8);
        },
        Some(line) => line,
    };
    let (method, target) = two_words(line);
    if method.len() == 0 || target.len() == 0 {
        return Err(HttpError::MalformedRequestLine);
    }
    let head = slice_subrange(input, taken, input.len());
    assert(head@ =~= input@.skip(taken as int));
    let (headers, used) = match parse_headers(head) {
        Err(e) => {
            return Err(e);
        },
        Ok(found) => found,
    };
    let n: usize = match content_length(&headers) {
        Some(n) => n,
        None => 0,
    };
    if head.len() - used < n {
        return Err(HttpError::UnexpectedEof);
    }
    let body = copy_bytes(slice_subrange(head, used, used + n));
    assert(body@ =~= head@.skip(used as int).take(n as int));
    Ok(Some(Request { method: piece(method), target: piece(target), headers, body }))
}

/// Parse a response from the bytes that a backend sent. The body length comes from
/// `Content-Length` if present, otherwise the body is all that follows the head
/// (the `Connection: close` convention).
pub fn parse_response(input: &[u8]) -> (r: Result<Response, HttpError>)
    ensures
        match response_of(input@) {
            Err(e) => r == Err::<Response, HttpError>(e),
            Ok(response) => r matches Ok(parsed) && parsed@ == response,
        },
{
    if input.len() == 0 {
        return Err(HttpError::EmptyResponse);
    }
    let (line, taken) = next_line(input);
    let line = match line {
        None => {
            return Err(HttpError::NotUtf8);
        },
        Some(line) => line,
    };
    let (_version, code) = two_words(line);
    let status: u16 = match parse_number(code, u16::MAX as u64) {
        None => {
            return Err(HttpError::BadStatusLine);
        },
        Some(n) => n as u16,
    };
    let head = slice_subrange(input, taken, input.len());
    assert(head@ =~= input@.skip(taken as int));
    let (headers, used) = match parse_headers(head) {
        Err(e) => {
            return Err(e);
        },
        Ok(found) => found,
    };
    let available: usize = head.len() - used;
    let n: usize = match content_length(&headers) {
        Some(n) => n,
        None => available,
    };
    if available < n {
        return Err(HttpError::UnexpectedEof);
    }
    let body = copy_bytes(slice_subrange(head, used, used + n));
    assert(body@ =~= head@.skip(used as int).take(n as int));
    assert(n == available ==> body@ =~= head@.skip(used as int));
    Ok(Response { status, headers, body })
}

} // verus!
