//! Serializing requests and responses.

use crate::bytes::put_raw;
use crate::headers;
use crate::headers::Field;
use crate::http::message::{Request, RequestView, Response, ResponseView};
use crate::lex;
use crate::lex::{eq_ignore_ascii_case, put_decimal};
use vstd::prelude::*;
use vstd::utf8::*;

verus! {

/// One header on the wire.
pub open spec fn header_line(field: Field) -> Seq<u8> {
    encode_utf8(field.0) + encode_utf8(": "@) + encode_utf8(field.1) + encode_utf8("\r\n"@)
}

/// A list of headers on the wire.
pub open spec fn header_lines(fields: Seq<Field>) -> Seq<u8>
    decreases fields.len(),
{
    if fields.len() == 0 {
        Seq::empty()
    } else {
        header_lines(fields.drop_last()) + header_line(fields.last())
    }
}

/// Whether the serializer sets this response header itself.
pub open spec fn owned_in_response(name: Seq<char>) -> bool {
    lex::same_name(name, "content-length"@)
}

/// Whether the serializer sets this request header itself.
pub open spec fn owned_in_request(name: Seq<char>) -> bool {
    lex::same_name(name, "content-length"@) || lex::same_name(name, "connection"@)
}

/// The headers of a response that are not the serializer's.
pub open spec fn response_fields(fields: Seq<Field>) -> Seq<Field>
    decreases fields.len(),
{
    if fields.len() == 0 {
        fields
    } else if owned_in_response(fields.last().0) {
        response_fields(fields.drop_last())
    } else {
        response_fields(fields.drop_last()).push(fields.last())
    }
}

/// The headers of a request that are not the serializer's.
pub open spec fn request_fields(fields: Seq<Field>) -> Seq<Field>
    decreases fields.len(),
{
    if fields.len() == 0 {
        fields
    } else if owned_in_request(fields.last().0) {
        request_fields(fields.drop_last())
    } else {
        request_fields(fields.drop_last()).push(fields.last())
    }
}

/// The reason phrase that goes with a status.
pub open spec fn reason_of(status: u16) -> Seq<char> {
    if status == 200 {
        "OK"@
    } else if status == 201 {
        "Created"@
    } else if status == 400 {
        "Bad Request"@
    } else if status == 409 {
        "Conflict"@
    } else if status == 422 {
        "Unprocessable Entity"@
    } else if status == 429 {
        "Too Many Requests"@
    } else if status == 500 {
        "Internal Server Error"@
    } else if status == 502 {
        "Bad Gateway"@
    } else {
        "Status"@
    }
}

/// The `Content-Length` header of a body of `n` bytes on the wire.
pub open spec fn length_line(n: nat) -> Seq<u8> {
    encode_utf8("Content-Length: "@) + lex::decimal(n) + encode_utf8("\r\n"@)
}

/// A response on the wire.
pub open spec fn response_bytes(r: ResponseView) -> Seq<u8> {
    encode_utf8("HTTP/1.1 "@) + lex::decimal(r.status as nat) + encode_utf8(" "@) + encode_utf8(
        reason_of(r.status),
    ) + encode_utf8("\r\n"@) + length_line(r.body.len()) + header_lines(response_fields(r.headers))
        + encode_utf8("\r\n"@) + r.body
}

/// A request on the wire.
pub open spec fn request_bytes(r: RequestView) -> Seq<u8> {
    encode_utf8(r.method) + encode_utf8(" "@) + encode_utf8(r.target) + encode_utf8(
        " HTTP/1.1\r\n"@,
    ) + header_lines(request_fields(r.headers)) + length_line(r.body.len()) + encode_utf8(
        "Connection: close\r\n"@,
    ) + encode_utf8("\r\n"@) + r.body
}

fn put_text(out: &mut Vec<u8>, text: &str)
    ensures
        final(out)@ == old(out)@ + encode_utf8(text@),
{
    put_raw(out, text.as_bytes());
}

fn put_header(out: &mut Vec<u8>, name: &str, value: &str)
    ensures
        final(out)@ == old(out)@ + header_line((name@, value@)),
{
    let ghost before = out@;
    put_text(out, name);
    put_text(out, ": ");
    put_text(out, value);
    put_text(out, "\r\n");
    assert(out@ =~= before + header_line((name@, value@)));
}

fn put_length(out: &mut Vec<u8>, n: usize)
    ensures
        final(out)@ == old(out)@ + length_line(n as nat),
{
    let ghost before = out@;
    put_text(out, "Content-Length: ");
    put_decimal(out, n as u64);
    put_text(out, "\r\n");
    assert(out@ =~= before + length_line(n as nat));
}

proof fn header_lines_push(fields: Seq<Field>, f: Field)
    ensures
        header_lines(fields.push(f)) == header_lines(fields) + header_line(f),
{
    assert(fields.push(f).drop_last() =~= fields);
}

fn put_response_fields(out: &mut Vec<u8>, fields: &Vec<(String, String)>)
    ensures
        final(out)@ == old(out)@ + header_lines(
            response_fields(headers::field_views(fields@)),
        ),
{
    let ghost before = out@;
    let ghost all = headers::field_views(fields@);
    let mut i: usize = 0;
    assert(response_fields(all.take(0)) =~= Seq::<Field>::empty());
    assert(out@ =~= before + header_lines(response_fields(all.take(0))));
    while i < fields.len()
        invariant
            i <= fields.len(),
            all == headers::field_views(fields@),
            out@ == before + header_lines(response_fields(all.take(i as int))),
        decreases fields.len() - i,
    {
        let ghost f = all[i as int];
        let ghost kept = response_fields(all.take(i as int));
        assert(all.take(i + 1).drop_last() =~= all.take(i as int));
        assert(all.take(i + 1).last() == f);
        assert(f == (fields@[i as int].0@, fields@[i as int].1@));
        if !eq_ignore_ascii_case(fields[i].0.as_str(), "content-length") {
            put_header(out, fields[i].0.as_str(), fields[i].1.as_str());
            proof {
                header_lines_push(kept, f);
                assert(out@ =~= before + header_lines(kept.push(f)));
            }
        }
        i = i + 1;
    }
    assert(all.take(i as int) =~= all);
}

fn put_request_fields(out: &mut Vec<u8>, fields: &Vec<(String, String)>)
    ensures
        final(out)@ == old(out)@ + header_lines(request_fields(headers::field_views(fields@))),
{
    let ghost before = out@;
    let ghost all = headers::field_views(fields@);
    let mut i: usize = 0;
    assert(request_fields(all.take(0)) =~= Seq::<Field>::empty());
    assert(out@ =~= before + header_lines(request_fields(all.take(0))));
    while i < fields.len()
        invariant
            i <= fields.len(),
            all == headers::field_views(fields@),
            out@ == before + header_lines(request_fields(all.take(i as int))),
        decreases fields.len() - i,
    {
        let ghost f = all[i as int];
        let ghost kept = request_fields(all.take(i as int));
        assert(all.take(i + 1).drop_last() =~= all.take(i as int));
        assert(all.take(i + 1).last() == f);
        assert(f == (fields@[i as int].0@, fields@[i as int].1@));
        let name = fields[i].0.as_str();
        if !eq_ignore_ascii_case(name, "content-length") && !eq_ignore_ascii_case(
            name,
            "connection",
        ) {
            put_header(out, name, fields[i].1.as_str());
            proof {
                header_lines_push(kept, f);
                assert(out@ =~= before + header_lines(kept.push(f)));
            }
        }
        i = i + 1;
    }
    assert(all.take(i as int) =~= all);
}

/// The reason phrase that goes with a status.
fn reason_phrase(status: u16) -> (reason: &'static str)
    ensures
        reason@ == reason_of(status),
{
    match status {
        200 => "OK",
        201 => "Created",
        400 => "Bad Request",
        409 => "Conflict",
        422 => "Unprocessable Entity",
        429 => "Too Many Requests",
        500 => "Internal Server Error",
        502 => "Bad Gateway",
        _ => "Status",
    }
}

/// Serialize `response` onto `out`. `Content-Length` is always set to the actual
/// body length (any caller-supplied `Content-Length` is ignored).
pub fn write_response(out: &mut Vec<u8>, response: &Response)
    ensures
        final(out)@ == old(out)@ + response_bytes(response@),
{
    let mut wire: Vec<u8> = Vec::new();
    put_text(&mut wire, "HTTP/1.1 ");
    assert(wire@ =~= encode_utf8("HTTP/1.1 "@));
    put_decimal(&mut wire, response.status as u64);
    put_text(&mut wire, " ");
    put_text(&mut wire, reason_phrase(response.status));
    put_text(&mut wire, "\r\n");
    put_length(&mut wire, response.body.len());
    put_response_fields(&mut wire, &response.headers);
    put_text(&mut wire, "\r\n");
    put_raw(&mut wire, response.body.as_slice());
    put_raw(out, wire.as_slice());
}

/// Serialize `request` onto `out` to forward it to a backend. Sets
/// `Content-Length` to the actual body length and `Connection: close` (one request
/// per connection), overriding any caller-supplied versions.
pub fn write_request(out: &mut Vec<u8>, request: &Request)
    ensures
        final(out)@ == old(out)@ + request_bytes(request@),
{
    let mut wire: Vec<u8> = Vec::new();
    put_text(&mut wire, request.method.as_str());
    assert(wire@ =~= encode_utf8(request.method@));
    put_text(&mut wire, " ");
    put_text(&mut wire, request.target.as_str());
    put_text(&mut wire, " HTTP/1.1\r\n");
    put_request_fields(&mut wire, &request.headers);
    put_length(&mut wire, request.body.len());
    put_text(&mut wire, "Connection: close\r\n");
    put_text(&mut wire, "\r\n");
    put_raw(&mut wire, request.body.as_slice());
    put_raw(out, wire.as_slice());
}

} // verus!
