//! What the pooled, asynchronous proxy decides: where a request goes, what of it
//! goes there, and what of the backend's answer comes back.
//!
//! The transport itself (accepting connections, calling the backend) is the
//! caller's; it hands in what it received and sends what it is given.

use crate::gateway::UpstreamError;
use crate::headers;
use crate::headers::Field;
use crate::http::field_laws;
use crate::http::message::{Request, RequestView, Response, ResponseView};
use crate::lex;
use crate::lex::{eq_ignore_ascii_case, TextBuf};
use crate::text;
use crate::text::{copy_bytes, copy_text, same_text};
use vstd::prelude::*;
use vstd::string::*;
use vstd::utf8::*;

verus! {

/// Largest request body the proxy will buffer (16 MiB). Bigger requests are
/// rejected rather than read unbounded into memory.
pub const MAX_BODY: usize = 16_777_216;

/// A byte that may stand in a method name: a letter, a digit, or one of
/// ``!#$%&'*+-.^_`|~``.
pub open spec fn is_token_byte(b: u8) -> bool {
    ||| 48 <= b <= 57
    ||| 65 <= b <= 90
    ||| 94 <= b <= 122
    ||| b == 33
    ||| 35 <= b <= 39
    ||| b == 42
    ||| b == 43
    ||| b == 45
    ||| b == 46
    ||| b == 124
    ||| b == 126
}

/// A method name: at least one byte, each of which may stand in one.
pub open spec fn is_token(name: Seq<u8>) -> bool {
    name.len() > 0 && forall|i: int| 0 <= i < name.len() ==> is_token_byte(#[trigger] name[i])
}

/// A byte of a header value that is visible ASCII, a space or a tab.
pub open spec fn is_visible_byte(b: u8) -> bool {
    32 <= b < 127 || b == 9
}

/// A header value that can be read as text.
pub open spec fn is_visible(value: Seq<u8>) -> bool {
    forall|i: int| 0 <= i < value.len() ==> is_visible_byte(#[trigger] value[i])
}

/// Calls `reqwest::Method::from_bytes`, which accepts exactly the names that are
/// tokens, and reads the method back with `as_str`, which gives the same bytes.
#[verifier::external_body]
fn method_of(name: &[u8]) -> (method: Option<String>)
    ensures
        method is Some <==> is_token(name@),
        method matches Some(text) ==> encode_utf8(text@) == name@,
{
    match reqwest::Method::from_bytes(name) {
        Ok(method) => Some(method.as_str().to_string()),
        Err(_) => None,
    }
}

/// Calls `reqwest::header::HeaderValue::to_str` on a header value with these
/// bytes: it yields the text of a value whose bytes are all visible, and none of
/// any other.
#[verifier::external_body]
fn header_text(value: &[u8]) -> (text: Option<String>)
    ensures
        text is Some <==> is_visible(value@),
        text matches Some(t) ==> encode_utf8(t@) == value@,
{
    match reqwest::header::HeaderValue::from_bytes(value) {
        Ok(value) => match value.to_str() {
            Ok(text) => Some(text.to_string()),
            Err(_) => None,
        },
        Err(_) => None,
    }
}

/// Whether `text` starts with `prefix`.
pub open spec fn begins_with(text: Seq<char>, prefix: Seq<char>) -> bool {
    prefix.len() <= text.len() && text.take(prefix.len() as int) == prefix
}

fn starts_with(text: &str, prefix: &str) -> (r: bool)
    ensures
        r == begins_with(text@, prefix@),
{
    let n: usize = prefix.unicode_len();
    if text.unicode_len() < n {
        return false;
    }
    let head = text.substring_char(0, n);
    assert(head@ =~= text@.take(n as int));
    same_text(head, prefix)
}

/// The base URL for a backend: a bare `host:port` is taken as `http://host:port`.
pub open spec fn base_of(backend: Seq<char>) -> Seq<char> {
    if begins_with(backend, "http://"@) || begins_with(backend, "https://"@) {
        backend
    } else {
        "http://"@ + backend
    }
}

/// The base URL for `backend`, which is one already or a bare `host:port`.
pub fn backend_base(backend: &str) -> (base: String)
    ensures
        base@ == base_of(backend@),
{
    if starts_with(backend, "http://") || starts_with(backend, "https://") {
        return copy_text(backend);
    }
    let mut base = TextBuf::new();
    base.push("http://");
    base.push(backend);
    let text = base.into_text();
    assert(text@ =~= "http://"@ + backend@);
    text
}

/// Header fields as they come off the wire: a name, and a value in bytes.
pub type RawField = (Seq<char>, Seq<u8>);

/// Raw header fields, by their views.
pub open spec fn raw_views(raw: Seq<(String, Vec<u8>)>) -> Seq<RawField> {
    raw.map_values(|f: (String, Vec<u8>)| (f.0@, f.1@))
}

/// The fields whose value can be read as text, in order.
pub open spec fn readable(raw: Seq<RawField>) -> Seq<Field>
    decreases raw.len(),
{
    if raw.len() == 0 {
        Seq::empty()
    } else {
        let init = readable(raw.drop_last());
        if is_visible(raw.last().1) {
            init.push((raw.last().0, decode_utf8(raw.last().1)))
        } else {
            init
        }
    }
}

/// The fields of `raw` whose value can be read as text; the others are dropped.
pub fn text_headers(raw: &Vec<(String, Vec<u8>)>) -> (fields: Vec<(String, String)>)
    ensures
        headers::field_views(fields@) == readable(raw_views(raw@)),
{
    let ghost all = raw_views(raw@);
    let mut fields: Vec<(String, String)> = Vec::new();
    let mut i: usize = 0;
    assert(all.take(0) =~= Seq::<RawField>::empty());
    assert(headers::field_views(fields@) =~= Seq::<Field>::empty());
    while i < raw.len()
        invariant
            i <= raw.len(),
            all == raw_views(raw@),
            headers::field_views(fields@) == readable(all.take(i as int)),
        decreases raw.len() - i,
    {
        proof {
            assert(all.take(i + 1).drop_last() =~= all.take(i as int));
            assert(all.take(i + 1).last() == (raw@[i as int].0@, raw@[i as int].1@));
        }
        let ghost before = headers::field_views(fields@);
        if let Some(value) = header_text(raw[i].1.as_slice()) {
            proof {
                encode_utf8_decode_utf8(value@);
            }
            let name = copy_text(raw[i].0.as_str());
            let ghost field = (name@, value@);
            fields.push((name, value));
            assert(headers::field_views(fields@) =~= before.push(field));
        }
        i = i + 1;
    }
    assert(all.take(i as int) =~= all);
    fields
}

/// The request that came in: its target is the path and query, `/` where there is
/// none, and headers that are not text are left out.
pub fn incoming_request(
    method: String,
    path_and_query: Option<String>,
    raw: &Vec<(String, Vec<u8>)>,
    body: Vec<u8>,
) -> (request: Request)
    ensures
        request@ == (RequestView {
            method: method@,
            target: match path_and_query {
                Some(target) => target@,
                None => "/"@,
            },
            headers: readable(raw_views(raw@)),
            body: body@,
        }),
{
    let target = match path_and_query {
        Some(target) => target,
        None => copy_text("/"),
    };
    Request { method, target, headers: text_headers(raw), body }
}

/// The backend's answer: headers that are not text are left out.
pub fn upstream_response(status: u16, raw: &Vec<(String, Vec<u8>)>, body: Vec<u8>) -> (response:
    Response)
    ensures
        response@ == (ResponseView { status, headers: readable(raw_views(raw@)), body: body@ }),
{
    Response { status, headers: text_headers(raw), body }
}

/// A response that is just a line of text.
pub fn text_response(status: u16, message: &str) -> (response: Response)
    ensures
        response@ == (ResponseView {
            status,
            headers: Seq::empty(),
            body: encode_utf8(message@),
        }),
{
    let response = Response { status, headers: Vec::new(), body: copy_bytes(message.as_bytes()) };
    assert(response@.headers =~= Seq::<Field>::empty());
    response
}

/// What a request with a body over the limit is answered.
pub fn body_too_large() -> (response: Response)
    ensures
        response@ == (ResponseView {
            status: 413,
            headers: Seq::empty(),
            body: encode_utf8("request body too large"@),
        }),
{
    text_response(413, "request body too large")
}

/// What the client is answered in place of a response that cannot be sent as HTTP.
pub fn malformed_answer() -> (response: Response)
    ensures
        response@ == (ResponseView {
            status: 502,
            headers: Seq::empty(),
            body: encode_utf8("malformed upstream response"@),
        }),
{
    text_response(502, "malformed upstream response")
}

/// Whether a header is passed on to the backend. The client that calls it sets its
/// own host and framing.
pub open spec fn is_passed_on(name: Seq<char>) -> bool {
    &&& !lex::same_name(name, "host"@)
    &&& !lex::same_name(name, "content-length"@)
    &&& !lex::same_name(name, "connection"@)
}

/// The headers that are passed on to the backend, in order.
pub open spec fn passed_on(fields: Seq<Field>) -> Seq<Field>
    decreases fields.len(),
{
    if fields.len() == 0 {
        Seq::empty()
    } else {
        let init = passed_on(fields.drop_last());
        if is_passed_on(fields.last().0) {
            init.push(fields.last())
        } else {
            init
        }
    }
}

/// A call of the backend.
pub struct BackendCall {
    pub method: String,
    pub url: String,
    pub headers: Vec<(String, String)>,
    /// The body to send, if there is one.
    pub body: Option<Vec<u8>>,
}

/// What a [`BackendCall`] holds.
#[verifier::ext_equal]
pub struct CallView {
    pub method: Seq<char>,
    pub url: Seq<char>,
    pub headers: Seq<Field>,
    pub body: Option<Seq<u8>>,
}

impl View for BackendCall {
    type V = CallView;

    open spec fn view(&self) -> CallView {
        CallView {
            method: self.method@,
            url: self.url@,
            headers: headers::field_views(self.headers@),
            body: match self.body {
                Some(body) => Some(body@),
                None => None,
            },
        }
    }
}

/// The call that forwards `request` to the backend with this base URL, if its
/// method is one.
pub open spec fn call_for(base: Seq<char>, request: RequestView) -> Option<CallView> {
    if is_token(encode_utf8(request.method)) {
        Some(
            CallView {
                method: request.method,
                url: base + request.target,
                headers: passed_on(request.headers),
                body: if request.body.len() > 0 {
                    Some(request.body)
                } else {
                    None
                },
            },
        )
    } else {
        None
    }
}

fn pass_on(fields: &Vec<(String, String)>) -> (r: Vec<(String, String)>)
    ensures
        headers::field_views(r@) == passed_on(headers::field_views(fields@)),
{
    let ghost all = headers::field_views(fields@);
    let mut r: Vec<(String, String)> = Vec::new();
    let mut i: usize = 0;
    assert(all.take(0) =~= Seq::<Field>::empty());
    assert(headers::field_views(r@) =~= Seq::<Field>::empty());
    while i < fields.len()
        invariant
            i <= fields.len(),
            all == headers::field_views(fields@),
            headers::field_views(r@) == passed_on(all.take(i as int)),
        decreases fields.len() - i,
    {
        let name = fields[i].0.as_str();
        let value = fields[i].1.as_str();
        proof {
            assert(all.take(i + 1).drop_last() =~= all.take(i as int));
            assert(all.take(i + 1).last() == (name@, value@));
        }
        let ghost before = headers::field_views(r@);
        if !eq_ignore_ascii_case(name, "host") && !eq_ignore_ascii_case(name, "content-length")
            && !eq_ignore_ascii_case(name, "connection") {
            r.push((copy_text(name), copy_text(value)));
            assert(headers::field_views(r@) =~= before.push((name@, value@)));
        }
        i = i + 1;
    }
    assert(all.take(i as int) =~= all);
    r
}

/// Plans the call that forwards `request` to the backend with base URL `base`. A
/// request whose method is not a valid name is not forwarded.
pub fn plan_forward(base: &str, request: &Request) -> (r: Result<BackendCall, UpstreamError>)
    ensures
        match call_for(base@, request@) {
            Some(call) => r matches Ok(planned) && planned@ == call,
            None => r matches Err(e) && e.message@ == "invalid HTTP method"@,
        },
{
    let method = match method_of(request.method.as_str().as_bytes()) {
        Some(method) => method,
        None => {
            return Err(UpstreamError { message: copy_text("invalid HTTP method") });
        },
    };
    proof {
        text::encoding_is_injective(method@, request.method@);
    }
    let mut url = TextBuf::new();
    url.push(base);
    url.push(request.target.as_str());
    let body: Option<Vec<u8>> = if request.body.len() > 0 {
        Some(copy_bytes(request.body.as_slice()))
    } else {
        None
    };
    let call = BackendCall {
        method,
        url: url.into_text(),
        headers: pass_on(&request.headers),
        body,
    };
    assert(call@ =~= call_for(base@, request@)->Some_0);
    Ok(call)
}

// ---------------------------------------------------------------------------
// What the proxy guarantees
// ---------------------------------------------------------------------------

/// A backend is called at the URL that it was given, and one that was given as a bare
/// host, with or without a port, at `http://` and that host.
pub proof fn a_backend_is_called_where_it_is(backend: Seq<char>, rest: Seq<char>)
    ensures
        base_of("http://"@ + rest) == "http://"@ + rest,
        base_of("https://"@ + rest) == "https://"@ + rest,
        (forall|t: Seq<char>|
            backend != #[trigger] ("http://"@ + t) && backend != "https://"@ + t) ==> base_of(
            backend,
        ) == "http://"@ + backend,
{
    let (a, b) = ("http://"@, "https://"@);
    assert((a + rest).take(a.len() as int) =~= a);
    assert((b + rest).take(b.len() as int) =~= b);
    if begins_with(backend, a) {
        let t = backend.skip(a.len() as int);
        assert(backend =~= "http://"@ + t);
    }
    if begins_with(backend, b) {
        let t = backend.skip(b.len() as int);
        let u = "http://"@ + t;
        assert(backend =~= "https://"@ + t);
    }
}

/// All bytes are visible ASCII, spaces or tabs.
pub open spec fn is_plain(value: Seq<u8>) -> bool {
    forall|i: int| 0 <= i < value.len() ==> 32 <= #[trigger] value[i] <= 126 || value[i] == 9
}

/// Plain bytes, read character by character.
pub open spec fn read_plainly(value: Seq<u8>) -> Seq<char> {
    Seq::new(value.len(), |i: int| value[i] as char)
}

proof fn plain_bytes_are_their_characters(value: Seq<u8>)
    requires
        is_plain(value),
    ensures
        decode_utf8(value) == read_plainly(value),
{
    let t = read_plainly(value);
    assert forall|i: int| 0 <= i < t.len() implies '\0' <= #[trigger] t[i] <= '\u{7f}' && t[i] as u8
        == value[i] by {
        let b = value[i];
        assert(32 <= b <= 126 || b == 9);
    }
    is_ascii_chars_encode_utf8(t);
    assert forall|i: int| 0 <= i < t.len() implies #[trigger] encode_utf8(t)[i] == value[i] by {
        assert(t[i] as u8 == encode_utf8(t)[i]);
    }
    assert(encode_utf8(t) =~= value);
    encode_utf8_decode_utf8(t);
}

/// Of the headers on the wire, those are taken that are plain text, all of them and in
/// their order, each with its name and its value as they stand; the others are dropped.
pub proof fn plain_headers_are_taken_as_they_are(raw: Seq<RawField>)
    ensures
        readable(raw) == raw.filter(|f: RawField| is_plain(f.1)).map_values(
            |f: RawField| (f.0, read_plainly(f.1)),
        ),
    decreases raw.len(),
{
    reveal(Seq::filter);
    let take = |f: RawField| is_plain(f.1);
    let read = |f: RawField| (f.0, read_plainly(f.1));
    if raw.len() > 0 {
        let init = raw.drop_last();
        let last = raw.last();
        plain_headers_are_taken_as_they_are(init);
        assert(is_visible(last.1) == is_plain(last.1)) by {
            if is_visible(last.1) {
                assert forall|i: int| 0 <= i < last.1.len() implies 32 <= #[trigger] last.1[i]
                    <= 126 || last.1[i] == 9 by {
                    assert(is_visible_byte(last.1[i]));
                }
            }
            if is_plain(last.1) {
                assert forall|i: int| 0 <= i < last.1.len() implies is_visible_byte(
                    #[trigger] last.1[i],
                ) by {}
            }
        }
        if is_plain(last.1) {
            plain_bytes_are_their_characters(last.1);
            assert(raw.filter(take) == init.filter(take).push(last));
            assert(raw.filter(take).map_values(read) =~= init.filter(take).map_values(read).push(
                read(last),
            ));
        } else {
            assert(raw.filter(take) == init.filter(take));
        }
    } else {
        assert(raw.filter(take) =~= raw);
        assert(readable(raw) =~= raw.filter(take).map_values(read));
    }
}

/// Whether a header is passed on: the client sets host, length and connection itself.
pub open spec fn is_kept(f: Field) -> bool {
    &&& !field_laws::is_called(f.0, "host"@)
    &&& !field_laws::is_called(f.0, "content-length"@)
    &&& !field_laws::is_called(f.0, "connection"@)
}

proof fn all_other_headers_are_passed_on(fields: Seq<Field>)
    ensures
        passed_on(fields) == fields.filter(|f: Field| is_kept(f)),
    decreases fields.len(),
{
    reveal(Seq::filter);
    reveal_strlit("host");
    reveal_strlit("content-length");
    reveal_strlit("connection");
    if fields.len() > 0 {
        all_other_headers_are_passed_on(fields.drop_last());
        let name = fields.last().0;
        field_laws::a_name_is_matched_letter_by_letter(name, "host"@);
        field_laws::a_name_is_matched_letter_by_letter(name, "content-length"@);
        field_laws::a_name_is_matched_letter_by_letter(name, "connection"@);
    } else {
        assert(fields =~= Seq::empty());
    }
}

/// A request is forwarded as it came: the same method, the backend's URL with all of the
/// target behind it, all of its headers, in their order, but for three, and all of its
/// body. It is forwarded exactly where its method is a name.
pub proof fn a_request_is_forwarded_as_it_came(base: Seq<char>, request: RequestView)
    ensures
        call_for(base, request) is Some <==> is_token(encode_utf8(request.method)),
        call_for(base, request) matches Some(call) ==> {
            &&& call.method == request.method
            &&& call.url == base + request.target
            &&& call.headers == request.headers.filter(|f: Field| is_kept(f))
            &&& call.body == if request.body.len() == 0 {
                None::<Seq<u8>>
            } else {
                Some(request.body)
            }
        },
{
    all_other_headers_are_passed_on(request.headers);
}

/// Every method that is spelled in letters is forwarded.
pub proof fn a_method_of_letters_is_a_name(method: Seq<char>)
    requires
        method.len() > 0,
        forall|i: int|
            0 <= i < method.len() ==> 'A' <= #[trigger] method[i] <= 'Z' || 'a' <= method[i]
                <= 'z',
    ensures
        is_token(encode_utf8(method)),
{
    assert forall|i: int| 0 <= i < method.len() implies '\0' <= #[trigger] method[i]
        <= '\u{7f}' by {
        assert('A' <= method[i] <= 'Z' || 'a' <= method[i] <= 'z');
    }
    is_ascii_chars_encode_utf8(method);
    assert forall|i: int| 0 <= i < encode_utf8(method).len() implies is_token_byte(
        #[trigger] encode_utf8(method)[i],
    ) by {
        assert(method[i] as u8 == encode_utf8(method)[i]);
    }
}

/// The model of raw headers holds each name and each value, in order.
pub proof fn raw_headers_are_modelled_whole(raw: Seq<(String, Vec<u8>)>)
    ensures
        raw_views(raw).len() == raw.len(),
        forall|i: int|
            0 <= i < raw.len() ==> #[trigger] raw_views(raw)[i] == (raw[i].0@, raw[i].1@),
{
}

/// The model of a call holds what the call holds, part by part.
pub proof fn a_call_is_modelled_whole(call: BackendCall)
    ensures
        call@.method == call.method@,
        call@.url == call.url@,
        call@.headers.len() == call.headers@.len(),
        forall|i: int|
            0 <= i < call.headers@.len() ==> #[trigger] call@.headers[i] == (
                call.headers@[i].0@,
                call.headers@[i].1@,
            ),
        match (call.body, call@.body) {
            (Some(body), Some(held)) => held == body@,
            (None, None) => true,
            _ => false,
        },
{
}

} // verus!
