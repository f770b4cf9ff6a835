//! Requests and responses.

use crate::headers;
use crate::headers::Field;
use crate::http::field_laws;
use crate::lex;
use crate::lex::eq_ignore_ascii_case;
use crate::text::copy_bytes;
use vstd::prelude::*;
use vstd::utf8::*;

verus! {

/// A parsed HTTP request.
#[derive(Debug)]
pub struct Request {
    /// Request method, e.g. `POST`.
    pub method: String,
    /// Request target (path and query), e.g. `/charge`.
    pub target: String,
    /// Headers in wire order; look them up via [`Request::header`].
    pub headers: Vec<(String, String)>,
    /// Request body.
    pub body: Vec<u8>,
}

/// What a [`Request`] holds.
#[verifier::ext_equal]
pub struct RequestView {
    pub method: Seq<char>,
    pub target: Seq<char>,
    pub headers: Seq<Field>,
    pub body: Seq<u8>,
}

impl View for Request {
    type V = RequestView;

    open spec fn view(&self) -> RequestView {
        RequestView {
            method: self.method@,
            target: self.target@,
            headers: headers::field_views(self.headers@),
            body: self.body@,
        }
    }
}

/// A response to serialize back to the client.
#[derive(Debug)]
pub struct Response {
    /// Status code, e.g. `201`.
    pub status: u16,
    /// Headers to emit (the serializer owns `Content-Length`).
    pub headers: Vec<(String, String)>,
    /// Response body.
    pub body: Vec<u8>,
}

/// What a [`Response`] holds.
#[verifier::ext_equal]
pub struct ResponseView {
    pub status: u16,
    pub headers: Seq<Field>,
    pub body: Seq<u8>,
}

impl View for Response {
    type V = ResponseView;

    open spec fn view(&self) -> ResponseView {
        ResponseView {
            status: self.status,
            headers: headers::field_views(self.headers@),
            body: self.body@,
        }
    }
}

/// The value of the first header called `name`, whatever its case.
pub open spec fn header_value(fields: Seq<Field>, name: Seq<char>) -> Option<Seq<char>>
    decreases fields.len(),
{
    if fields.len() == 0 {
        None
    } else if lex::same_name(fields[0].0, name) {
        Some(fields[0].1)
    } else {
        header_value(fields.drop_first(), name)
    }
}

/// The value of the first of `fields` called `name`, whatever its case.
pub fn find_header<'a>(fields: &'a Vec<(String, String)>, name: &str) -> (value: Option<&'a str>)
    ensures
        value is Some <==> header_value(headers::field_views(fields@), name@) is Some,
        value matches Some(v) ==> header_value(headers::field_views(fields@), name@) == Some(v@),
        is_ascii_chars(name@) ==> field_laws::is_lookup(
            headers::field_views(fields@),
            name@,
            match value {
                Some(v) => Some(v@),
                None => None,
            },
        ),
{
    proof {
        if is_ascii_chars(name@) {
            field_laws::the_first_header_so_called_is_found(
                headers::field_views(fields@),
                name@,
            );
        }
    }
    let ghost all = headers::field_views(fields@);
    let mut i: usize = 0;
    assert(all.skip(0) =~= all);
    while i < fields.len()
        invariant
            i <= fields.len(),
            all == headers::field_views(fields@),
            header_value(all, name@) == header_value(all.skip(i as int), name@),
            is_ascii_chars(name@) ==> field_laws::is_lookup(
                all,
                name@,
                header_value(all, name@),
            ),
        decreases fields.len() - i,
    {
        let ghost rest = all.skip(i as int);
        assert(rest[0] == (fields@[i as int].0@, fields@[i as int].1@));
        assert(rest.drop_first() =~= all.skip(i + 1));
        if eq_ignore_ascii_case(fields[i].0.as_str(), name) {
            return Some(fields[i].1.as_str());
        }
        i = i + 1;
    }
    None
}

/// A copy of a list of headers.
pub fn copy_fields(fields: &Vec<(String, String)>) -> (copy: Vec<(String, String)>)
    ensures
        headers::field_views(copy@) == headers::field_views(fields@),
{
    let ghost all = headers::field_views(fields@);
    let mut copy: Vec<(String, String)> = Vec::with_capacity(fields.len());
    let mut i: usize = 0;
    while i < fields.len()
        invariant
            i <= fields.len(),
            all == headers::field_views(fields@),
            headers::field_views(copy@) == all.take(i as int),
        decreases fields.len() - i,
    {
        let ghost copied = headers::field_views(copy@);
        copy.push((fields[i].0.clone(), fields[i].1.clone()));
        assert(headers::field_views(copy@) =~= copied.push(all[i as int]));
        i = i + 1;
        assert(headers::field_views(copy@) =~= all.take(i as int));
    }
    assert(all.take(i as int) =~= all);
    copy
}

impl Request {
    /// Case-insensitive header lookup (HTTP header names are case-insensitive).
    pub fn header(&self, name: &str) -> (value: Option<&str>)
        ensures
            value is Some <==> header_value(self@.headers, name@) is Some,
            value matches Some(v) ==> header_value(self@.headers, name@) == Some(v@),
            is_ascii_chars(name@) ==> field_laws::is_lookup(
                self@.headers,
                name@,
                match value {
                    Some(v) => Some(v@),
                    None => None,
                },
            ),
    {
        find_header(&self.headers, name)
    }
}

impl Clone for Request {
    fn clone(&self) -> (r: Self)
        ensures
            r@ == self@,
    {
        Request {
            method: self.method.clone(),
            target: self.target.clone(),
            headers: copy_fields(&self.headers),
            body: copy_bytes(self.body.as_slice()),
        }
    }
}

impl Clone for Response {
    fn clone(&self) -> (r: Self)
        ensures
            r@ == self@,
    {
        Response {
            status: self.status,
            headers: copy_fields(&self.headers),
            body: copy_bytes(self.body.as_slice()),
        }
    }
}

} // verus!
