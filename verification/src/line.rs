//! The line to the backend: the one place from which it is called, with a record of
//! what it was asked.

use crate::gateway::{Upstream, UpstreamError};
use crate::http::message::{Request, RequestView, Response};
use vstd::prelude::*;

verus! {

/// A backend that can only be called through [`ask`](Line::ask), so that every call is
/// on record.
pub struct Line<U: Upstream> {
    upstream: U,
    asked: Ghost<Seq<RequestView>>,
}

impl<U: Upstream> Line<U> {
    /// The backend at the other end.
    pub closed spec fn backend(&self) -> U {
        self.upstream
    }

    /// The requests that the backend was asked, in order.
    pub closed spec fn asked(&self) -> Seq<RequestView> {
        self.asked@
    }

    /// A line to `upstream`, over which nothing was asked yet.
    pub fn new(upstream: U) -> (r: Self)
        ensures
            r.backend() == upstream,
            r.asked() == Seq::<RequestView>::empty(),
    {
        Line { upstream, asked: Ghost(Seq::empty()) }
    }

    /// Forward `request` to the backend, once, and return its answer.
    pub fn ask(&mut self, request: &Request) -> (r: Result<Response, UpstreamError>)
        ensures
            call_ensures(U::forward, (&old(self).backend(), request), r),
            final(self).backend() == old(self).backend(),
            final(self).asked() == old(self).asked().push(request@),
    {
        let ghost asked = self.asked@.push(request@);
        self.asked = Ghost(asked);
        self.upstream.forward(request)
    }
}

} // verus!
