//! One connection's request turned into one response: parse, dispatch to a
//! handler, frame the answer.

use vstd::prelude::*;

use crate::parser::{parse_request, parse_spec, Request, RequestView};
use crate::response::{wire, Response, ResponseView};

verus! {

/// A request handler: maps every request to a response and never fails;
/// unsupported methods, missing resources and internal faults are answered
/// with a status code.
pub trait Handler: Sync + Send {
    /// The response that this handler gives to a request.
    spec fn answer(&self, request: RequestView) -> ResponseView;

    fn handle_request(&self, request: &Request) -> (r: Response)
        ensures
            r@ == self.answer(request@),
            r@.wf(),
    ;
}

/// `400 Bad Request` with no headers and an empty body.
pub open spec fn bad_request_view() -> ResponseView {
    ResponseView { status: 400, headers: Seq::empty(), body: Seq::empty() }
}

/// The response to input that does not parse.
pub fn bad_request() -> (r: Response)
    ensures
        r@ == bad_request_view(),
{
    Response::with_status(400).unwrap()
}

/// The response to the bytes of a request: the handler's answer when they
/// parse, `400` when they do not (the handler is then not called).
pub fn get_response<H: Handler>(input: &[u8], handler: &H) -> (r: Response)
    ensures
        r@.wf(),
        match parse_spec(input@) {
            Ok(v) => r@ == handler.answer(v),
            Err(_) => r@ == bad_request_view(),
        },
{
    match parse_request(input) {
        Ok(req) => handler.handle_request(&req),
        Err(_) => bad_request(),
    }
}

/// The response to the bytes of a request, and the bytes to send back.
pub fn handle<H: Handler>(input: &[u8], handler: &H) -> (r: (Response, Vec<u8>))
    ensures
        r.0@.wf(),
        match parse_spec(input@) {
            Ok(v) => r.0@ == handler.answer(v),
            Err(_) => r.0@ == bad_request_view(),
        },
        r.1@ == wire(r.0@),
{
    let response = get_response(input, handler);
    let bytes = response.to_bytes();
    (response, bytes)
}

} // verus!
