//! A handler that answers `GET` and refuses every other method.

use vstd::prelude::*;

use crate::http_handler::Handler;
use crate::parser::{get_method, Request, RequestView};
use crate::response::{Response, ResponseView};

verus! {

/// `200` for a `GET` request and `405` otherwise, with no headers and an
/// empty body.
pub open spec fn get_only_answer(request: RequestView) -> ResponseView {
    ResponseView {
        status: if request.method == get_method() {
            200
        } else {
            405
        },
        headers: Seq::empty(),
        body: Seq::empty(),
    }
}

/// Answers `GET` with `200` and every other method with `405`.
pub fn handle_request(request: &Request) -> (r: Response)
    ensures
        r@ == get_only_answer(request@),
{
    let status: u16 = if request.is_get() {
        200
    } else {
        405
    };
    Response::with_status(status).unwrap()
}

/// The handler of `handle_request`.
pub struct GetOnlyHandler;

impl Handler for GetOnlyHandler {
    open spec fn answer(&self, request: RequestView) -> ResponseView {
        get_only_answer(request)
    }

    fn handle_request(&self, request: &Request) -> (r: Response) {
        handle_request(request)
    }
}

} // verus!
