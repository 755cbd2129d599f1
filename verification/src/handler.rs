//! The two route handlers, as pure functions from request data to response.
//!
//! The HTTP transport delivers the raw request body and sends the returned
//! status and body back; everything the handlers decide is here.

use vstd::prelude::*;

use crate::subscription::parse_subscription;
use crate::subscription::spec_valid_body;

verus! {

/// Status 200: the request was handled successfully.
pub const STATUS_OK: u16 = 200;

/// Status 400: the request was rejected as malformed or incomplete.
pub const STATUS_BAD_REQUEST: u16 = 400;

/// An HTTP response: a status code and a body.
pub struct Response {
    pub status: u16,
    pub body: Vec<u8>,
}

/// Handles `GET /health_check`: always status 200 with an empty body,
/// whatever the request carried. No input is consulted and there is no side
/// effect.
pub fn health_check_response() -> (r: Response)
    ensures
        r.status == STATUS_OK,
        r.body@.len() == 0,
{
    Response { status: STATUS_OK, body: Vec::new() }
}

/// Handles `POST /subscriptions` on the raw request body: status 200 with an
/// empty body exactly when `body` is a valid subscription form body, status
/// 400 with an empty body otherwise (missing or empty `name` or `email`,
/// empty body, or a body that is not valid url-encoded form data).
pub fn subscribe_response(body: &[u8]) -> (r: Response)
    ensures
        r.status == if spec_valid_body(body@) {
            STATUS_OK
        } else {
            STATUS_BAD_REQUEST
        },
        r.body@.len() == 0,
{
    match parse_subscription(body) {
        Some(_) => Response { status: STATUS_OK, body: Vec::new() },
        None => Response { status: STATUS_BAD_REQUEST, body: Vec::new() },
    }
}

} // verus!
