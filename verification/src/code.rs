//! The stable error codes of the cairn API.

use vstd::prelude::*;

verus! {

pub const BAD_REQUEST: &'static str = "bad_request";
pub const BAD_UUID: &'static str = "bad_uuid";
pub const BAD_PATH: &'static str = "bad_path";
pub const BAD_QUERY: &'static str = "bad_query";
pub const BODY_NOT_ALLOWED: &'static str = "body_not_allowed";
pub const UNAUTHORIZED: &'static str = "unauthorized";
pub const NOT_FOUND: &'static str = "not_found";
pub const METHOD_NOT_ALLOWED: &'static str = "method_not_allowed";
pub const REQUEST_TIMEOUT: &'static str = "request_timeout";
pub const URI_TOO_LONG: &'static str = "uri_too_long";
pub const RANGE_NOT_SATISFIABLE: &'static str = "range_not_satisfiable";
pub const TOO_MANY_REQUESTS: &'static str = "too_many_requests";
pub const HEADERS_TOO_LARGE: &'static str = "headers_too_large";
pub const INTERNAL: &'static str = "internal";
pub const ARCHIVE_UNAVAILABLE: &'static str = "archive_unavailable";
pub const VERSION_NOT_SUPPORTED: &'static str = "version_not_supported";

/// The code a well-behaved cairn would have sent for `status`: the statuses
/// whose cairn code is a plain synonym map to it, everything else, 5xx
/// included, to `INTERNAL`.
pub open spec fn spec_for_status(status: u16) -> Seq<char> {
    if status == 400 {
        BAD_REQUEST@
    } else if status == 401 {
        UNAUTHORIZED@
    } else if status == 404 {
        NOT_FOUND@
    } else if status == 405 {
        METHOD_NOT_ALLOWED@
    } else if status == 408 {
        REQUEST_TIMEOUT@
    } else if status == 414 {
        URI_TOO_LONG@
    } else if status == 416 {
        RANGE_NOT_SATISFIABLE@
    } else if status == 429 {
        TOO_MANY_REQUESTS@
    } else if status == 431 {
        HEADERS_TOO_LARGE@
    } else {
        INTERNAL@
    }
}

/// The code a well-behaved cairn would have sent for `status`, for use when
/// the response body is missing or is not a cairn error envelope — a reverse
/// proxy answering instead of cairn, say.
///
/// A 5xx from an intermediary says nothing about which cairn-specific failure
/// occurred, so it maps to [`INTERNAL`], never to [`ARCHIVE_UNAVAILABLE`].
pub fn for_status(status: u16) -> (r: &'static str)
    ensures r@ == spec_for_status(status),
{
    match status {
        400 => BAD_REQUEST,
        401 => UNAUTHORIZED,
        404 => NOT_FOUND,
        405 => METHOD_NOT_ALLOWED,
        408 => REQUEST_TIMEOUT,
        414 => URI_TOO_LONG,
        416 => RANGE_NOT_SATISFIABLE,
        429 => TOO_MANY_REQUESTS,
        431 => HEADERS_TOO_LARGE,
        _ => INTERNAL,
    }
}

/// A server-side status maps to the internal code, never to a more specific
/// cairn failure the response did not carry.
pub proof fn law_server_statuses_stay_internal(status: u16)
    requires 500 <= status <= 599,
    ensures
        spec_for_status(status) == INTERNAL@,
        spec_for_status(status) != ARCHIVE_UNAVAILABLE@,
{
    reveal_strlit("internal");
    reveal_strlit("archive_unavailable");
    assert(INTERNAL@.len() != ARCHIVE_UNAVAILABLE@.len());
}

} // verus!
