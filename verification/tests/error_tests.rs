use wander::code;
use wander::error::Error;

#[test]
fn statuses_that_are_synonyms_of_a_cairn_code_map_through() {
    assert_eq!(code::for_status(400), code::BAD_REQUEST);
    assert_eq!(code::for_status(401), code::UNAUTHORIZED);
    assert_eq!(code::for_status(404), code::NOT_FOUND);
    assert_eq!(code::for_status(405), code::METHOD_NOT_ALLOWED);
    assert_eq!(code::for_status(408), code::REQUEST_TIMEOUT);
    assert_eq!(code::for_status(414), code::URI_TOO_LONG);
    assert_eq!(code::for_status(416), code::RANGE_NOT_SATISFIABLE);
    assert_eq!(code::for_status(429), code::TOO_MANY_REQUESTS);
    assert_eq!(code::for_status(431), code::HEADERS_TOO_LARGE);
}

#[test]
fn server_side_statuses_stay_internal() {
    for status in [500, 502, 503, 504] {
        assert_eq!(code::for_status(status), code::INTERNAL, "status {status}");
    }
    assert_ne!(code::for_status(503), code::ARCHIVE_UNAVAILABLE);
}

#[test]
fn unmapped_statuses_fall_back_to_internal() {
    for status in [0, 200, 302, 418, 999] {
        assert_eq!(code::for_status(status), code::INTERNAL, "status {status}");
    }
}

fn api(status: u16, code: &str) -> Error {
    Error::Api {
        status,
        code: code.to_string(),
        message: "boom".to_string(),
    }
}

#[test]
fn predicates_match_only_their_own_code() {
    assert!(api(404, code::NOT_FOUND).is_not_found());
    assert!(!api(404, code::NOT_FOUND).is_unauthorized());
    assert!(api(401, code::UNAUTHORIZED).is_unauthorized());
    assert!(!api(401, code::UNAUTHORIZED).is_not_found());
    assert!(!Error::Transport("refused".into()).is_not_found());
    assert!(!Error::Invalid("bad".into()).is_unauthorized());
}

#[test]
fn only_response_errors_carry_a_status() {
    assert_eq!(api(503, code::INTERNAL).status(), Some(503));
    assert_eq!(Error::Transport("refused".into()).status(), None);
    assert_eq!(Error::Invalid("bad".into()).status(), None);
}

#[test]
fn display_names_the_failing_layer() {
    assert_eq!(
        api(404, code::NOT_FOUND).to_string(),
        "cairn returned 404 (not_found): boom"
    );
    assert_eq!(
        Error::Transport("refused".into()).to_string(),
        "connection to cairn failed: refused"
    );
    assert_eq!(
        Error::Invalid("bad JSON".into()).to_string(),
        "invalid response from cairn: bad JSON"
    );
}

#[test]
fn a_status_of_every_width_is_written_in_decimal() {
    assert_eq!(api(0, "x").to_string(), "cairn returned 0 (x): boom");
    assert_eq!(api(7, "x").to_string(), "cairn returned 7 (x): boom");
    assert_eq!(api(65535, "x").to_string(), "cairn returned 65535 (x): boom");
}
