use wander::client::{api_error, entry_from_response, entry_meta_from_response, is_success, CairnClient};
use wander::error::Error;
use wander::model::Limits;

const UUID: &str = "b10db2a4-0aac-52db-fd17-c5f79f36ab96";

fn client(addr: &str) -> CairnClient {
    let base = format!("http://{addr}");
    CairnClient::with_base_url(&base, None)
}

#[test]
fn ipv6_hosts_are_bracketed_in_the_base_url() {
    let client = CairnClient::new("::1", 8080, None).expect("ipv6 host");
    assert_eq!(client.base_url(), "http://[::1]:8080");

    let already = CairnClient::new("[2001:db8::7]", 8080, None).expect("bracketed ipv6");
    assert_eq!(already.base_url(), "http://[2001:db8::7]:8080");
}

#[test]
fn ordinary_hosts_pass_through_untouched() {
    let client = CairnClient::new("  cairn.example.org  ", 9000, None).expect("host");
    assert_eq!(client.base_url(), "http://cairn.example.org:9000");
}

#[test]
fn hosts_cannot_smuggle_url_syntax() {
    for bad in [
        "user@evil.example",
        "127.0.0.1/../..",
        "127.0.0.1:9999",
        "host?q=1",
        "host#frag",
        "has space",
        "",
        "   ",
    ] {
        assert!(
            matches!(CairnClient::new(bad, 8080, None), Err(Error::Invalid(_))),
            "expected {bad:?} to be rejected"
        );
    }
}

#[test]
fn base_url_loses_its_trailing_slashes() {
    let client = CairnClient::with_base_url("http://example.org:8080///", None);
    assert_eq!(client.base_url(), "http://example.org:8080");
}

#[test]
fn a_whitespace_only_token_is_no_token() {
    let c = CairnClient::with_base_url("http://127.0.0.1:8080", Some("   "));
    assert!(c.authorization().is_none(), "a blank token must not produce an Authorization header");
}

#[test]
fn bearer_token_sent_only_when_configured() {
    assert!(client("127.0.0.1:1").authorization().is_none());
    let authed = CairnClient::with_base_url("http://127.0.0.1:1", Some("sekrit"));
    assert_eq!(authed.authorization().as_deref(), Some("Bearer sekrit"));
}

#[test]
fn requests_hit_the_documented_paths() {
    let c = client("127.0.0.1:8080");
    assert_eq!(c.status_url(), "http://127.0.0.1:8080/v1/status");
    assert_eq!(c.archives_url(), "http://127.0.0.1:8080/v1/archives");
    assert_eq!(c.archive_url(UUID).unwrap(), format!("http://127.0.0.1:8080/v1/archives/{UUID}"));
    assert_eq!(c.random_url(UUID).unwrap(), format!("http://127.0.0.1:8080/v1/archives/{UUID}/random"));
    assert_eq!(
        c.entry_url(UUID, "Some_Entry").unwrap(),
        "http://127.0.0.1:8080/v1/archives/b10db2a4-0aac-52db-fd17-c5f79f36ab96/entry/Some_Entry"
    );
}

#[test]
fn entry_paths_are_percent_encoded_once() {
    let url = client("h:1").entry_url(UUID, "Wien/Ä Straße~1.html").unwrap();
    assert_eq!(
        url,
        "http://h:1/v1/archives/b10db2a4-0aac-52db-fd17-c5f79f36ab96/entry/Wien%2F%C3%84%20Stra%C3%9Fe~1.html"
    );
}

#[test]
fn suggest_encodes_query_and_parses() {
    let url = client("h:1").suggest_url(UUID, "Klimawandel in", 7).unwrap().unwrap();
    assert!(url.starts_with(&format!("http://h:1/v1/archives/{UUID}/suggest?")));
    assert!(url.contains("q=Klimawandel%20in"));
    assert!(url.contains("limit=7"));
}

#[test]
fn empty_suggest_query_is_local_noop() {
    assert!(client("h:1").suggest_url(UUID, "", 5).expect("noop").is_none());
}

#[test]
fn suggest_limit_is_clamped_into_range() {
    for (asked, expected) in [(0u32, 1u32), (1, 1), (12, 12), (32, 32), (999, 32)] {
        let url = client("h:1").suggest_url(UUID, "wien", asked).unwrap().unwrap();
        assert!(url.ends_with(&format!("&limit={expected}")), "limit {asked} produced {url}");
    }
}

fn query_of(url: &str) -> String {
    url.split("q=").nth(1).and_then(|rest| rest.split('&').next()).expect("query").to_string()
}

#[test]
fn an_over_long_query_is_trimmed_rather_than_rejected() {
    let long = "a".repeat(500);
    let url = client("h:1").suggest_url(UUID, &long, 5).unwrap().unwrap();
    assert_eq!(query_of(&url).len(), 128, "query was not trimmed to the documented bound");
}

#[test]
fn trimming_a_query_never_splits_a_character() {
    let long = "日".repeat(43);
    assert_eq!(long.len(), 129);
    let url = client("h:1").suggest_url(UUID, &long, 5).unwrap().unwrap();
    // 42 whole characters, each three percent-encoded bytes.
    assert_eq!(query_of(&url), "%E6%97%A5".repeat(42));
}

#[test]
fn non_canonical_uuid_rejected_before_any_request() {
    let c = client("h:1");
    let upper = UUID.to_uppercase();
    assert!(matches!(c.archive_url(&upper), Err(Error::Invalid(_))));
    assert!(matches!(c.archive_url("not-a-uuid"), Err(Error::Invalid(_))));
}

#[test]
fn uuids_are_rejected_before_a_request_in_every_malformed_shape() {
    let c = client("h:1");
    for bad in [
        "",
        "b10db2a4",
        "b10db2a4-0aac-52db-fd17-c5f79f36ab9",
        "b10db2a4-0aac-52db-fd17-c5f79f36ab966",
        "b10db2a40aac52dbfd17c5f79f36ab96",
        "b10db2a4-0aac-52db-fd17-c5f79f36ab9g",
        "b10db2a4-0aac-52db-fd17-C5F79F36AB96",
        "b10db2a40-aac-52db-fd17-c5f79f36ab96",
    ] {
        assert!(matches!(c.archive_url(bad), Err(Error::Invalid(_))), "expected {bad:?} to be rejected");
        assert!(matches!(c.entry_url(bad, "X"), Err(Error::Invalid(_))));
        assert!(matches!(c.random_url(bad), Err(Error::Invalid(_))));
        assert!(matches!(c.suggest_url(bad, "q", 5), Err(Error::Invalid(_))));
    }
}

#[test]
fn error_shape_maps_to_api_error() {
    let err = api_error(404, Some(Some(("not_found".to_string(), "no such resource".to_string()))));
    match err {
        Error::Api { status, code, message } => {
            assert_eq!(status, 404);
            assert_eq!(code, "not_found");
            assert_eq!(message, "no such resource");
            assert!(Error::Api { status, code, message }.is_not_found());
        }
        other => panic!("expected Api error, got {other:?}"),
    }
}

#[test]
fn malformed_error_body_still_yields_api_error() {
    match api_error(503, None) {
        Error::Api { status, code, .. } => {
            assert_eq!(status, 503);
            assert_eq!(code, "internal");
        }
        other => panic!("expected Api error, got {other:?}"),
    }
}

#[test]
fn status_backed_code_when_body_is_not_a_cairn_envelope() {
    let err = api_error(404, None);
    assert!(err.is_not_found(), "got {err:?}");
    assert_eq!(err.status(), Some(404));
    // An object without an `error` member carries no code of its own.
    let err = api_error(401, Some(None));
    assert!(err.is_unauthorized(), "got {err:?}");
}

#[test]
fn only_2xx_statuses_are_success() {
    assert!(is_success(200));
    assert!(is_success(299));
    assert!(!is_success(199));
    assert!(!is_success(300));
    assert!(!is_success(404));
}

#[test]
fn entry_bytes_and_headers() {
    let entry = entry_from_response(
        UUID,
        "Some_Entry",
        Some("text/html".to_string()),
        Some("Some_Entry".to_string()),
        b"<h1>hello</h1>".to_vec(),
    );
    assert_eq!(entry.bytes, b"<h1>hello</h1>");
    assert_eq!(entry.content_type, "text/html");
    assert_eq!(entry.path, "Some_Entry");
}

#[test]
fn entry_falls_back_when_the_daemon_omits_headers() {
    let entry = entry_from_response(UUID, "A/Asked.html", None, None, b"raw".to_vec());
    assert_eq!(entry.content_type, "application/octet-stream");
    assert_eq!(entry.path, "A/Asked.html");
    assert_eq!(entry.archive, UUID);
}

#[test]
fn head_entry_meta_without_body() {
    let meta = entry_meta_from_response(
        UUID,
        "img.png",
        Some("image/png".to_string()),
        Some("123456".to_string()),
        Some("Some/Entry".to_string()),
    );
    assert_eq!(meta.length, Some(123456));
    assert_eq!(meta.content_type, "image/png");
    assert_eq!(meta.path, "Some/Entry");
}

#[test]
fn a_length_that_is_not_a_number_is_no_length() {
    let meta = entry_meta_from_response(UUID, "A/X.html", None, Some("banana".to_string()), None);
    assert_eq!(meta.length, None);
    assert_eq!(meta.path, "A/X.html");
}

#[test]
fn a_daemon_that_reports_no_limits_still_yields_the_documented_ones() {
    let limits = Limits::default();
    assert_eq!(limits.suggest_max_query, 128);
    assert_eq!(limits.suggest_max_results, 32);
}

#[test]
fn status_parses_and_hits_the_right_path() {
    assert_eq!(
        client("127.0.0.1:8080").status_url(),
        "http://127.0.0.1:8080/v1/status"
    );
}

#[test]
fn archives_list_unwrapped() {
    assert_eq!(
        client("127.0.0.1:8080").archives_url(),
        "http://127.0.0.1:8080/v1/archives"
    );
}

#[test]
fn archive_detail_includes_metadata() {
    assert_eq!(
        client("127.0.0.1:8080").archive_url(UUID).expect("url"),
        format!("http://127.0.0.1:8080/v1/archives/{UUID}")
    );
}

#[test]
fn random_returns_path() {
    assert_eq!(
        client("127.0.0.1:8080").random_url(UUID).expect("url"),
        format!("http://127.0.0.1:8080/v1/archives/{UUID}/random")
    );
}

#[test]
fn unauthorized_is_recognizable() {
    let err = api_error(
        401,
        Some(Some(("unauthorized".to_string(), "no such resource".to_string()))),
    );
    assert!(err.is_unauthorized(), "got {}", err.to_string());
    assert!(!err.is_not_found());
}

#[test]
fn entry_meta_surfaces_a_missing_entry() {
    let err = api_error(
        404,
        Some(Some(("not_found".to_string(), "no such resource".to_string()))),
    );
    assert!(err.is_not_found(), "got {}", err.to_string());
}

#[test]
fn an_envelope_keeps_the_code_it_was_sent() {
    match api_error(401, Some(Some((String::new(), "nope".to_string())))) {
        Error::Api { status, code, message } => {
            assert_eq!(status, 401);
            assert_eq!(code, "");
            assert_eq!(message, "nope");
        }
        other => panic!("expected Api error, got {other:?}"),
    }
}

#[test]
fn a_body_without_an_error_gets_the_status_code() {
    match api_error(401, Some(None)) {
        Error::Api { status, code, message } => {
            assert_eq!(status, 401);
            assert_eq!(code, "unauthorized");
            assert_eq!(message, "");
        }
        other => panic!("expected Api error, got {other:?}"),
    }
    match api_error(502, None) {
        Error::Api { code, message, .. } => {
            assert_eq!(code, "internal");
            assert_eq!(message, "malformed error response");
        }
        other => panic!("expected Api error, got {other:?}"),
    }
}
