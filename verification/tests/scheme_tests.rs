use wander::scheme::{entry_uri, entry_uri_with_fragment, parse_target, HeadingStore, OUTLINE_CAPACITY};
use wander::toc::Heading;

const UUID: &str = "b10db2a4-0aac-52db-fd17-c5f79f36ab96";

#[test]
fn root_uri_has_an_empty_path() {
    assert_eq!(parse_target(&format!("cairn://{UUID}/")).as_deref(), Some(""));
    assert_eq!(parse_target(&format!("cairn://{UUID}")).as_deref(), Some(""));
}

#[test]
fn nested_paths_keep_their_separators() {
    assert_eq!(
        parse_target(&format!("cairn://{UUID}/A/Vienna/Ring.html")).as_deref(),
        Some("A/Vienna/Ring.html")
    );
}

#[test]
fn percent_escapes_are_decoded() {
    assert_eq!(
        parse_target(&format!("cairn://{UUID}/A/Wien%20%C3%84.html")).as_deref(),
        Some("A/Wien Ä.html")
    );
}

#[test]
fn query_and_fragment_are_stripped_not_rejected() {
    assert_eq!(
        parse_target(&format!("cairn://{UUID}/A/Ring.html?printable=yes")).as_deref(),
        Some("A/Ring.html")
    );
    assert_eq!(
        parse_target(&format!("cairn://{UUID}/A/Ring.html#History")).as_deref(),
        Some("A/Ring.html")
    );
}

#[test]
fn an_escaped_question_mark_stays_in_the_path() {
    assert_eq!(
        parse_target(&format!("cairn://{UUID}/A/What%3F.html")).as_deref(),
        Some("A/What?.html")
    );
}

#[test]
fn built_uris_parse_back_to_the_same_path() {
    for path in [
        "index.html",
        "A/Vienna/Ring.html",
        "A/Wien Ä.html",
        "A/Arts & Crafts.html",
        "A/What?.html",
        "A/100% Cotton.html",
        "A/a#b.html",
        "A/Ünïcödé/Straße~1.html",
        "A/plus+sign.html",
        "",
    ] {
        let uri = entry_uri(UUID, path);
        assert_eq!(
            parse_target(&uri).as_deref(),
            Some(path),
            "round trip failed for {path:?} (uri was {uri:?})"
        );
    }
}

#[test]
fn separators_survive_encoding_so_relative_links_resolve() {
    let uri = entry_uri(UUID, "A/Vienna/Ring.html");
    assert_eq!(uri, format!("cairn://{UUID}/A/Vienna/Ring.html"));
    assert!(!uri.contains("%2F"));
}

#[test]
fn characters_that_would_change_the_uri_shape_are_escaped() {
    assert!(entry_uri(UUID, "A/What?.html").contains("%3F"));
    assert!(entry_uri(UUID, "A/a#b.html").contains("%23"));
}

#[test]
fn a_fragment_uri_still_addresses_the_same_entry() {
    let uri = entry_uri_with_fragment(UUID, "A/Vienna/Ring.html", "Early life");
    assert_eq!(uri, format!("cairn://{UUID}/A/Vienna/Ring.html#Early%20life"));
    assert_eq!(parse_target(&uri).as_deref(), Some("A/Vienna/Ring.html"));
}

#[test]
fn foreign_schemes_are_refused() {
    assert!(parse_target("https://example.org/A/Ring.html").is_none());
    assert!(parse_target("file:///etc/passwd").is_none());
}

#[test]
fn non_ascii_is_escaped_as_uppercase_utf8_bytes() {
    assert_eq!(entry_uri(UUID, "Ä~ b"), format!("cairn://{UUID}/%C3%84~%20b"));
}

#[test]
fn a_path_that_decodes_to_invalid_utf8_addresses_nothing() {
    assert!(parse_target(&format!("cairn://{UUID}/A/%FF.html")).is_none());
    // A `%` not followed by two hexadecimal digits stays as it is.
    assert_eq!(parse_target(&format!("cairn://{UUID}/100%")).as_deref(), Some("100%"));
    assert_eq!(parse_target(&format!("cairn://{UUID}/%3f")).as_deref(), Some("?"));
}

fn outline(text: &str) -> Vec<Heading> {
    vec![Heading {
        level: 2,
        text: text.to_string(),
        anchor: None,
    }]
}

#[test]
fn an_outline_comes_back_for_its_own_path() {
    let mut store = HeadingStore::default();
    store.insert("A/One.html", outline("One"));
    store.insert("A/Two.html", outline("Two"));
    assert_eq!(store.get("A/One.html").unwrap()[0].text, "One");
    assert_eq!(store.get("A/Two.html").unwrap()[0].text, "Two");
    assert!(store.get("A/Missing.html").is_none());
}

#[test]
fn revisiting_a_path_replaces_rather_than_duplicates() {
    let mut store = HeadingStore::default();
    store.insert("A/One.html", outline("Before"));
    store.insert("A/One.html", outline("After"));
    assert_eq!(store.get("A/One.html").unwrap()[0].text, "After");
    assert_eq!(store.len(), 1);
}

#[test]
fn the_cache_stays_bounded_and_evicts_the_oldest() {
    let mut store = HeadingStore::default();
    for i in 0..OUTLINE_CAPACITY + 5 {
        store.insert(&format!("A/{i}.html"), outline(&i.to_string()));
    }
    assert_eq!(store.len(), OUTLINE_CAPACITY);
    assert!(store.get("A/0.html").is_none());
    assert!(store.get("A/4.html").is_none());
    assert!(store.get("A/5.html").is_some());
    assert!(store.get(&format!("A/{}.html", OUTLINE_CAPACITY + 4)).is_some());
}

#[test]
fn an_empty_outline_is_still_a_recorded_answer() {
    let mut store = HeadingStore::default();
    store.insert("A/Plain.html", Vec::new());
    assert!(store.get("A/Plain.html").is_some_and(|o| o.is_empty()));
    assert!(store.get("A/Other.html").is_none());
}
