use wander::format::{archive_subtitle, match_count_label, MAX_MATCHES};
use wander::model::{find_archive, ArchiveSummary};
use wander::scheme::{entry_path_for, entry_uri, is_internal, start_uri};
use wander::store::Visit;
use wander::toc::{outline_indent, outline_top, Heading};

const UUID: &str = "b10db2a4-0aac-52db-fd17-c5f79f36ab96";

fn h(level: u8, text: &str) -> Heading {
    Heading {
        level,
        text: text.to_string(),
        anchor: None,
    }
}

fn summary(uuid: &str, title: &str) -> ArchiveSummary {
    ArchiveSummary {
        uuid: uuid.to_string(),
        title: title.to_string(),
        entry_count: 0,
        cluster_count: None,
        main_page: None,
        format_version: None,
        content_namespace: None,
        suggest: false,
    }
}

#[test]
fn the_main_page_opens_under_its_own_uri() {
    assert_eq!(
        start_uri(UUID, Some("A/Main Page.html")),
        format!("cairn://{UUID}/A/Main%20Page.html")
    );
    assert_eq!(start_uri(UUID, Some("A/Main Page.html")), entry_uri(UUID, "A/Main Page.html"));
}

#[test]
fn without_a_main_page_the_archive_root_opens() {
    assert_eq!(start_uri(UUID, None), format!("cairn://{UUID}/"));
    assert_eq!(start_uri(UUID, Some("")), format!("cairn://{UUID}/"));
}

#[test]
fn only_cairn_uris_stay_inside_the_reader() {
    assert!(is_internal(&format!("cairn://{UUID}/A/Ring.html")));
    assert!(is_internal("cairn://"));
    assert!(!is_internal("https://example.org/"));
    assert!(!is_internal("cairn:/x"));
    assert!(!is_internal("CAIRN://x"));
    assert!(!is_internal(""));
}

#[test]
fn a_named_target_is_fetched_as_it_is() {
    assert_eq!(
        entry_path_for("A/Ring.html", Some("A/Main.html".to_string())).as_deref(),
        Some("A/Ring.html")
    );
    assert_eq!(entry_path_for("A/Ring.html", None).as_deref(), Some("A/Ring.html"));
}

#[test]
fn the_root_is_served_from_the_main_page_or_asks_the_archive() {
    assert_eq!(
        entry_path_for("", Some("A/Main.html".to_string())).as_deref(),
        Some("A/Main.html")
    );
    assert_eq!(entry_path_for("", None), None);
}

#[test]
fn a_lone_heading_is_not_an_outline() {
    assert_eq!(outline_top(&[]), None);
    assert_eq!(outline_top(&[h(1, "Title")]), None);
}

#[test]
fn the_outline_is_indented_from_its_shallowest_heading() {
    let outline = [h(3, "a"), h(2, "b"), h(4, "c"), h(2, "d")];
    assert_eq!(outline_top(&outline), Some(2));
    assert_eq!(outline_indent(2, 2), 12);
    assert_eq!(outline_indent(3, 2), 24);
    assert_eq!(outline_indent(4, 2), 36);
    assert_eq!(outline_indent(6, 1), 72);
    // A level above the top is not indented to the left of it.
    assert_eq!(outline_indent(1, 2), 12);
}

#[test]
fn the_match_count_reads_naturally() {
    assert_eq!(match_count_label(0), "");
    assert_eq!(match_count_label(1), "1 match");
    assert_eq!(match_count_label(2), "2 matches");
    assert_eq!(match_count_label(999), "999 matches");
    assert_eq!(match_count_label(MAX_MATCHES), "1000+ matches");
    assert_eq!(match_count_label(u32::MAX), "1000+ matches");
}

#[test]
fn an_archive_row_says_how_many_entries_and_whether_it_is_searchable() {
    assert_eq!(archive_subtitle(20_317, false), "20\u{202f}317 entries");
    assert_eq!(archive_subtitle(7, true), "7 entries · searchable");
}

#[test]
fn a_saved_row_names_its_archive_and_path() {
    let visit = Visit {
        uuid: "a".to_string(),
        path: "A/Wien.html".to_string(),
        title: "Wien".to_string(),
        archive_title: "Wikipedia".to_string(),
        at: 0,
    };
    assert_eq!(visit.subtitle(), "Wikipedia · A/Wien.html");
}

#[test]
fn a_saved_entry_finds_its_archive_by_uuid() {
    let archives = [summary("a", "First"), summary(UUID, "Second"), summary(UUID, "Third")];
    assert_eq!(find_archive(&archives, UUID), Some(1));
    assert_eq!(find_archive(&archives, "a"), Some(0));
    assert_eq!(find_archive(&archives, "gone"), None);
    assert_eq!(find_archive(&[], UUID), None);
}
