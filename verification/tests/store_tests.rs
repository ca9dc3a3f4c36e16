use wander::store::{Store, Visit, HISTORY_LIMIT};

fn visit(uuid: &str, path: &str, title: &str) -> Visit {
    Visit {
        uuid: uuid.to_string(),
        path: path.to_string(),
        title: title.to_string(),
        archive_title: "Wikipedia".to_string(),
        at: 1_700_000_000,
    }
}

#[test]
fn the_newest_visit_comes_first() {
    let mut store = Store::default();
    store.record(visit("a", "One", "One"));
    store.record(visit("a", "Two", "Two"));
    assert_eq!(
        store.history().iter().map(|v| &v.path).collect::<Vec<_>>(),
        ["Two", "One"]
    );
}

#[test]
fn revisiting_moves_an_entry_up_instead_of_duplicating_it() {
    let mut store = Store::default();
    store.record(visit("a", "One", "One"));
    store.record(visit("a", "Two", "Two"));
    store.record(visit("a", "One", "One again"));
    assert_eq!(store.history().len(), 2);
    assert_eq!(store.history()[0].path, "One");
    assert_eq!(store.history()[0].title, "One again");
}

#[test]
fn the_same_path_in_another_archive_is_a_different_entry() {
    let mut store = Store::default();
    store.record(visit("a", "index.html", "A"));
    store.record(visit("b", "index.html", "B"));
    assert_eq!(store.history().len(), 2);
}

#[test]
fn history_stays_bounded_and_drops_the_oldest() {
    let mut store = Store::default();
    for i in 0..HISTORY_LIMIT + 20 {
        store.record(visit("a", &format!("Entry{i}"), "T"));
    }
    assert_eq!(store.history().len(), HISTORY_LIMIT);
    assert_eq!(store.history()[0].path, format!("Entry{}", HISTORY_LIMIT + 19));
    assert!(!store.history().iter().any(|v| v.path == "Entry0"));
}

#[test]
fn bookmarking_toggles_both_ways() {
    let mut store = Store::default();
    assert!(!store.is_bookmarked("a", "One"));
    assert!(store.toggle_bookmark(visit("a", "One", "One")));
    assert!(store.is_bookmarked("a", "One"));
    assert_eq!(store.bookmarks().len(), 1);
    assert!(!store.toggle_bookmark(visit("a", "One", "One")));
    assert!(!store.is_bookmarked("a", "One"));
    assert!(store.bookmarks().is_empty());
}

#[test]
fn bookmarks_are_independent_of_history() {
    let mut store = Store::default();
    store.toggle_bookmark(visit("a", "One", "One"));
    store.record(visit("a", "Two", "Two"));
    store.clear_history();
    assert!(store.history().is_empty());
    assert!(store.is_bookmarked("a", "One"), "clearing history kept bookmarks");
}

#[test]
fn toggling_a_new_bookmark_twice_restores_the_list() {
    let mut store = Store::default();
    store.toggle_bookmark(visit("a", "One", "One"));
    store.toggle_bookmark(visit("b", "Two", "Two"));
    let before = store.bookmarks().to_vec();
    store.toggle_bookmark(visit("c", "Three", "Three"));
    store.toggle_bookmark(visit("c", "Three", "Three"));
    assert_eq!(store.bookmarks(), &before[..]);
}

#[test]
fn a_store_is_rebuilt_from_its_lists() {
    let store = Store::from_lists(vec![visit("a", "One", "One")], vec![visit("b", "Two", "Two")]);
    assert_eq!(store.history()[0].path, "One");
    assert!(store.is_bookmarked("b", "Two"));
}
