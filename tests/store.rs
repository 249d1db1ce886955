use inno::bookmark::Bookmark;
use inno::entry::Entry;
use inno::store::Store;

fn mock_store() -> Store {
    let mut store = Store::new();

    // Populate the store with some bookmarks & a comment
    store.add(Bookmark {
        name: "Rust".to_string(),
        url: "https://www.rust-lang.org".to_string(),
        tags: vec!["rust".to_string()],
    }); // bookmark_id = 0, entry_id = 0

    store.add_entry(Entry::Comment("A comment".to_string())); // entry_id = 1, not a bookmark

    store.add(Bookmark {
        name: "The Rust Programming Language".to_string(),
        url: "https://doc.rust-lang.org/book/".to_string(),
        tags: vec!["rust".to_string()],
    }); // bookmark_id = 1, entry_id = 2

    store
}

#[test]
fn test_get() {
    let store = mock_store();

    // Ensure the bookmarks were added correctly
    let bookmark = store.get(0).unwrap();
    assert_eq!(bookmark.id, 0);
    assert_eq!(bookmark.name, "Rust");

    let bookmark = store.get(1).unwrap();
    assert_eq!(bookmark.id, 1);
    assert_eq!(bookmark.name, "The Rust Programming Language");
}

#[test]
fn test_get_mut() {
    let mut store = mock_store();

    {
        // Modify the bookmark name
        let mut bookmark = store.get_mut(0).unwrap();
        bookmark.set_name("Rust Programming".to_string());
    }

    // Ensure the change is persisted
    let bookmark = store.get(0).unwrap();
    assert_eq!(bookmark.name, "Rust Programming");
}

#[test]
fn test_remove() {
    let mut store = mock_store();

    // Remove the first bookmark
    let bookmark = store.remove(0).unwrap();
    assert_eq!(bookmark.name, "Rust");

    // After removal, the bookmark ID 1 shifts down to ID 0
    let bookmark = store.get(0).unwrap();
    assert_eq!(bookmark.id, 0);
    assert_eq!(bookmark.name, "The Rust Programming Language");

    // The former bookmark ID 1 no longer exists
    assert!(store.get(1).is_none());
}

#[test]
fn test_tombstone_preservation() {
    let mut store = mock_store();

    // Remove the first bookmark
    store.remove(0);

    // Ensure comments and other entries remain untouched
    assert!(store.entries()[1].is_some()); // Comment remains in place
    assert!(store.entries()[0].is_none()); // Tombstoned entry
}

fn ids(refs: &[inno::refs::BookmarkRef<'_>]) -> Vec<usize> {
    refs.iter().map(|r| r.id).collect()
}

fn strings(v: &[&str]) -> Vec<String> {
    v.iter().map(|s| s.to_string()).collect()
}

#[test]
fn ids_follow_add_order() {
    let mut store = Store::new();
    for i in 0..5 {
        let id = store.create(format!("n{}", i), "u".to_string(), Vec::new());
        assert_eq!(id, i);
    }
    store.add_entry(Entry::Empty);
    assert_eq!(store.create("last".to_string(), "u".to_string(), Vec::new()), 5);
    assert_eq!(store.bookmark_count(), 6);
    assert_eq!(store.capacity(), 7);
}

#[test]
fn add_entry_returns_position_for_other_entries() {
    let mut store = Store::new();
    store.create("a".to_string(), "u".to_string(), Vec::new());
    assert_eq!(store.add_entry(Entry::Comment("c".to_string())), 1);
    assert_eq!(store.add_entry(Entry::Empty), 2);
    assert_eq!(store.add_entry(Entry::Bookmark(Bookmark::new("b".to_string(), "v".to_string(), Vec::new()))), 1);
}

#[test]
fn remove_last_then_get_is_empty() {
    let mut store = mock_store();
    assert!(store.remove(1).is_some());
    assert!(store.get(1).is_none());
    assert_eq!(store.bookmark_count(), 1);
}

#[test]
fn remove_shifts_higher_ids_down_by_one() {
    let mut store = Store::new();
    for name in ["a", "b", "c", "d"] {
        store.create(name.to_string(), "u".to_string(), Vec::new());
    }
    store.remove(1);
    assert_eq!(store.get(0).unwrap().name, "a");
    assert_eq!(store.get(1).unwrap().name, "c");
    assert_eq!(store.get(2).unwrap().name, "d");
    assert!(store.get(3).is_none());
}

#[test]
fn remove_out_of_range_changes_nothing() {
    let mut store = mock_store();
    assert!(store.remove(2).is_none());
    assert_eq!(store.bookmark_count(), 2);
    assert_eq!(store.entry_count(), 3);
    assert_eq!(store.capacity(), 3);
}

#[test]
fn counts_skip_tombstones() {
    let mut store = mock_store();
    store.remove(0);
    assert_eq!(store.entry_count(), 2);
    assert_eq!(store.capacity(), 3);
    assert_eq!(store.bookmark_count(), 1);
}

#[test]
fn find_by_tag_after_add_edit_remove() {
    let mut store = Store::new();
    store.create("a".to_string(), "u".to_string(), strings(&["x", "y"]));
    store.create("b".to_string(), "u".to_string(), strings(&["y"]));
    store.create("c".to_string(), "u".to_string(), strings(&["x", "x"]));
    assert_eq!(ids(&store.find_by_tag("x")), vec![0, 2]);
    assert_eq!(ids(&store.find_by_tag("y")), vec![0, 1]);
    assert!(store.find_by_tag("z").is_empty());

    {
        let mut b = store.get_mut(1).unwrap();
        b.set_tags(strings(&["x", "z"]));
    }
    assert_eq!(ids(&store.find_by_tag("x")), vec![0, 1, 2]);
    assert_eq!(ids(&store.find_by_tag("y")), vec![0]);
    assert_eq!(ids(&store.find_by_tag("z")), vec![1]);

    store.remove(0);
    assert_eq!(ids(&store.find_by_tag("x")), vec![0, 1]);
    assert!(store.find_by_tag("y").is_empty());
    assert_eq!(ids(&store.find_by_tag("z")), vec![0]);
    let found = store.find_by_tag("x");
    assert_eq!(found[0].name, "b");
    assert_eq!(found[1].name, "c");
}

#[test]
fn find_is_case_insensitive_over_whole_line() {
    let mut store = Store::new();
    store.create("Rust".to_string(), "https://rust-lang.org".to_string(), strings(&["lang"]));
    store.create("Go".to_string(), "https://go.dev".to_string(), strings(&["RUSTY"]));
    store.create("Python".to_string(), "https://RUST.example".to_string(), Vec::new());
    store.create("Zig".to_string(), "https://ziglang.org".to_string(), Vec::new());
    assert_eq!(ids(&store.find("rust")), vec![0, 1, 2]);
    assert_eq!(ids(&store.find("LANG")), vec![0, 3]);
    assert_eq!(ids(&store.find(": https://go")), vec![1]);
    assert!(store.find("perl").is_empty());
}

#[test]
fn iter_lists_bookmarks_in_id_order() {
    let mut store = mock_store();
    store.create("x".to_string(), "y".to_string(), Vec::new());
    let all = store.iter();
    assert_eq!(ids(&all), vec![0, 1, 2]);
    assert_eq!(all[2].name, "x");
}

#[test]
fn bookmark_ref_text_form() {
    let mut store = Store::new();
    for i in 0..12 {
        store.create(format!("n{}", i), "u".to_string(), Vec::new());
    }
    store.create("Rust".to_string(), "https://rust-lang.org".to_string(), strings(&["lang", "systems"]));
    assert_eq!(store.get(12).unwrap().to_string(), "12. Rust: https://rust-lang.org [lang, systems]");
    assert_eq!(store.get(0).unwrap().to_string(), "0. n0: u []");
}

#[test]
fn edit_name_and_url_through_mutable_view() {
    let mut store = mock_store();
    {
        let mut b = store.get_mut(1).unwrap();
        b.set_url("https://example.org".to_string());
        b.set_name("Book".to_string());
        assert_eq!(b.to_string(), "1. Book: https://example.org [rust]");
    }
    assert_eq!(store.get(1).unwrap().url(), "https://example.org");
    assert_eq!(ids(&store.find_by_tag("rust")), vec![0, 1]);
    assert!(store.get_mut(2).is_none());
}

#[test]
fn save_skips_tombstones_and_load_round_trips() {
    let lines = strings(&[
        "# my links",
        "Rust: https://rust-lang.org [lang, systems]",
        "",
        "Docs:   https://docs.rs  ",
        "Book: https://doc.rust-lang.org/book/ [ rust , ,book ]",
    ]);
    let mut store = Store::new();
    assert!(store.load(&lines).is_ok());
    assert_eq!(store.bookmark_count(), 3);
    store.remove(1);
    let saved = store.save();
    assert_eq!(
        saved,
        strings(&[
            "# my links",
            "Rust: https://rust-lang.org [lang, systems]",
            "",
            "Book: https://doc.rust-lang.org/book/ [rust, book]",
        ])
    );
    let mut again = Store::new();
    assert!(again.load(&saved).is_ok());
    assert_eq!(again.bookmark_count(), 2);
    assert_eq!(again.capacity(), 4);
    let first = again.get(0).unwrap();
    assert_eq!(first.name(), "Rust");
    assert_eq!(first.tags(), &strings(&["lang", "systems"])[..]);
    let second = again.get(1).unwrap();
    assert_eq!(second.url(), "https://doc.rust-lang.org/book/");
    assert_eq!(second.tags(), &strings(&["rust", "book"])[..]);
}

#[test]
fn load_stops_at_first_bad_line_and_keeps_the_rest() {
    let lines = strings(&["a: b", "# note", "broken line", "c: d"]);
    let mut store = Store::new();
    let err = store.load(&lines).unwrap_err();
    assert_eq!(err.line, 3);
    assert!(matches!(err.error, inno::entry::EntryParseError::MissingSeparator(ref l) if l == "broken line"));
    assert_eq!(store.capacity(), 2);
    assert_eq!(store.bookmark_count(), 1);
}
