use inno::command::{parse_command_line, parse_id, split_command};
use inno::entry::Entry;
use inno::store::Store;

#[test]
fn command_line_is_split_into_words() {
    let (name, args) = parse_command_line("add \"My Site\" https://example.org rust 'web dev'").unwrap();
    assert_eq!(name, "add");
    assert_eq!(args, vec!["My Site".to_string(), "https://example.org".to_string(), "rust".to_string(), "web dev".to_string()]);
    let (name, args) = parse_command_line("  list  ").unwrap();
    assert_eq!(name, "list");
    assert!(args.is_empty());
    assert!(parse_command_line("").is_none());
    assert!(parse_command_line("   ").is_none());
}

#[test]
fn split_command_takes_first_word() {
    assert!(split_command(Vec::new()).is_none());
    let (name, args) = split_command(vec!["a".to_string(), "b".to_string()]).unwrap();
    assert_eq!(name, "a");
    assert_eq!(args, vec!["b".to_string()]);
}

#[test]
fn ids_are_read_as_unsigned_decimals() {
    assert_eq!(parse_id("0"), Some(0));
    assert_eq!(parse_id("42"), Some(42));
    assert_eq!(parse_id("+7"), Some(7));
    assert_eq!(parse_id("007"), Some(7));
    assert_eq!(parse_id(""), None);
    assert_eq!(parse_id("+"), None);
    assert_eq!(parse_id("-1"), None);
    assert_eq!(parse_id(" 1"), None);
    assert_eq!(parse_id("1a"), None);
    assert_eq!(parse_id(&usize::MAX.to_string()), Some(usize::MAX));
    assert_eq!(parse_id("99999999999999999999999999"), None);
    assert_eq!(parse_id("99999999999999999999999999x"), None);
    for s in ["12", "+3", "x", "", "18446744073709551616"] {
        assert_eq!(parse_id(s), s.parse::<usize>().ok());
    }
}

#[test]
fn tags_are_listed_most_used_first() {
    let mut store = Store::new();
    store.create("a".to_string(), "u".to_string(), vec!["common".to_string(), "rare".to_string()]);
    store.create("b".to_string(), "u".to_string(), vec!["common".to_string(), "mid".to_string()]);
    store.create("c".to_string(), "u".to_string(), vec!["mid".to_string(), "common".to_string(), "common".to_string()]);
    assert_eq!(store.tags_by_use(), vec!["common".to_string(), "mid".to_string(), "rare".to_string()]);
    let mut counts = store.tag_counts();
    counts.sort();
    assert_eq!(counts, vec![("common".to_string(), 3), ("mid".to_string(), 2), ("rare".to_string(), 1)]);
    store.remove(1);
    assert_eq!(store.tags_by_use(), vec!["common".to_string(), "mid".to_string(), "rare".to_string()]);
    store.remove(1);
    let mut tied = store.tags_by_use();
    tied.sort();
    assert_eq!(tied, vec!["common".to_string(), "rare".to_string()]);
    assert!(Store::default().tags_by_use().is_empty());
}

#[test]
fn entries_parse_through_from_str() {
    let e: Entry = "a: b [c]".parse().ok().unwrap();
    assert_eq!(e.bookmark().unwrap().tags, vec!["c".to_string()]);
    assert!("nope".parse::<Entry>().is_err());
}
