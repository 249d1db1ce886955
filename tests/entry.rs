use inno::bookmark::Bookmark;
use inno::entry::{Entry, EntryParseError};
use inno::text::text_contains;

fn bookmark(line: &str) -> Bookmark {
    match Entry::parse(line) {
        Ok(Entry::Bookmark(b)) => b,
        _ => panic!("not a bookmark: {}", line),
    }
}

#[test]
fn parses_bookmark_with_tags() {
    let b = bookmark("Rust: https://rust-lang.org [lang, systems]");
    assert_eq!(b.name, "Rust");
    assert_eq!(b.url, "https://rust-lang.org");
    assert_eq!(b.tags, vec!["lang".to_string(), "systems".to_string()]);
}

#[test]
fn parses_comment_and_blank() {
    assert!(matches!(Entry::parse("# a note"), Ok(Entry::Comment(ref c)) if c == "a note"));
    assert!(matches!(Entry::parse(""), Ok(Entry::Empty)));
    assert!(matches!(Entry::parse("   \t "), Ok(Entry::Empty)));
    assert!(matches!(Entry::parse("  #x  "), Ok(Entry::Comment(ref c)) if c == "x"));
}

#[test]
fn parse_errors() {
    assert!(matches!(Entry::parse("NoColonHere"), Err(EntryParseError::MissingSeparator(ref l)) if l == "NoColonHere"));
    assert!(matches!(Entry::parse("Name: [tag]"), Err(EntryParseError::EmptyUrl)));
    assert!(matches!(Entry::parse("Name: url [tag"), Err(EntryParseError::MissingClosingBracket)));
    assert!(matches!(Entry::parse("  : url"), Err(EntryParseError::EmptyName)));
    assert!(matches!(Entry::parse("Name:   "), Err(EntryParseError::EmptyUrl)));
}

#[test]
fn parse_edge_cases() {
    let b = bookmark("Name: url");
    assert_eq!(b.url, "url");
    assert!(b.tags.is_empty());
    let b = bookmark("a: http://x:8080/p [t]");
    assert_eq!(b.name, "a");
    assert_eq!(b.url, "http://x:8080/p");
    let b = bookmark("a: u [x], [y] trailing");
    assert_eq!(b.tags, vec!["x]".to_string(), "[y".to_string()]);
    let b = bookmark("a: u ] v [ , ]");
    assert_eq!(b.url, "u ] v");
    assert!(b.tags.is_empty());
    assert!(matches!(Entry::parse("a: u ] v [ w"), Err(EntryParseError::MissingClosingBracket)));
    let b = bookmark("x : y [a,a]");
    assert_eq!(b.tags, vec!["a".to_string(), "a".to_string()]);
}

#[test]
fn format_then_parse_gives_same_entry() {
    for line in ["Rust:https://rust-lang.org[ lang ,systems ]", "  #   spaced note  ", "#", "n: u"] {
        let e = Entry::parse(line).ok().unwrap();
        let text = e.to_string();
        let again = Entry::parse(&text).ok().unwrap();
        assert_eq!(again.to_string(), text);
    }
    assert_eq!(Entry::parse("#").ok().unwrap().to_string(), "# ");
    assert_eq!(Entry::parse("# a note").ok().unwrap().to_string(), "# a note");
    assert_eq!(Entry::Empty.to_string(), "");
}

#[test]
fn bookmark_text_and_matching() {
    let b = Bookmark::new("Rust".to_string(), "https://RUST-lang.org".to_string(), vec!["Lang".to_string()]);
    assert_eq!(b.to_string(), "Rust: https://RUST-lang.org [Lang]");
    assert!(b.matches("rust-LANG"));
    assert!(b.matches("[lang]"));
    assert!(b.matches(""));
    assert!(!b.matches("python"));
    let plain = Bookmark::new("a".to_string(), "b".to_string(), Vec::new());
    assert_eq!(plain.to_string(), "a: b []");
}

#[test]
fn bookmark_setters() {
    let mut b = Bookmark::new("a".to_string(), "b".to_string(), Vec::new());
    b.set_name("n".to_string());
    b.set_url("u".to_string());
    b.set_tags(vec!["t".to_string()]);
    assert_eq!(b.name(), "n");
    assert_eq!(b.url(), "u");
    assert_eq!(b.tags(), &["t".to_string()][..]);
}

#[test]
fn entry_accessors() {
    let e = Entry::Bookmark(Bookmark::new("a".to_string(), "b".to_string(), Vec::new()));
    assert_eq!(e.bookmark().unwrap().name, "a");
    let mut e = e;
    e.bookmark_mut().unwrap().set_name("z".to_string());
    assert_eq!(e.into_bookmark().unwrap().name, "z");
    let c = Entry::Comment("x".to_string());
    assert!(c.bookmark().is_none());
    assert!(c.into_bookmark().is_none());
}

#[test]
fn substring_search() {
    assert!(text_contains("hello world", "o w"));
    assert!(text_contains("abc", ""));
    assert!(text_contains("abc", "abc"));
    assert!(!text_contains("abc", "abcd"));
    assert!(!text_contains("abc", "ac"));
}
