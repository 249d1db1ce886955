//! Entries of the store and their line-based text format.

use vstd::prelude::*;

use crate::bookmark::{bookmark_line, join_tags, texts, Bookmark, BookmarkView};
use crate::text::{
    chars_of, find_first, find_last, first_index, is_space, lacks, last_index, lemma_first_index,
    lemma_first_index_at, lemma_last_index, lemma_last_index_at, lemma_trim,
    lemma_trim_after_space, lemma_trim_before_space, lemma_trim_trimmed, push_char, string_of,
    trim, trim_end, trim_start, trim_range, trimmed,
};

verus! {

/// An entry in the store.
pub enum Entry {
    Bookmark(Bookmark),
    Comment(String),
    Empty,
}

/// What an entry holds, as character sequences.
pub enum EntryView {
    Bookmark(BookmarkView),
    Comment(Seq<char>),
    Empty,
}

impl View for Entry {
    type V = EntryView;

    open spec fn view(&self) -> EntryView {
        match self {
            Entry::Bookmark(b) => EntryView::Bookmark(b@),
            Entry::Comment(c) => EntryView::Comment(c@),
            Entry::Empty => EntryView::Empty,
        }
    }
}

/// Why a line is not an entry.
pub enum EntryParseError {
    MissingSeparator(String),
    EmptyName,
    EmptyUrl,
    MissingClosingBracket,
}

/// A parse error, with the offending line as a character sequence.
pub enum ParseErrorView {
    MissingSeparator(Seq<char>),
    EmptyName,
    EmptyUrl,
    MissingClosingBracket,
}

impl View for EntryParseError {
    type V = ParseErrorView;

    open spec fn view(&self) -> ParseErrorView {
        match self {
            EntryParseError::MissingSeparator(l) => ParseErrorView::MissingSeparator(l@),
            EntryParseError::EmptyName => ParseErrorView::EmptyName,
            EntryParseError::EmptyUrl => ParseErrorView::EmptyUrl,
            EntryParseError::MissingClosingBracket => ParseErrorView::MissingClosingBracket,
        }
    }
}

/// `[t]` when `t` is not empty, else nothing.
pub open spec fn keep_nonempty(t: Seq<char>) -> Seq<Seq<char>> {
    if t.len() == 0 {
        Seq::empty()
    } else {
        seq![t]
    }
}

/// The tags written in `s`: split on `,`, each piece trimmed, empty pieces dropped.
pub open spec fn tag_list(s: Seq<char>) -> Seq<Seq<char>>
    decreases s.len(),
{
    match first_index(s, ',') {
        Some(i) => {
            proof {
                lemma_first_index(s, ',');
            }
            keep_nonempty(trim(s.take(i))) + tag_list(s.skip(i + 1))
        },
        None => keep_nonempty(trim(s)),
    }
}

/// The bookmark part of a line (after its name and `:`), given as `rest`, trimmed.
pub open spec fn parse_target(name: Seq<char>, rest: Seq<char>) -> Result<
    EntryView,
    ParseErrorView,
> {
    match first_index(rest, '[') {
        Some(o) => {
            let url = trim(rest.take(o));
            let inner = rest.skip(o + 1);
            if url.len() == 0 {
                Err(ParseErrorView::EmptyUrl)
            } else {
                match last_index(inner, ']') {
                    Some(e) => Ok(
                        EntryView::Bookmark(
                            BookmarkView { name, url, tags: tag_list(inner.take(e)) },
                        ),
                    ),
                    None => Err(ParseErrorView::MissingClosingBracket),
                }
            }
        },
        None => if rest.len() == 0 {
            Err(ParseErrorView::EmptyUrl)
        } else {
            Ok(EntryView::Bookmark(BookmarkView { name, url: rest, tags: Seq::empty() }))
        },
    }
}

/// The entry that a line of text holds, or why it holds none.
pub open spec fn parse_line(line: Seq<char>) -> Result<EntryView, ParseErrorView> {
    let t = trim(line);
    if t.len() > 0 && t[0] == '#' {
        Ok(EntryView::Comment(trim(t.drop_first())))
    } else if t.len() == 0 {
        Ok(EntryView::Empty)
    } else {
        match first_index(t, ':') {
            None => Err(ParseErrorView::MissingSeparator(t)),
            Some(c) => {
                let name = trim(t.take(c));
                if name.len() == 0 {
                    Err(ParseErrorView::EmptyName)
                } else {
                    parse_target(name, trim(t.skip(c + 1)))
                }
            },
        }
    }
}

/// The line that an entry is written as.
pub open spec fn entry_line(e: EntryView) -> Seq<char> {
    match e {
        EntryView::Bookmark(b) => bookmark_line(b),
        EntryView::Comment(c) => seq!['#', ' '] + c,
        EntryView::Empty => Seq::empty(),
    }
}

/// A tag as the text format can hold it: not empty, trimmed, without `,`.
pub open spec fn tag_ok(t: Seq<char>) -> bool {
    t.len() > 0 && trimmed(t) && lacks(t, ',')
}

/// A bookmark as the text format can hold it, so that its line parses back to it.
pub open spec fn bookmark_ok(b: BookmarkView) -> bool {
    &&& b.name.len() > 0 && trimmed(b.name) && lacks(b.name, ':') && b.name[0] != '#'
    &&& b.url.len() > 0 && trimmed(b.url) && lacks(b.url, '[')
    &&& forall|i: int| 0 <= i < b.tags.len() ==> tag_ok(#[trigger] b.tags[i])
}

proof fn lemma_tag_list_concat(a: Seq<char>, b: Seq<char>)
    ensures
        tag_list(a + seq![','] + b) == tag_list(a) + tag_list(b),
    decreases a.len(),
{
    let s = a + seq![','] + b;
    lemma_first_index(a, ',');
    match first_index(a, ',') {
        Some(i) => {
            lemma_first_index_at(s, ',', i);
            assert(s.take(i) =~= a.take(i));
            assert(s.skip(i + 1) =~= a.skip(i + 1) + seq![','] + b);
            lemma_tag_list_concat(a.skip(i + 1), b);
            assert(tag_list(s) =~= tag_list(a) + tag_list(b));
        },
        None => {
            lemma_first_index_at(s, ',', a.len() as int);
            assert(s.take(a.len() as int) =~= a);
            assert(s.skip(a.len() + 1int) =~= b);
        },
    }
}

proof fn lemma_tag_list_one(t: Seq<char>)
    requires
        trimmed(t),
        lacks(t, ','),
    ensures
        tag_list(t) == keep_nonempty(t),
{
    lemma_first_index_at(t, ',', t.len() as int);
    lemma_trim_trimmed(t);
}

/// Joined tags that the format can hold split back into the same tags.
proof fn lemma_tag_list_join(tags: Seq<Seq<char>>)
    requires
        forall|i: int| 0 <= i < tags.len() ==> tag_ok(#[trigger] tags[i]),
    ensures
        tag_list(join_tags(tags)) == tags,
    decreases tags.len(),
{
    if tags.len() == 0 {
        lemma_tag_list_one(Seq::empty());
        assert(tag_list(join_tags(tags)) =~= tags);
    } else if tags.len() == 1 {
        assert(tag_ok(tags[0]));
        lemma_tag_list_one(tags[0]);
        assert(tag_list(join_tags(tags)) =~= tags);
    } else {
        let front = tags.drop_last();
        let last = tags.last();
        assert(tag_ok(tags[tags.len() - 1]));
        assert forall|i: int| 0 <= i < front.len() implies tag_ok(#[trigger] front[i]) by {
            assert(tag_ok(tags[i]));
        }
        lemma_tag_list_join(front);
        assert(join_tags(tags) =~= join_tags(front) + seq![','] + (seq![' '] + last));
        lemma_tag_list_concat(join_tags(front), seq![' '] + last);
        let spaced = seq![' '] + last;
        assert forall|k: int| 0 <= k < spaced.len() implies spaced[k] != ',' by {
            if k > 0 {
                assert(spaced[k] == last[k - 1]);
            }
        }
        lemma_first_index_at(spaced, ',', spaced.len() as int);
        lemma_trim_after_space(last);
        assert(tag_list(join_tags(tags)) =~= tags);
    }
}

/// Every tag that `tag_list` gives is one the format can hold.
proof fn lemma_tag_list_ok(s: Seq<char>)
    ensures
        forall|i: int| 0 <= i < tag_list(s).len() ==> tag_ok(#[trigger] tag_list(s)[i]),
    decreases s.len(),
{
    lemma_first_index(s, ',');
    match first_index(s, ',') {
        Some(i) => {
            let piece = s.take(i);
            assert(lacks(piece, ','));
            lemma_trim(piece);
            lemma_tag_list_ok(s.skip(i + 1));
            let head = keep_nonempty(trim(piece));
            let tail = tag_list(s.skip(i + 1));
            assert forall|j: int| 0 <= j < tag_list(s).len() implies tag_ok(
                #[trigger] tag_list(s)[j],
            ) by {
                if j < head.len() {
                    assert(tag_list(s)[j] == trim(piece));
                } else {
                    assert(tag_list(s)[j] == tail[j - head.len()]);
                }
            }
        },
        None => {
            lemma_trim(s);
        },
    }
}

/// What a parsed comment or bookmark holds is what the format can write back.
pub proof fn lemma_parse_ok(line: Seq<char>)
    ensures
        parse_line(line) matches Ok(EntryView::Bookmark(b)) ==> bookmark_ok(b),
        parse_line(line) matches Ok(EntryView::Comment(c)) ==> trimmed(c),
{
    let t = trim(line);
    lemma_trim(line);
    if t.len() > 0 && t[0] == '#' {
        lemma_trim(t.drop_first());
    } else if t.len() > 0 {
        lemma_first_index(t, ':');
        match first_index(t, ':') {
            Some(c) => {
                let head = t.take(c);
                let name = trim(head);
                assert(lacks(head, ':'));
                lemma_trim(head);
                if name.len() > 0 {
                    assert(trim_start(head) == head);
                    assert(name == trim_end(head));
                    lemma_trim_end_prefix_first(head);
                    let rest = trim(t.skip(c + 1));
                    lemma_trim(t.skip(c + 1));
                    lemma_first_index(rest, '[');
                    match first_index(rest, '[') {
                        Some(o) => {
                            assert(lacks(rest.take(o), '['));
                            lemma_trim(rest.take(o));
                            let inner = rest.skip(o + 1);
                            lemma_last_index(inner, ']');
                            match last_index(inner, ']') {
                                Some(e) => {
                                    lemma_tag_list_ok(inner.take(e));
                                },
                                None => {},
                            }
                        },
                        None => {},
                    }
                }
            },
            None => {},
        }
    }
}

proof fn lemma_trim_end_prefix_first(s: Seq<char>)
    requires
        trim_end(s).len() > 0,
    ensures
        trim_end(s)[0] == s[0],
    decreases s.len(),
{
    if s.len() > 0 && is_space(s.last()) {
        lemma_trim_end_prefix_first(s.drop_last());
    }
}

/// The line of a bookmark that the format can hold parses back to it.
pub proof fn lemma_bookmark_line_parses(b: BookmarkView)
    requires
        bookmark_ok(b),
    ensures
        parse_line(bookmark_line(b)) == Ok::<EntryView, ParseErrorView>(EntryView::Bookmark(b)),
{
    let line = bookmark_line(b);
    let n = b.name.len() as int;
    let j = join_tags(b.tags);
    let rest = b.url + seq![' ', '['] + j + seq![']'];
    let u = b.url.len() as int;
    assert(line =~= b.name + seq![':'] + (seq![' '] + rest));
    assert(line[0] == b.name[0]);
    assert(line.last() == ']');
    lemma_trim_trimmed(line);
    assert forall|k: int| 0 <= k < n implies #[trigger] line[k] != ':' by {
        assert(line[k] == b.name[k]);
    }
    lemma_first_index_at(line, ':', n);
    assert(line.take(n) =~= b.name);
    lemma_trim_trimmed(b.name);
    assert(line.skip(n + 1) =~= seq![' '] + rest);
    assert(rest[0] == b.url[0]);
    assert(rest.last() == ']');
    lemma_trim_after_space(rest);
    assert forall|k: int| 0 <= k < u + 1 implies #[trigger] rest[k] != '[' by {
        if k < u {
            assert(rest[k] == b.url[k]);
        }
    }
    lemma_first_index_at(rest, '[', u + 1);
    assert(rest.take(u + 1) =~= b.url + seq![' ']);
    lemma_trim_before_space(b.url);
    let inner = rest.skip(u + 2);
    assert(inner =~= j + seq![']']);
    lemma_last_index_at(inner, ']', j.len() as int);
    assert(inner.take(j.len() as int) =~= j);
    lemma_tag_list_join(b.tags);
}

/// The line of a comment that the format can hold parses back to it.
pub proof fn lemma_comment_line_parses(c: Seq<char>)
    requires
        trimmed(c),
    ensures
        parse_line(seq!['#', ' '] + c) == Ok::<EntryView, ParseErrorView>(EntryView::Comment(c)),
{
    let line = seq!['#', ' '] + c;
    if c.len() > 0 {
        assert(line[0] == '#');
        assert(line.last() == c.last());
        lemma_trim_trimmed(line);
        assert(line.drop_first() =~= seq![' '] + c);
        lemma_trim_after_space(c);
    } else {
        assert(line.drop_last() =~= seq!['#']);
        assert(trim_start(line) == line);
        assert(trim_end(seq!['#']) == seq!['#']);
        assert(trim(line) == seq!['#']);
        assert(seq!['#'].drop_first() =~= c);
        assert(trim_start(c) == c);
    }
}

/// Writing a parsed entry and parsing the line again gives the same entry.
pub proof fn lemma_entry_round_trip(line: Seq<char>)
    requires
        parse_line(line) is Ok,
    ensures
        parse_line(entry_line(parse_line(line)->Ok_0)) == parse_line(line),
{
    lemma_parse_ok(line);
    match parse_line(line)->Ok_0 {
        EntryView::Bookmark(b) => lemma_bookmark_line_parses(b),
        EntryView::Comment(c) => lemma_comment_line_parses(c),
        EntryView::Empty => {
            assert(trim_start(Seq::<char>::empty()) == Seq::<char>::empty());
        },
    }
}

/// The tags written in `cs[from..to]`.
fn split_tags(cs: &Vec<char>, from: usize, to: usize) -> (r: Vec<String>)
    requires
        from <= to <= cs.len(),
    ensures
        texts(r@) == tag_list(cs@.subrange(from as int, to as int)),
{
    let mut acc: Vec<String> = Vec::new();
    let mut start = from;
    loop
        invariant
            from <= start <= to <= cs.len(),
            texts(acc@) + tag_list(cs@.subrange(start as int, to as int)) == tag_list(
                cs@.subrange(from as int, to as int),
            ),
        decreases to - start,
    {
        let ghost sub = cs@.subrange(start as int, to as int);
        let found = find_first(cs, start, to, ',');
        let end = match found {
            Some(k) => k,
            None => to,
        };
        let (a, b) = trim_range(cs, start, end);
        let ghost piece = cs@.subrange(a as int, b as int);
        let ghost before = texts(acc@);
        if a < b {
            acc.push(string_of(cs, a, b));
            assert(texts(acc@) =~= before + keep_nonempty(piece));
        } else {
            assert(texts(acc@) =~= before + keep_nonempty(piece));
        }
        match found {
            Some(k) => {
                assert(sub.take(k - start) =~= cs@.subrange(start as int, k as int));
                assert(sub.skip(k - start + 1) =~= cs@.subrange(k + 1, to as int));
                assert(before + tag_list(sub) =~= texts(acc@) + tag_list(
                    cs@.subrange(k + 1, to as int),
                ));
                start = k + 1;
            },
            None => {
                assert(texts(acc@) == before + tag_list(sub));
                return acc;
            },
        }
    }
}

impl Entry {
    /// If this `Entry` is a `Bookmark`, extract it and consume `self`.
    pub fn into_bookmark(self) -> (r: Option<Bookmark>)
        ensures
            match self@ {
                EntryView::Bookmark(b) => r is Some && r->0@ == b,
                _ => r is None,
            },
    {
        match self {
            Entry::Bookmark(bookmark) => Some(bookmark),
            _ => None,
        }
    }

    /// Returns a reference to the bookmark if this `Entry` is a bookmark.
    pub fn bookmark(&self) -> (r: Option<&Bookmark>)
        ensures
            match self {
                Entry::Bookmark(b) => r == Some(b),
                _ => r is None,
            },
    {
        match self {
            Entry::Bookmark(bookmark) => Some(bookmark),
            _ => None,
        }
    }

    /// Returns a mutable reference to the bookmark if this `Entry` is a bookmark.
    pub fn bookmark_mut(&mut self) -> (r: Option<&mut Bookmark>)
        ensures
            match r {
                Some(b) => *old(self) is Bookmark && *b == old(self)->Bookmark_0 && *final(self)
                    == Entry::Bookmark(*final(b)),
                None => !(*old(self) is Bookmark) && *final(self) == *old(self),
            },
    {
        match self {
            Entry::Bookmark(bookmark) => Some(bookmark),
            _ => None,
        }
    }

    /// Parses one line of the text format.
    pub fn parse(line: &str) -> (r: Result<Entry, EntryParseError>)
        ensures
            match r {
                Ok(e) => parse_line(line@) == Ok::<EntryView, ParseErrorView>(e@),
                Err(e) => parse_line(line@) == Err::<EntryView, ParseErrorView>(e@),
            },
    {
        let cs = chars_of(line);
        let n = cs.len();
        assert(cs@.subrange(0, n as int) =~= line@);
        let (a, b) = trim_range(&cs, 0, n);
        let ghost t = cs@.subrange(a as int, b as int);
        if a < b && cs[a] == '#' {
            assert(t.drop_first() =~= cs@.subrange(a + 1, b as int));
            let (c0, c1) = trim_range(&cs, a + 1, b);
            return Ok(Entry::Comment(string_of(&cs, c0, c1)));
        }
        if a == b {
            return Ok(Entry::Empty);
        }
        let c = match find_first(&cs, a, b, ':') {
            Some(c) => c,
            None => {
                return Err(EntryParseError::MissingSeparator(string_of(&cs, a, b)));
            },
        };
        assert(t.take(c - a) =~= cs@.subrange(a as int, c as int));
        assert(t.skip(c - a + 1) =~= cs@.subrange(c + 1, b as int));
        let (n0, n1) = trim_range(&cs, a, c);
        if n0 == n1 {
            return Err(EntryParseError::EmptyName);
        }
        let name = string_of(&cs, n0, n1);
        let (r0, r1) = trim_range(&cs, c + 1, b);
        let ghost rest = cs@.subrange(r0 as int, r1 as int);
        match find_first(&cs, r0, r1, '[') {
            Some(o) => {
                assert(rest.take(o - r0) =~= cs@.subrange(r0 as int, o as int));
                assert(rest.skip(o - r0 + 1) =~= cs@.subrange(o + 1, r1 as int));
                let (u0, u1) = trim_range(&cs, r0, o);
                if u0 == u1 {
                    return Err(EntryParseError::EmptyUrl);
                }
                match find_last(&cs, o + 1, r1, ']') {
                    Some(e) => {
                        let ghost inner = cs@.subrange(o + 1, r1 as int);
                        assert(inner.take(e - (o + 1)) =~= cs@.subrange(o + 1, e as int));
                        let url = string_of(&cs, u0, u1);
                        let tags = split_tags(&cs, o + 1, e);
                        Ok(Entry::Bookmark(Bookmark { name, url, tags }))
                    },
                    None => Err(EntryParseError::MissingClosingBracket),
                }
            },
            None => {
                if r0 == r1 {
                    Err(EntryParseError::EmptyUrl)
                } else {
                    let url = string_of(&cs, r0, r1);
                    let tags: Vec<String> = Vec::new();
                    assert(texts(tags@) =~= Seq::<Seq<char>>::empty());
                    Ok(Entry::Bookmark(Bookmark { name, url, tags }))
                }
            },
        }
    }

    /// The line that this entry is written as.
    pub fn to_string(&self) -> (r: String)
        ensures
            r@ == entry_line(self@),
    {
        match self {
            Entry::Bookmark(b) => b.to_string(),
            Entry::Comment(c) => {
                let mut out = String::new();
                push_char(&mut out, '#');
                push_char(&mut out, ' ');
                out.append(c.as_str());
                assert(out@ =~= entry_line(self@));
                out
            },
            Entry::Empty => String::new(),
        }
    }
}

impl std::str::FromStr for Entry {
    type Err = EntryParseError;

    fn from_str(s: &str) -> Result<Self, Self::Err> {
        Entry::parse(s)
    }
}

} // verus!
