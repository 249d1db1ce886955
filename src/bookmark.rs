//! A bookmark record and its one-line text form.

use vstd::prelude::*;

use crate::text::{contains, lower_of, push_char, text_contains, to_lower};

verus! {

/// A named URL with tags.
pub struct Bookmark {
    pub name: String,
    pub url: String,
    pub tags: Vec<String>,
}

/// What a bookmark holds, as character sequences.
pub struct BookmarkView {
    pub name: Seq<char>,
    pub url: Seq<char>,
    pub tags: Seq<Seq<char>>,
}

/// The views of a list of strings.
pub open spec fn texts(v: Seq<String>) -> Seq<Seq<char>> {
    v.map_values(|t: String| t@)
}

impl View for Bookmark {
    type V = BookmarkView;

    open spec fn view(&self) -> BookmarkView {
        BookmarkView { name: self.name@, url: self.url@, tags: texts(self.tags@) }
    }
}

/// Tags joined by `", "`.
pub open spec fn join_tags(tags: Seq<Seq<char>>) -> Seq<char>
    decreases tags.len(),
{
    if tags.len() == 0 {
        Seq::empty()
    } else if tags.len() == 1 {
        tags[0]
    } else {
        join_tags(tags.drop_last()) + seq![',', ' '] + tags.last()
    }
}

/// The text form of a bookmark: `<name>: <url> [<tag>, <tag>, ...]`.
pub open spec fn bookmark_line(b: BookmarkView) -> Seq<char> {
    b.name + seq![':', ' '] + b.url + seq![' ', '['] + join_tags(b.tags) + seq![']']
}

/// `query` occurs, ignoring case, in the text form of `b`.
pub open spec fn matches_query(b: BookmarkView, query: Seq<char>) -> bool {
    contains(lower_of(bookmark_line(b)), lower_of(query))
}

/// Appends `s` to `out`.
pub(crate) fn append_text(out: &mut String, s: &String)
    ensures
        final(out)@ == old(out)@ + s@,
{
    out.append(s.as_str());
}

/// Appends the tags of `tags`, joined by `", "`, to `out`.
pub(crate) fn append_tags(out: &mut String, tags: &Vec<String>)
    ensures
        final(out)@ == old(out)@ + join_tags(texts(tags@)),
{
    let ghost start = out@;
    let mut i: usize = 0;
    while i < tags.len()
        invariant
            i <= tags.len(),
            out@ == start + join_tags(texts(tags@.take(i as int))),
        decreases tags.len() - i,
    {
        let ghost prev = texts(tags@.take(i as int));
        let ghost next = texts(tags@.take(i + 1));
        assert(next.drop_last() =~= prev);
        assert(next.last() == tags@[i as int]@);
        if i > 0 {
            push_char(out, ',');
            push_char(out, ' ');
        }
        append_text(out, &tags[i]);
        proof {
            if i == 0 {
                assert(prev.len() == 0);
                assert(join_tags(next) == next[0]);
            }
        }
        assert(out@ =~= start + join_tags(next));
        i = i + 1;
    }
    assert(tags@.take(tags.len() as int) =~= tags@);
}

impl Bookmark {
    /// Create a new bookmark.
    pub fn new(name: String, url: String, tags: Vec<String>) -> (r: Self)
        ensures
            r@ == (BookmarkView { name: name@, url: url@, tags: texts(tags@) }),
    {
        Self { name, url, tags }
    }

    /// Return the bookmark's name.
    pub fn name(&self) -> (r: &str)
        ensures
            r@ == self.name@,
    {
        self.name.as_str()
    }

    /// Return the bookmark's URL.
    pub fn url(&self) -> (r: &str)
        ensures
            r@ == self.url@,
    {
        self.url.as_str()
    }

    /// Return the bookmark's tags.
    pub fn tags(&self) -> (r: &[String])
        ensures
            r@ == self.tags@,
    {
        self.tags.as_slice()
    }

    /// Sets the bookmark's name.
    pub fn set_name(&mut self, name: String)
        ensures
            final(self)@ == (BookmarkView { name: name@, ..old(self)@ }),
    {
        self.name = name;
    }

    /// Sets the bookmark's URL.
    pub fn set_url(&mut self, url: String)
        ensures
            final(self)@ == (BookmarkView { url: url@, ..old(self)@ }),
    {
        self.url = url;
    }

    /// Sets the bookmark's tags.
    pub fn set_tags(&mut self, tags: Vec<String>)
        ensures
            final(self)@ == (BookmarkView { tags: texts(tags@), ..old(self)@ }),
    {
        self.tags = tags;
    }

    /// The text form `<name>: <url> [<tag>, <tag>, ...]`.
    pub fn to_string(&self) -> (r: String)
        ensures
            r@ == bookmark_line(self@),
    {
        let mut out = String::new();
        append_text(&mut out, &self.name);
        push_char(&mut out, ':');
        push_char(&mut out, ' ');
        append_text(&mut out, &self.url);
        push_char(&mut out, ' ');
        push_char(&mut out, '[');
        append_tags(&mut out, &self.tags);
        push_char(&mut out, ']');
        assert(out@ =~= bookmark_line(self@));
        out
    }

    /// Checks, ignoring case, whether `query` occurs in the bookmark's text form.
    pub fn matches(&self, query: &str) -> (r: bool)
        ensures
            r == matches_query(self@, query@),
    {
        let line = self.to_string();
        let text = to_lower(line.as_str());
        let wanted = to_lower(query);
        text_contains(text.as_str(), wanted.as_str())
    }
}

} // verus!
