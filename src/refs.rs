//! Views that pair a bookmark's public ID with access to it.

use vstd::prelude::*;

use crate::bookmark::{bookmark_line, texts, Bookmark, BookmarkView};
use crate::entry::EntryView;
use crate::store::{positions_of, Store};
use crate::text::push_char;

verus! {

/// The character of a decimal digit.
pub open spec fn digit_char(d: nat) -> char {
    if d == 0 {
        '0'
    } else if d == 1 {
        '1'
    } else if d == 2 {
        '2'
    } else if d == 3 {
        '3'
    } else if d == 4 {
        '4'
    } else if d == 5 {
        '5'
    } else if d == 6 {
        '6'
    } else if d == 7 {
        '7'
    } else if d == 8 {
        '8'
    } else {
        '9'
    }
}

/// `n` written in decimal.
pub open spec fn decimal(n: nat) -> Seq<char>
    decreases n,
{
    if n < 10 {
        seq![digit_char(n)]
    } else {
        decimal(n / 10).push(digit_char(n % 10))
    }
}

/// The text form of a bookmark with its ID: `<id>. <name>: <url> [<tags>]`.
pub open spec fn numbered_line(id: nat, b: BookmarkView) -> Seq<char> {
    decimal(id) + seq!['.', ' '] + bookmark_line(b)
}

fn push_decimal(out: &mut String, n: usize)
    ensures
        final(out)@ == old(out)@ + decimal(n as nat),
    decreases n,
{
    if n >= 10 {
        push_decimal(out, n / 10);
    }
    let d = n % 10;
    let c = if d == 0 {
        '0'
    } else if d == 1 {
        '1'
    } else if d == 2 {
        '2'
    } else if d == 3 {
        '3'
    } else if d == 4 {
        '4'
    } else if d == 5 {
        '5'
    } else if d == 6 {
        '6'
    } else if d == 7 {
        '7'
    } else if d == 8 {
        '8'
    } else {
        '9'
    };
    push_char(out, c);
    assert(out@ =~= old(out)@ + decimal(n as nat));
}

/// `id. ` followed by the text form of `b`.
fn numbered(id: usize, b: &Bookmark) -> (r: String)
    ensures
        r@ == numbered_line(id as nat, b@),
{
    let mut out = String::new();
    push_decimal(&mut out, id);
    push_char(&mut out, '.');
    push_char(&mut out, ' ');
    let line = b.to_string();
    out.append(line.as_str());
    assert(out@ =~= numbered_line(id as nat, b@));
    out
}

/// A bookmark seen through its public ID.
pub struct BookmarkRef<'a> {
    pub id: usize,
    pub bookmark: &'a Bookmark,
}

impl<'a> BookmarkRef<'a> {
    pub fn new(id: usize, bookmark: &'a Bookmark) -> (r: Self)
        ensures
            r.id == id,
            r.bookmark == bookmark,
    {
        Self { id, bookmark }
    }

    /// The text form `<id>. <name>: <url> [<tags>]`.
    pub fn to_string(&self) -> (r: String)
        ensures
            r@ == numbered_line(self.id as nat, self.bookmark@),
    {
        numbered(self.id, self.bookmark)
    }
}

impl<'a> std::ops::Deref for BookmarkRef<'a> {
    type Target = Bookmark;

    fn deref(&self) -> (r: &Bookmark)
        ensures
            r == self.bookmark,
    {
        self.bookmark
    }
}

/// A bookmark of a store, seen through its public ID, with the right to change it.
///
/// It holds the whole store rather than the bookmark alone, so that a change of tags
/// reaches the tag index too.
pub struct BookmarkMut<'a> {
    pub id: usize,
    pub store: &'a mut Store,
}

impl<'a> BookmarkMut<'a> {
    pub fn new(id: usize, store: &'a mut Store) -> (r: Self)
        ensures
            r.id == id,
            *r.store == *old(store),
            *final(r.store) == *final(store),
    {
        Self { id, store }
    }

    /// The bookmark.
    pub fn bookmark(&self) -> (r: &Bookmark)
        requires
            self.store.wf(),
            self.id < self.store.bookmarks().len(),
        ensures
            r@ == old(self.store).bookmarks()[self.id as int],
    {
        self.store.bookmark_at(self.id)
    }

    /// The text form `<id>. <name>: <url> [<tags>]`.
    pub fn to_string(&self) -> (r: String)
        requires
            self.store.wf(),
            self.id < self.store.bookmarks().len(),
        ensures
            r@ == numbered_line(self.id as nat, old(self.store).bookmarks()[self.id as int]),
    {
        numbered(self.id, self.store.bookmark_at(self.id))
    }

    /// Sets the bookmark's name.
    pub fn set_name(&mut self, name: String)
        requires
            old(self).store.wf(),
            old(self).id < old(self).store.bookmarks().len(),
        ensures
            final(self).id == old(self).id,
            *final(final(self).store) == *final(old(self).store),
            final(self).store.wf(),
            final(self).store.bookmarks() == old(self).store.bookmarks().update(
                old(self).id as int,
                BookmarkView { name: name@, ..old(self).store.bookmarks()[old(self).id as int] },
            ),
            final(self).store@ == old(self).store@.update(
                positions_of(old(self).store@)[old(self).id as int],
                Some(EntryView::Bookmark(final(self).store.bookmarks()[old(self).id as int])),
            ),
    {
        self.store.set_name_of(self.id, name);
    }

    /// Sets the bookmark's URL.
    pub fn set_url(&mut self, url: String)
        requires
            old(self).store.wf(),
            old(self).id < old(self).store.bookmarks().len(),
        ensures
            final(self).id == old(self).id,
            *final(final(self).store) == *final(old(self).store),
            final(self).store.wf(),
            final(self).store.bookmarks() == old(self).store.bookmarks().update(
                old(self).id as int,
                BookmarkView { url: url@, ..old(self).store.bookmarks()[old(self).id as int] },
            ),
            final(self).store@ == old(self).store@.update(
                positions_of(old(self).store@)[old(self).id as int],
                Some(EntryView::Bookmark(final(self).store.bookmarks()[old(self).id as int])),
            ),
    {
        self.store.set_url_of(self.id, url);
    }

    /// Sets the bookmark's tags, and files it under them in the tag index.
    pub fn set_tags(&mut self, tags: Vec<String>)
        requires
            old(self).store.wf(),
            old(self).id < old(self).store.bookmarks().len(),
        ensures
            final(self).id == old(self).id,
            *final(final(self).store) == *final(old(self).store),
            final(self).store.wf(),
            final(self).store.bookmarks() == old(self).store.bookmarks().update(
                old(self).id as int,
                BookmarkView {
                    tags: texts(tags@),
                    ..old(self).store.bookmarks()[old(self).id as int]
                },
            ),
            final(self).store@ == old(self).store@.update(
                positions_of(old(self).store@)[old(self).id as int],
                Some(EntryView::Bookmark(final(self).store.bookmarks()[old(self).id as int])),
            ),
    {
        self.store.set_tags_of(self.id, tags);
    }
}

} // verus!
