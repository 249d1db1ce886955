//! The store: a log of entries where removal leaves a tombstone, a dense index from public
//! bookmark IDs to log positions, and a tag index.

use vstd::prelude::*;

use crate::bookmark::{matches_query, texts, Bookmark, BookmarkView};
use crate::entry::{
    entry_line, lemma_entry_round_trip, parse_line, Entry, EntryParseError, EntryView,
    ParseErrorView,
};
use crate::refs::{BookmarkMut, BookmarkRef};
use crate::tag_index::{
    find_row, index_tags, lemma_tag_count, lemma_table_extend, lemma_table_same_tags,
    lists_tagged, strip_table, stripped, table_ok, tag_count, tagged, with_tags,
};

verus! {

/// The views of the log's slots.
pub open spec fn log_of(entries: Seq<Option<Entry>>) -> Seq<Option<EntryView>> {
    entries.map_values(
        |e: Option<Entry>|
            match e {
                Some(x) => Some(x@),
                None => None,
            },
    )
}

/// The log positions of the live bookmarks, in order.
pub open spec fn positions_of(log: Seq<Option<EntryView>>) -> Seq<int>
    decreases log.len(),
{
    if log.len() == 0 {
        Seq::empty()
    } else {
        let p = positions_of(log.drop_last());
        match log.last() {
            Some(EntryView::Bookmark(_)) => p.push(log.len() - 1),
            _ => p,
        }
    }
}

/// The live bookmarks, in log order; a bookmark's public ID is its place here.
pub open spec fn bookmarks_in(log: Seq<Option<EntryView>>) -> Seq<BookmarkView>
    decreases log.len(),
{
    if log.len() == 0 {
        Seq::empty()
    } else {
        let p = bookmarks_in(log.drop_last());
        match log.last() {
            Some(EntryView::Bookmark(b)) => p.push(b),
            _ => p,
        }
    }
}

/// The number of slots that are not tombstones.
pub open spec fn live_count(log: Seq<Option<EntryView>>) -> nat
    decreases log.len(),
{
    if log.len() == 0 {
        0
    } else {
        live_count(log.drop_last()) + if log.last() is Some {
            1nat
        } else {
            0nat
        }
    }
}

/// The public IDs of the bookmarks of `bms` that match `query`, in order.
pub open spec fn matching_ids(bms: Seq<BookmarkView>, query: Seq<char>) -> Seq<int>
    decreases bms.len(),
{
    if bms.len() == 0 {
        Seq::empty()
    } else {
        let p = matching_ids(bms.drop_last(), query);
        if matches_query(bms.last(), query) {
            p.push(bms.len() - 1)
        } else {
            p
        }
    }
}

/// The lines that a log is saved as: one per live entry, in log order.
pub open spec fn saved_lines(log: Seq<Option<EntryView>>) -> Seq<Seq<char>>
    decreases log.len(),
{
    if log.len() == 0 {
        Seq::empty()
    } else {
        let p = saved_lines(log.drop_last());
        match log.last() {
            Some(e) => p.push(entry_line(e)),
            None => p,
        }
    }
}

/// The live entries of a log, in order, with the tombstones left out.
pub open spec fn live_entries(log: Seq<Option<EntryView>>) -> Seq<Option<EntryView>>
    decreases log.len(),
{
    if log.len() == 0 {
        Seq::empty()
    } else {
        let p = live_entries(log.drop_last());
        match log.last() {
            Some(e) => p.push(Some(e)),
            None => p,
        }
    }
}

/// Every line of `lines` holds an entry.
pub open spec fn all_parse(lines: Seq<Seq<char>>) -> bool {
    forall|i: int| 0 <= i < lines.len() ==> (#[trigger] parse_line(lines[i])) is Ok
}

/// The log slots that loading `lines` appends, given that each holds an entry.
pub open spec fn loaded(lines: Seq<Seq<char>>) -> Seq<Option<EntryView>> {
    lines.map_values(|l: Seq<char>| Some(parse_line(l)->Ok_0))
}

/// Loading stopped at a line that holds no entry.
pub struct LoadError {
    /// The line's number, counted from 1.
    pub line: usize,
    pub error: EntryParseError,
}

/// Relies on `itertools::Itertools::sorted_by_key`: a stable sort of the pairs into
/// ascending order of their first field; the result holds the same pairs.
#[verifier::external_body]
fn sort_by_first(v: Vec<(usize, usize)>) -> (r: Vec<(usize, usize)>)
    ensures
        r@.to_multiset() == v@.to_multiset(),
        forall|i: int, j: int| 0 <= i < j < r.len() ==> r@[i].0 <= r@[j].0,
{
    itertools::Itertools::sorted_by_key(v.into_iter(), |p| p.0).collect()
}

/// Each live bookmark's position holds that bookmark.
pub proof fn lemma_positions(log: Seq<Option<EntryView>>)
    ensures
        positions_of(log).len() == bookmarks_in(log).len(),
        forall|i: int|
            0 <= i < positions_of(log).len() ==> 0 <= #[trigger] positions_of(log)[i] < log.len()
                && log[positions_of(log)[i]] == Some(EntryView::Bookmark(bookmarks_in(log)[i])),
    decreases log.len(),
{
    if log.len() > 0 {
        lemma_positions(log.drop_last());
    }
}

proof fn lemma_tombstone(log: Seq<Option<EntryView>>, k: int)
    requires
        0 <= k < positions_of(log).len(),
    ensures
        positions_of(log.update(positions_of(log)[k], None)) == positions_of(log).remove(k),
        bookmarks_in(log.update(positions_of(log)[k], None)) == bookmarks_in(log).remove(k),
    decreases log.len(),
{
    lemma_positions(log);
    let p = positions_of(log)[k];
    let front = log.drop_last();
    let n = log.len() - 1;
    let after = log.update(p, None);
    lemma_positions(front);
    if p == n {
        assert(after.drop_last() =~= front);
        assert(positions_of(log).remove(k) =~= positions_of(front));
        assert(bookmarks_in(log).remove(k) =~= bookmarks_in(front));
    } else {
        assert(positions_of(front)[k] == p);
        assert(after.drop_last() =~= front.update(p, None));
        lemma_tombstone(front, k);
        assert(positions_of(after) =~= positions_of(log).remove(k));
        assert(bookmarks_in(after) =~= bookmarks_in(log).remove(k));
    }
}

proof fn lemma_rewrite(log: Seq<Option<EntryView>>, k: int, b: BookmarkView)
    requires
        0 <= k < positions_of(log).len(),
    ensures
        positions_of(log.update(positions_of(log)[k], Some(EntryView::Bookmark(b))))
            == positions_of(log),
        bookmarks_in(log.update(positions_of(log)[k], Some(EntryView::Bookmark(b))))
            == bookmarks_in(log).update(k, b),
    decreases log.len(),
{
    lemma_positions(log);
    let p = positions_of(log)[k];
    let front = log.drop_last();
    let n = log.len() - 1;
    let after = log.update(p, Some(EntryView::Bookmark(b)));
    lemma_positions(front);
    if p == n {
        assert(after.drop_last() =~= front);
        assert(bookmarks_in(after) =~= bookmarks_in(log).update(k, b));
    } else {
        assert(positions_of(front)[k] == p);
        assert(after.drop_last() =~= front.update(p, Some(EntryView::Bookmark(b))));
        lemma_rewrite(front, k, b);
        assert(bookmarks_in(after) =~= bookmarks_in(log).update(k, b));
    }
}

/// A store for bookmarks and other entries.
pub struct Store {
    entries: Vec<Option<Entry>>,
    bookmark_index: Vec<usize>,
    tag_index: Vec<(String, Vec<usize>)>,
}

impl View for Store {
    type V = Seq<Option<EntryView>>;

    /// The log: one slot per entry ever added, `None` where one was removed.
    closed spec fn view(&self) -> Seq<Option<EntryView>> {
        log_of(self.entries@)
    }
}

impl Store {
    /// The index and the tag index agree with the log.
    pub closed spec fn wf(&self) -> bool {
        &&& self.bookmark_index@.map_values(|p: usize| p as int) == positions_of(self@)
        &&& table_ok(self.tag_index@, bookmarks_in(self@))
    }

    /// The live bookmarks, indexed by public ID.
    pub open spec fn bookmarks(&self) -> Seq<BookmarkView> {
        bookmarks_in(self@)
    }

    /// Create a new store
    pub fn new() -> (r: Self)
        ensures
            r.wf(),
            r@ == Seq::<Option<EntryView>>::empty(),
    {
        let r = Self { entries: Vec::new(), bookmark_index: Vec::new(), tag_index: Vec::new() };
        assert(r@ =~= Seq::<Option<EntryView>>::empty());
        assert(r.bookmark_index@.map_values(|p: usize| p as int) =~= Seq::<int>::empty());
        r
    }

    /// Add an entry to the store, returning the entry ID (bookmark ID if a bookmark)
    pub fn add_entry(&mut self, entry: Entry) -> (r: usize)
        requires
            old(self).wf(),
        ensures
            final(self).wf(),
            final(self)@ == old(self)@.push(Some(entry@)),
            final(self).bookmarks() == match entry@ {
                EntryView::Bookmark(b) => old(self).bookmarks().push(b),
                _ => old(self).bookmarks(),
            },
            r == if entry is Bookmark {
                old(self).bookmarks().len()
            } else {
                old(self)@.len()
            },
    {
        let ghost log = self@;
        let ghost bms = self.bookmarks();
        let ghost new_log = log.push(Some(entry@));
        assert(new_log.drop_last() =~= log);
        proof {
            lemma_positions(log);
        }
        let pos = self.entries.len();
        let r = match &entry {
            Entry::Bookmark(b) => {
                self.bookmark_index.push(pos);
                let id = self.bookmark_index.len() - 1;
                proof {
                    lemma_table_extend(self.tag_index@, bms, b@);
                }
                index_tags(&mut self.tag_index, Ghost(bms.push(b@)), id, &b.tags);
                id
            },
            _ => pos,
        };
        self.entries.push(Some(entry));
        assert(self@ =~= new_log);
        assert(self.bookmark_index@.map_values(|p: usize| p as int) =~= positions_of(new_log));
        r
    }

    /// Add a bookmark to the store and return its bookmark ID
    pub fn add(&mut self, bookmark: Bookmark) -> (r: usize)
        requires
            old(self).wf(),
        ensures
            final(self).wf(),
            final(self)@ == old(self)@.push(Some(EntryView::Bookmark(bookmark@))),
            final(self).bookmarks() == old(self).bookmarks().push(bookmark@),
            r == old(self).bookmarks().len(),
    {
        let r = self.add_entry(Entry::Bookmark(bookmark));
        assert(self@.drop_last() =~= old(self)@);
        r
    }

    /// Create a new bookmark and add it to the store
    pub fn create(&mut self, name: String, url: String, tags: Vec<String>) -> (r: usize)
        requires
            old(self).wf(),
        ensures
            final(self).wf(),
            final(self).bookmarks() == old(self).bookmarks().push(
                BookmarkView { name: name@, url: url@, tags: texts(tags@) },
            ),
            final(self)@ == old(self)@.push(
                Some(
                    EntryView::Bookmark(
                        BookmarkView { name: name@, url: url@, tags: texts(tags@) },
                    ),
                ),
            ),
            r == old(self).bookmarks().len(),
    {
        self.add(Bookmark { name, url, tags })
    }

    /// Get the number of bookmarks in the store
    pub fn bookmark_count(&self) -> (r: usize)
        requires
            self.wf(),
        ensures
            r == self.bookmarks().len(),
    {
        proof {
            lemma_positions(self@);
        }
        self.bookmark_index.len()
    }

    /// Get the number of entries in the store
    pub fn entry_count(&self) -> (r: usize)
        ensures
            r == live_count(self@),
    {
        let mut n: usize = 0;
        let mut i: usize = 0;
        while i < self.entries.len()
            invariant
                i <= self.entries.len(),
                n == live_count(self@.take(i as int)),
                n <= i,
            decreases self.entries.len() - i,
        {
            assert(self@.take(i + 1).drop_last() =~= self@.take(i as int));
            if self.entries[i].is_some() {
                n = n + 1;
            }
            i = i + 1;
        }
        assert(self@.take(i as int) =~= self@);
        n
    }

    /// The log: one slot per entry ever added, `None` where a bookmark was removed.
    pub fn entries(&self) -> (r: &Vec<Option<Entry>>)
        ensures
            log_of(r@) == self@,
    {
        &self.entries
    }

    /// Get the number of entry slots in the store
    pub fn capacity(&self) -> (r: usize)
        ensures
            r == self@.len(),
    {
        self.entries.len()
    }

    /// The bookmark with public ID `id`.
    pub(crate) fn bookmark_at(&self, id: usize) -> (r: &Bookmark)
        requires
            self.wf(),
            id < self.bookmarks().len(),
        ensures
            r@ == self.bookmarks()[id as int],
    {
        proof {
            lemma_positions(self@);
        }
        let pos = self.bookmark_index[id];
        assert(self.bookmark_index@.map_values(|p: usize| p as int)[id as int] == pos);
        assert(self@[pos as int] == Some(EntryView::Bookmark(self.bookmarks()[id as int])));
        let entry = self.entries[pos].as_ref().unwrap();
        entry.bookmark().unwrap()
    }

    /// Get a reference to a bookmark by bookmark ID
    pub fn get(&self, bookmark_id: usize) -> (r: Option<BookmarkRef<'_>>)
        requires
            self.wf(),
        ensures
            match r {
                Some(b) => bookmark_id < self.bookmarks().len() && b.id == bookmark_id
                    && b.bookmark@ == self.bookmarks()[bookmark_id as int],
                None => bookmark_id >= self.bookmarks().len(),
            },
    {
        proof {
            lemma_positions(self@);
        }
        if bookmark_id < self.bookmark_index.len() {
            Some(BookmarkRef::new(bookmark_id, self.bookmark_at(bookmark_id)))
        } else {
            None
        }
    }

    /// Get a mutable reference to a bookmark by bookmark ID
    pub fn get_mut(&mut self, bookmark_id: usize) -> (r: Option<BookmarkMut<'_>>)
        requires
            old(self).wf(),
        ensures
            match r {
                Some(b) => bookmark_id < old(self).bookmarks().len() && b.id == bookmark_id
                    && *b.store == *old(self) && *final(b.store) == *final(self),
                None => bookmark_id >= old(self).bookmarks().len() && *final(self) == *old(
                    self,
                ),
            },
    {
        proof {
            lemma_positions(self@);
        }
        if bookmark_id < self.bookmark_index.len() {
            Some(BookmarkMut::new(bookmark_id, self))
        } else {
            None
        }
    }

    /// All bookmarks in the store, in ID order
    pub fn iter(&self) -> (r: Vec<BookmarkRef<'_>>)
        requires
            self.wf(),
        ensures
            r.len() == self.bookmarks().len(),
            forall|i: int|
                0 <= i < r.len() ==> (#[trigger] r@[i]).id == i && r@[i].bookmark@
                    == self.bookmarks()[i],
    {
        let n = self.bookmark_count();
        let mut r: Vec<BookmarkRef<'_>> = Vec::new();
        let mut i: usize = 0;
        while i < n
            invariant
                self.wf(),
                n == self.bookmarks().len(),
                i <= n,
                r.len() == i,
                forall|j: int|
                    0 <= j < i ==> (#[trigger] r@[j]).id == j && r@[j].bookmark@
                        == self.bookmarks()[j],
            decreases n - i,
        {
            r.push(BookmarkRef::new(i, self.bookmark_at(i)));
            i = i + 1;
        }
        r
    }

    /// Get all bookmarks that match a given query
    pub fn find(&self, query: &str) -> (r: Vec<BookmarkRef<'_>>)
        requires
            self.wf(),
        ensures
            r@.map_values(|b: BookmarkRef| b.id as int) == matching_ids(self.bookmarks(), query@),
            forall|i: int|
                0 <= i < r.len() ==> (#[trigger] r@[i]).bookmark@ == self.bookmarks()[r@[i].id as int],
    {
        let n = self.bookmark_count();
        let ghost bms = self.bookmarks();
        let mut r: Vec<BookmarkRef<'_>> = Vec::new();
        let mut i: usize = 0;
        while i < n
            invariant
                self.wf(),
                bms == self.bookmarks(),
                n == bms.len(),
                i <= n,
                r@.map_values(|b: BookmarkRef| b.id as int) == matching_ids(bms.take(i as int), query@),
                forall|j: int|
                    0 <= j < r.len() ==> (#[trigger] r@[j]).bookmark@ == bms[r@[j].id as int],
            decreases n - i,
        {
            let b = self.bookmark_at(i);
            assert(bms.take(i + 1).drop_last() =~= bms.take(i as int));
            assert(bms.take(i + 1).last() == bms[i as int]);
            if b.matches(query) {
                let ghost before = r@;
                r.push(BookmarkRef::new(i, b));
                assert(r@.map_values(|b: BookmarkRef| b.id as int) =~= before.map_values(
                    |b: BookmarkRef| b.id as int,
                ).push(i as int));
            }
            i = i + 1;
        }
        assert(bms.take(n as int) =~= bms);
        r
    }

    /// Appends the entries that `lines` hold, in order; stops at the first line that holds
    /// none, keeping what came before it.
    pub fn load(&mut self, lines: &Vec<String>) -> (r: Result<(), LoadError>)
        requires
            old(self).wf(),
            lines.len() < usize::MAX,
        ensures
            final(self).wf(),
            match r {
                Ok(()) => all_parse(texts(lines@)) && final(self)@ == old(self)@ + loaded(
                    texts(lines@),
                ),
                Err(e) => {
                    &&& 1 <= e.line <= lines.len()
                    &&& all_parse(texts(lines@).take(e.line - 1))
                    &&& parse_line(lines@[e.line - 1]@) == Err::<EntryView, _>(e.error@)
                    &&& final(self)@ == old(self)@ + loaded(texts(lines@).take(e.line - 1))
                },
            },
    {
        let ghost all = texts(lines@);
        let ghost start = self@;
        let mut i: usize = 0;
        while i < lines.len()
            invariant
                self.wf(),
                i <= lines.len() < usize::MAX,
                all == texts(lines@),
                start == old(self)@,
                all_parse(all.take(i as int)),
                self@ == start + loaded(all.take(i as int)),
            decreases lines.len() - i,
        {
            assert(all.take(i + 1).drop_last() =~= all.take(i as int));
            match Entry::parse(lines[i].as_str()) {
                Ok(entry) => {
                    self.add_entry(entry);
                    assert(loaded(all.take(i + 1)) =~= loaded(all.take(i as int)).push(
                        Some(parse_line(all[i as int])->Ok_0),
                    ));
                    assert(self@ =~= start + loaded(all.take(i + 1)));
                },
                Err(error) => {
                    let r = LoadError { line: i + 1, error };
                    assert(r.line - 1 == i);
                    assert(texts(lines@).take(r.line - 1) == all.take(i as int));
                    return Err(r);
                },
            }
            i = i + 1;
        }
        assert(all.take(i as int) =~= all);
        Ok(())
    }

    /// The lines that the store is saved as: each live entry in log order.
    pub fn save(&self) -> (r: Vec<String>)
        ensures
            texts(r@) == saved_lines(self@),
    {
        let mut r: Vec<String> = Vec::new();
        let mut i: usize = 0;
        while i < self.entries.len()
            invariant
                i <= self.entries.len(),
                texts(r@) == saved_lines(self@.take(i as int)),
            decreases self.entries.len() - i,
        {
            assert(self@.take(i + 1).drop_last() =~= self@.take(i as int));
            match &self.entries[i] {
                Some(entry) => {
                    let ghost before = r@;
                    r.push(entry.to_string());
                    assert(texts(r@) =~= texts(before).push(entry_line(entry@)));
                },
                None => {},
            }
            i = i + 1;
        }
        assert(self@.take(i as int) =~= self@);
        r
    }

    /// Get all bookmarks that match a given tag
    pub fn find_by_tag(&self, tag: &str) -> (r: Vec<BookmarkRef<'_>>)
        requires
            self.wf(),
        ensures
            lists_tagged(r@.map_values(|b: BookmarkRef| b.id), self.bookmarks(), tag@),
            forall|i: int|
                0 <= i < r.len() ==> (#[trigger] r@[i]).bookmark@ == self.bookmarks()[r@[i].id as int],
    {
        let mut r: Vec<BookmarkRef<'_>> = Vec::new();
        let key = tag.to_owned();
        let ghost bms = self.bookmarks();
        match find_row(&self.tag_index, &key) {
            Some(row) => {
                let ids = &self.tag_index[row].1;
                assert(lists_tagged(ids@, bms, tag@));
                let mut j: usize = 0;
                while j < ids.len()
                    invariant
                        self.wf(),
                        bms == self.bookmarks(),
                        lists_tagged(ids@, bms, tag@),
                        j <= ids.len(),
                        r.len() == j,
                        forall|i: int| 0 <= i < j ==> (#[trigger] r@[i]).id == ids@[i],
                        forall|i: int|
                            0 <= i < r.len() ==> (#[trigger] r@[i]).bookmark@
                                == bms[r@[i].id as int],
                    decreases ids.len() - j,
                {
                    let id = ids[j];
                    assert(tagged(bms, ids@[j as int] as int, tag@));
                    r.push(BookmarkRef::new(id, self.bookmark_at(id)));
                    j = j + 1;
                }
                assert(r@.map_values(|b: BookmarkRef| b.id) =~= ids@);
            },
            None => {
                assert(r@.map_values(|b: BookmarkRef| b.id) =~= Seq::<usize>::empty());
                assert forall|b: int| #[trigger]
                    tagged(bms, b, tag@) implies false by {
                    let q = choose|q: int|
                        0 <= q < self.tag_index@.len() && self.tag_index@[q].0@ == tag@;
                }
            },
        }
        r
    }

    /// Each tag in use, once, with the number of bookmarks that carry it.
    pub fn tag_counts(&self) -> (r: Vec<(String, usize)>)
        requires
            self.wf(),
        ensures
            forall|i: int, j: int| 0 <= i < j < r.len() ==> r@[i].0@ != r@[j].0@,
            forall|i: int|
                0 <= i < r.len() ==> (#[trigger] r@[i]).1 == tag_count(self.bookmarks(), r@[i].0@)
                    && r@[i].1 > 0,
            forall|b: int, t: Seq<char>|
                #[trigger] tagged(self.bookmarks(), b, t) ==> exists|i: int|
                    0 <= i < r.len() && r@[i].0@ == t,
    {
        let ghost bms = self.bookmarks();
        let mut r: Vec<(String, usize)> = Vec::new();
        let mut i: usize = 0;
        while i < self.tag_index.len()
            invariant
                self.wf(),
                bms == self.bookmarks(),
                i <= self.tag_index.len(),
                r.len() == i,
                forall|j: int| 0 <= j < i ==> (#[trigger] r@[j]).0@ == self.tag_index@[j].0@,
                forall|j: int|
                    0 <= j < i ==> (#[trigger] r@[j]).1 == tag_count(bms, r@[j].0@) && r@[j].1 > 0,
            decreases self.tag_index.len() - i,
        {
            let row = &self.tag_index[i];
            proof {
                lemma_tag_count(row.1@, bms, row.0@);
            }
            r.push((row.0.clone(), row.1.len()));
            i = i + 1;
        }
        assert forall|b: int, t: Seq<char>| #[trigger] tagged(bms, b, t) implies exists|q: int|
            0 <= q < r.len() && r@[q].0@ == t by {
            let q = choose|q: int| 0 <= q < self.tag_index@.len() && self.tag_index@[q].0@ == t;
            assert(r@[q].0@ == t);
        }
        r
    }

    /// The tags in use, each once, the most used first.
    pub fn tags_by_use(&self) -> (r: Vec<String>)
        requires
            self.wf(),
        ensures
            forall|i: int, j: int| 0 <= i < j < r.len() ==> r@[i]@ != r@[j]@,
            forall|i: int, j: int|
                0 <= i < j < r.len() ==> tag_count(self.bookmarks(), r@[i]@) >= tag_count(
                    self.bookmarks(),
                    r@[j]@,
                ),
            forall|i: int| 0 <= i < r.len() ==> tag_count(self.bookmarks(), #[trigger] r@[i]@) > 0,
            forall|b: int, t: Seq<char>|
                #[trigger] tagged(self.bookmarks(), b, t) ==> exists|i: int|
                    0 <= i < r.len() && r@[i]@ == t,
    {
        broadcast use vstd::seq_lib::group_to_multiset_ensures;

        let ghost bms = self.bookmarks();
        let counts = self.tag_counts();
        let n = counts.len();
        let mut pairs: Vec<(usize, usize)> = Vec::new();
        let mut i: usize = 0;
        while i < n
            invariant
                n == counts.len(),
                i <= n,
                pairs.len() == i,
                forall|j: int| 0 <= j < i ==> #[trigger] pairs@[j] == (counts@[j].1, j as usize),
            decreases n - i,
        {
            pairs.push((counts[i].1, i));
            i = i + 1;
        }
        assert(pairs@.no_duplicates());
        let ghost before = pairs@;
        let sorted = sort_by_first(pairs);
        proof {
            before.lemma_multiset_has_no_duplicates();
            sorted@.lemma_multiset_has_no_duplicates_conv();
        }
        assert forall|k: int| 0 <= k < sorted.len() implies (#[trigger] sorted@[k]).1 < n
            && sorted@[k].0 == counts@[sorted@[k].1 as int].1 by {
            assert(sorted@.contains(sorted@[k]));
            assert(sorted@.to_multiset().count(sorted@[k]) > 0);
            assert(before.to_multiset().count(sorted@[k]) > 0);
            assert(before.contains(sorted@[k]));
            let j = choose|j: int| 0 <= j < before.len() && before[j] == sorted@[k];
        }
        assert forall|a: int, b: int| 0 <= a < b < sorted.len() implies sorted@[a].1
            != sorted@[b].1 by {
            assert(sorted@[a] != sorted@[b]);
        }
        assert(sorted@.to_multiset().len() == sorted@.len());
        assert(before.to_multiset().len() == before.len());
        assert(sorted.len() == n);
        let mut r: Vec<String> = Vec::new();
        let mut k: usize = n;
        while k > 0
            invariant
                n == counts.len() == sorted.len(),
                k <= n,
                r.len() == n - k,
                forall|q: int| 0 <= q < sorted.len() ==> (#[trigger] sorted@[q]).1 < n,
                forall|j: int|
                    0 <= j < r.len() ==> (#[trigger] r@[j])@ == counts@[sorted@[n - 1 - j].1 as int].0@,
            decreases k,
        {
            let row = sorted[k - 1].1;
            r.push(counts[row].0.clone());
            k = k - 1;
        }
        assert forall|a: int, b: int| 0 <= a < b < r.len() implies r@[a]@ != r@[b]@ by {
            assert(sorted@[n - 1 - a].1 != sorted@[n - 1 - b].1);
        }
        assert forall|a: int, b: int| 0 <= a < b < r.len() implies tag_count(bms, r@[a]@)
            >= tag_count(bms, r@[b]@) by {
            assert(sorted@[n - 1 - b].0 <= sorted@[n - 1 - a].0);
        }
        assert forall|b: int, t: Seq<char>| #[trigger] tagged(bms, b, t) implies exists|j: int|
            0 <= j < r.len() && r@[j]@ == t by {
            let q = choose|q: int| 0 <= q < counts.len() && counts@[q].0@ == t;
            assert(before[q] == (counts@[q].1, q as usize));
            assert(before.contains(before[q]));
            assert(before.to_multiset().count(before[q]) > 0);
            assert(sorted@.to_multiset().count(before[q]) > 0);
            assert(sorted@.contains(before[q]));
            let m = choose|m: int| 0 <= m < sorted.len() && sorted@[m] == before[q];
            assert(r@[n - 1 - m]@ == t);
        }
        r
    }

    /// Sets the name of bookmark `id`.
    pub(crate) fn set_name_of(&mut self, id: usize, name: String)
        requires
            old(self).wf(),
            id < old(self).bookmarks().len(),
        ensures
            final(self).wf(),
            final(self).bookmarks() == old(self).bookmarks().update(
                id as int,
                BookmarkView { name: name@, ..old(self).bookmarks()[id as int] },
            ),
            final(self)@ == old(self)@.update(
                positions_of(old(self)@)[id as int],
                Some(EntryView::Bookmark(final(self).bookmarks()[id as int])),
            ),
    {
        let ghost log = self@;
        let ghost b = self.bookmarks()[id as int];
        let ghost nb = BookmarkView { name: name@, ..b };
        proof {
            lemma_positions(log);
            lemma_rewrite(log, id as int, nb);
            lemma_table_same_tags(self.tag_index@, self.bookmarks(), self.bookmarks().update(id as int, nb));
        }
        let pos = self.bookmark_index[id];
        assert(self.bookmark_index@.map_values(|p: usize| p as int)[id as int] == pos);
        match &mut self.entries[pos] {
            Some(Entry::Bookmark(bm)) => {
                bm.set_name(name);
            },
            _ => {
                assert(false);
            },
        }
        assert(self@ =~= log.update(pos as int, Some(EntryView::Bookmark(nb))));
        assert(self.bookmark_index@.map_values(|p: usize| p as int) =~= positions_of(self@));
    }

    /// Sets the URL of bookmark `id`.
    pub(crate) fn set_url_of(&mut self, id: usize, url: String)
        requires
            old(self).wf(),
            id < old(self).bookmarks().len(),
        ensures
            final(self).wf(),
            final(self).bookmarks() == old(self).bookmarks().update(
                id as int,
                BookmarkView { url: url@, ..old(self).bookmarks()[id as int] },
            ),
            final(self)@ == old(self)@.update(
                positions_of(old(self)@)[id as int],
                Some(EntryView::Bookmark(final(self).bookmarks()[id as int])),
            ),
    {
        let ghost log = self@;
        let ghost b = self.bookmarks()[id as int];
        let ghost nb = BookmarkView { url: url@, ..b };
        proof {
            lemma_positions(log);
            lemma_rewrite(log, id as int, nb);
            lemma_table_same_tags(self.tag_index@, self.bookmarks(), self.bookmarks().update(id as int, nb));
        }
        let pos = self.bookmark_index[id];
        assert(self.bookmark_index@.map_values(|p: usize| p as int)[id as int] == pos);
        match &mut self.entries[pos] {
            Some(Entry::Bookmark(bm)) => {
                bm.set_url(url);
            },
            _ => {
                assert(false);
            },
        }
        assert(self@ =~= log.update(pos as int, Some(EntryView::Bookmark(nb))));
        assert(self.bookmark_index@.map_values(|p: usize| p as int) =~= positions_of(self@));
    }

    /// Sets the tags of bookmark `id` and refiles it in the tag index.
    pub(crate) fn set_tags_of(&mut self, id: usize, tags: Vec<String>)
        requires
            old(self).wf(),
            id < old(self).bookmarks().len(),
        ensures
            final(self).wf(),
            final(self).bookmarks() == old(self).bookmarks().update(
                id as int,
                BookmarkView { tags: texts(tags@), ..old(self).bookmarks()[id as int] },
            ),
            final(self)@ == old(self)@.update(
                positions_of(old(self)@)[id as int],
                Some(EntryView::Bookmark(final(self).bookmarks()[id as int])),
            ),
    {
        let ghost log = self@;
        let ghost bms = self.bookmarks();
        let ghost b = bms[id as int];
        let ghost nb = BookmarkView { tags: texts(tags@), ..b };
        let ghost nbms = bms.update(id as int, nb);
        proof {
            lemma_positions(log);
            lemma_rewrite(log, id as int, nb);
        }
        strip_table(&mut self.tag_index, Ghost(bms), id, false);
        assert(with_tags(nbms, id as int, Seq::empty()) =~= stripped(bms, id as int, false));
        assert(nbms[id as int].tags == texts(tags@));
        index_tags(&mut self.tag_index, Ghost(nbms), id, &tags);
        let pos = self.bookmark_index[id];
        assert(self.bookmark_index@.map_values(|p: usize| p as int)[id as int] == pos);
        match &mut self.entries[pos] {
            Some(Entry::Bookmark(bm)) => {
                bm.set_tags(tags);
            },
            _ => {
                assert(false);
            },
        }
        assert(self@ =~= log.update(pos as int, Some(EntryView::Bookmark(nb))));
        assert(self.bookmark_index@.map_values(|p: usize| p as int) =~= positions_of(self@));
    }

    /// Remove a bookmark by bookmark ID
    pub fn remove(&mut self, bookmark_id: usize) -> (r: Option<Bookmark>)
        requires
            old(self).wf(),
        ensures
            final(self).wf(),
            bookmark_id < old(self).bookmarks().len() ==> {
                &&& r is Some
                &&& r->0@ == old(self).bookmarks()[bookmark_id as int]
                &&& final(self)@ == old(self)@.update(
                    positions_of(old(self)@)[bookmark_id as int],
                    None,
                )
                &&& final(self).bookmarks() == old(self).bookmarks().remove(bookmark_id as int)
            },
            bookmark_id >= old(self).bookmarks().len() ==> r is None && final(self)@ == old(
                self,
            )@,
    {
        proof {
            lemma_positions(self@);
        }
        if bookmark_id >= self.bookmark_index.len() {
            return None;
        }
        let ghost log = self@;
        let ghost bms = self.bookmarks();
        let pos = self.bookmark_index[bookmark_id];
        assert(pos == positions_of(log)[bookmark_id as int]);
        let removed = self.entries[pos].take();
        proof {
            lemma_tombstone(log, bookmark_id as int);
        }
        assert(self@ =~= log.update(pos as int, None));
        strip_table(&mut self.tag_index, Ghost(bms), bookmark_id, true);
        self.bookmark_index.remove(bookmark_id);
        assert(self.bookmark_index@.map_values(|p: usize| p as int) =~= positions_of(self@));
        match removed {
            Some(entry) => entry.into_bookmark(),
            None => None,
        }
    }
}

impl Default for Store {
    fn default() -> (r: Self)
        ensures
            r.wf(),
            r@ == Seq::<Option<EntryView>>::empty(),
    {
        Self::new()
    }
}

/// Removing the bookmark with ID `k` leaves no bookmark at `k` when `k` was the last ID,
/// keeps the IDs below `k`, and moves every bookmark above `k` down by exactly one ID.
pub proof fn lemma_remove_shifts_ids(bms: Seq<BookmarkView>, k: int)
    requires
        0 <= k < bms.len(),
    ensures
        k == bms.len() - 1 ==> k >= bms.remove(k).len(),
        bms.remove(k).len() == bms.len() - 1,
        forall|j: int| 0 <= j < k ==> bms.remove(k)[j] == bms[j],
        forall|j: int| k < j < bms.len() ==> bms.remove(k)[j - 1] == bms[j],
{
}

/// A store whose entries all came from parsing lines round-trips through its text form:
/// every saved line parses, and loading the saved lines into an empty store gives back the
/// live entries in log order, without tombstones, and so the same bookmarks in the same order.
pub proof fn lemma_save_load_round_trip(log: Seq<Option<EntryView>>)
    requires
        forall|p: int|
            0 <= p < log.len() && #[trigger] log[p] is Some ==> exists|l: Seq<char>|
                parse_line(l) == Ok::<EntryView, ParseErrorView>(log[p]->0),
    ensures
        all_parse(saved_lines(log)),
        loaded(saved_lines(log)) == live_entries(log),
        bookmarks_in(loaded(saved_lines(log))) == bookmarks_in(log),
    decreases log.len(),
{
    if log.len() > 0 {
        let front = log.drop_last();
        assert forall|p: int| 0 <= p < front.len() && #[trigger] front[p] is Some implies exists|
            l: Seq<char>,
        | parse_line(l) == Ok::<EntryView, ParseErrorView>(front[p]->0) by {
            assert(log[p] == front[p]);
        }
        lemma_save_load_round_trip(front);
        let lines = saved_lines(front);
        match log.last() {
            Some(e) => {
                assert(log[log.len() - 1] is Some);
                let l = choose|l: Seq<char>|
                    parse_line(l) == Ok::<EntryView, ParseErrorView>(e);
                lemma_entry_round_trip(l);
                let all = lines.push(entry_line(e));
                assert(saved_lines(log) == all);
                assert forall|i: int| 0 <= i < all.len() implies (#[trigger] parse_line(
                    all[i],
                )) is Ok by {
                    if i < lines.len() {
                        assert(all[i] == lines[i]);
                    }
                }
                assert(loaded(all) =~= loaded(lines).push(Some(e)));
                assert(loaded(all).drop_last() =~= loaded(lines));
            },
            None => {},
        }
    }
}

} // verus!
