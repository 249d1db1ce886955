//! The tag index: for each tag, the increasing list of bookmark IDs that carry it.

use vstd::prelude::*;

use crate::bookmark::{texts, BookmarkView};

verus! {

/// Bookmark `b` of `bms` carries tag `t`.
pub open spec fn tagged(bms: Seq<BookmarkView>, b: int, t: Seq<char>) -> bool {
    0 <= b < bms.len() && bms[b].tags.contains(t)
}

/// `ids` lists, in increasing order, exactly the bookmarks of `bms` that carry `t`.
pub open spec fn lists_tagged(ids: Seq<usize>, bms: Seq<BookmarkView>, t: Seq<char>) -> bool {
    &&& forall|i: int, j: int| 0 <= i < j < ids.len() ==> ids[i] < ids[j]
    &&& forall|i: int| 0 <= i < ids.len() ==> #[trigger] tagged(bms, ids[i] as int, t)
    &&& forall|b: int|
        #[trigger] tagged(bms, b, t) ==> exists|i: int| 0 <= i < ids.len() && ids[i] == b
}

/// `table` has one row per tag in use, with distinct tags, each row listing exactly the
/// bookmarks of `bms` that carry its tag.
pub open spec fn table_ok(table: Seq<(String, Vec<usize>)>, bms: Seq<BookmarkView>) -> bool {
    &&& forall|i: int, j: int| 0 <= i < j < table.len() ==> table[i].0@ != table[j].0@
    &&& forall|i: int|
        0 <= i < table.len() ==> {
            &&& (#[trigger] table[i]).1@.len() > 0
            &&& lists_tagged(table[i].1@, bms, table[i].0@)
        }
    &&& forall|b: int, t: Seq<char>|
        #[trigger] tagged(bms, b, t) ==> exists|i: int| 0 <= i < table.len() && table[i].0@ == t
}

/// `bms` with the tags of bookmark `k` replaced by `tags`.
pub open spec fn with_tags(bms: Seq<BookmarkView>, k: int, tags: Seq<Seq<char>>) -> Seq<
    BookmarkView,
> {
    bms.update(k, BookmarkView { tags, ..bms[k] })
}

/// Where ID `y` goes when bookmark `k` leaves the tag index; `shift` when the IDs above `k`
/// move down by one.
pub open spec fn moved(y: int, k: int, shift: bool) -> int {
    if shift && y > k {
        y - 1
    } else {
        y
    }
}

/// The ID that `b` had before bookmark `k` left the tag index.
pub open spec fn source(b: int, k: int, shift: bool) -> int {
    if shift && b >= k {
        b + 1
    } else {
        b
    }
}

/// The number of bookmarks of `bms` that carry `t`.
pub open spec fn tag_count(bms: Seq<BookmarkView>, t: Seq<char>) -> nat
    decreases bms.len(),
{
    if bms.len() == 0 {
        0
    } else {
        tag_count(bms.drop_last(), t) + if bms.last().tags.contains(t) {
            1nat
        } else {
            0nat
        }
    }
}

/// A list of exactly the bookmarks that carry `t` is as long as their number.
pub proof fn lemma_tag_count(ids: Seq<usize>, bms: Seq<BookmarkView>, t: Seq<char>)
    requires
        lists_tagged(ids, bms, t),
    ensures
        ids.len() == tag_count(bms, t),
    decreases bms.len(),
{
    if bms.len() > 0 {
        let n = bms.len() - 1;
        let front = bms.drop_last();
        assert forall|b: int, u: Seq<char>| b < n implies #[trigger] tagged(front, b, u) == tagged(
            bms,
            b,
            u,
        ) by {}
        if bms.last().tags.contains(t) {
            assert(tagged(bms, n, t));
            let w = choose|w: int| 0 <= w < ids.len() && ids[w] == n;
            if w < ids.len() - 1 {
                assert(tagged(bms, ids[ids.len() - 1] as int, t));
                assert(ids[w] < ids[ids.len() - 1]);
            }
            let rest = ids.drop_last();
            assert forall|b: int| #[trigger] tagged(front, b, t) implies exists|i: int|
                0 <= i < rest.len() && rest[i] == b by {
                assert(tagged(bms, b, t));
                let i = choose|i: int| 0 <= i < ids.len() && ids[i] == b;
                assert(i != ids.len() - 1);
                assert(rest[i] == b);
            }
            assert forall|i: int| 0 <= i < rest.len() implies #[trigger] tagged(
                front,
                rest[i] as int,
                t,
            ) by {
                assert(tagged(bms, ids[i] as int, t));
                assert(ids[i] < ids[ids.len() - 1]);
            }
            assert(ids[ids.len() - 1] == n);
            assert(lists_tagged(rest, front, t));
            lemma_tag_count(rest, front, t);
            assert(tag_count(bms, t) == tag_count(front, t) + 1);
        } else {
            assert forall|i: int| 0 <= i < ids.len() implies #[trigger] tagged(
                front,
                ids[i] as int,
                t,
            ) by {
                assert(tagged(bms, ids[i] as int, t));
            }
            assert forall|b: int| #[trigger] tagged(front, b, t) implies exists|i: int|
                0 <= i < ids.len() && ids[i] == b by {
                assert(tagged(bms, b, t));
            }
            assert(lists_tagged(ids, front, t));
            lemma_tag_count(ids, front, t);
            assert(tag_count(bms, t) == tag_count(front, t));
        }
    } else if ids.len() > 0 {
        assert(tagged(bms, ids[0] as int, t));
    }
}

/// A bookmark with no tags joins the tag index without changing it.
pub proof fn lemma_table_extend(table: Seq<(String, Vec<usize>)>, bms: Seq<BookmarkView>, b: BookmarkView)
    requires
        table_ok(table, bms),
    ensures
        table_ok(table, with_tags(bms.push(b), bms.len() as int, Seq::empty())),
{
    let ext = with_tags(bms.push(b), bms.len() as int, Seq::empty());
    assert forall|x: int, t: Seq<char>| #[trigger] tagged(ext, x, t) <==> tagged(bms, x, t) by {
        if x == bms.len() {
            assert(!Seq::<Seq<char>>::empty().contains(t));
        }
    }
    assert forall|i: int| 0 <= i < table.len() implies lists_tagged(
        (#[trigger] table[i]).1@,
        ext,
        table[i].0@,
    ) by {
        assert(lists_tagged(table[i].1@, bms, table[i].0@));
    }
}

/// The tag index depends on the bookmarks' tags alone.
pub proof fn lemma_table_same_tags(
    table: Seq<(String, Vec<usize>)>,
    bms: Seq<BookmarkView>,
    other: Seq<BookmarkView>,
)
    requires
        table_ok(table, bms),
        bms.len() == other.len(),
        forall|i: int| 0 <= i < bms.len() ==> bms[i].tags == other[i].tags,
    ensures
        table_ok(table, other),
{
    assert forall|x: int, t: Seq<char>| #[trigger] tagged(other, x, t) <==> tagged(bms, x, t) by {}
    assert forall|i: int| 0 <= i < table.len() implies lists_tagged(
        (#[trigger] table[i]).1@,
        other,
        table[i].0@,
    ) by {
        assert(lists_tagged(table[i].1@, bms, table[i].0@));
    }
}

/// The row of `tag` in `table`.
pub(crate) fn find_row(table: &Vec<(String, Vec<usize>)>, tag: &String) -> (r: Option<usize>)
    ensures
        match r {
            Some(i) => i < table.len() && table@[i as int].0@ == tag@,
            None => forall|i: int| 0 <= i < table.len() ==> table@[i].0@ != tag@,
        },
{
    let mut i: usize = 0;
    while i < table.len()
        invariant
            i <= table.len(),
            forall|j: int| 0 <= j < i ==> table@[j].0@ != tag@,
        decreases table.len() - i,
    {
        if table[i].0 == *tag {
            return Some(i);
        }
        i = i + 1;
    }
    None
}

/// Inserts `k` into the increasing list `ids`, unless it is there already.
fn insert_id(ids: &mut Vec<usize>, k: usize)
    requires
        forall|i: int, j: int| 0 <= i < j < old(ids).len() ==> old(ids)@[i] < old(ids)@[j],
    ensures
        forall|i: int, j: int| 0 <= i < j < final(ids).len() ==> final(ids)@[i] < final(ids)@[j],
        forall|x: usize| final(ids)@.contains(x) <==> (old(ids)@.contains(x) || x == k),
{
    let mut p: usize = 0;
    while p < ids.len() && ids[p] < k
        invariant
            p <= ids.len(),
            forall|i: int| 0 <= i < p ==> ids@[i] < k,
        decreases ids.len() - p,
    {
        p = p + 1;
    }
    if p < ids.len() && ids[p] == k {
        assert(ids@[p as int] == k);
        return;
    }
    proof {
        lemma_insert_contains(ids@, p as int, k);
    }
    ids.insert(p, k);
}

proof fn lemma_insert_contains(s: Seq<usize>, p: int, k: usize)
    requires
        0 <= p <= s.len(),
    ensures
        forall|x: usize| #[trigger] s.insert(p, k).contains(x) <==> (s.contains(x) || x == k),
{
    let t = s.insert(p, k);
    assert forall|x: usize| #[trigger] t.contains(x) <==> (s.contains(x) || x == k) by {
        if t.contains(x) {
            let i = choose|i: int| 0 <= i < t.len() && t[i] == x;
            if i < p {
                assert(s[i] == x);
            } else if i > p {
                assert(s[i - 1] == x);
            }
        }
        if s.contains(x) {
            let i = choose|i: int| 0 <= i < s.len() && s[i] == x;
            if i < p {
                assert(t[i] == x);
            } else {
                assert(t[i + 1] == x);
            }
        }
        if x == k {
            assert(t[p] == x);
        }
    }
}

proof fn lemma_push_contains(s: Seq<Seq<char>>, x: Seq<char>, y: Seq<char>)
    ensures
        s.push(x).contains(y) <==> (s.contains(y) || x == y),
{
    if s.push(x).contains(y) {
        let i = choose|i: int| 0 <= i < s.push(x).len() && s.push(x)[i] == y;
        if i < s.len() {
            assert(s[i] == y);
        }
    }
    if s.contains(y) {
        let i = choose|i: int| 0 <= i < s.len() && s[i] == y;
        assert(s.push(x)[i] == y);
    }
    if x == y {
        assert(s.push(x)[s.len() as int] == y);
    }
}

/// Adds bookmark `k`, whose tags are `tags`, to the rows of those tags.
pub(crate) fn index_tags(
    table: &mut Vec<(String, Vec<usize>)>,
    Ghost(bms): Ghost<Seq<BookmarkView>>,
    k: usize,
    tags: &Vec<String>,
)
    requires
        k < bms.len(),
        bms[k as int].tags == texts(tags@),
        table_ok(old(table)@, with_tags(bms, k as int, Seq::empty())),
    ensures
        table_ok(final(table)@, bms),
{
    let ghost all = texts(tags@);
    let mut j: usize = 0;
    assert(all.take(0) =~= Seq::<Seq<char>>::empty());
    while j < tags.len()
        invariant
            j <= tags.len(),
            k < bms.len(),
            all == texts(tags@),
            table_ok(table@, with_tags(bms, k as int, all.take(j as int))),
        decreases tags.len() - j,
    {
        let ghost t = tags@[j as int]@;
        let ghost cur = with_tags(bms, k as int, all.take(j as int));
        let ghost nxt = with_tags(bms, k as int, all.take(j + 1));
        proof {
            assert(all.take(j + 1) =~= all.take(j as int).push(t));
            assert forall|b: int, u: Seq<char>|
                #[trigger] tagged(nxt, b, u) <==> (tagged(cur, b, u) || (b == k && u == t)) by {
                lemma_push_contains(all.take(j as int), t, u);
            }
        }
        let ghost old_table = table@;
        match find_row(table, &tags[j]) {
            Some(i) => {
                let ghost old_ids = table@[i as int].1@;
                insert_id(&mut table[i].1, k);
                let ghost new_ids = table@[i as int].1@;
                assert(table@.len() == old_table.len());
                assert(table@[i as int].0 == old_table[i as int].0);
                assert(forall|r: int| 0 <= r < table@.len() && r != i ==> table@[r] == old_table[r]);
                assert(new_ids.contains(k));
                assert forall|x: int| 0 <= x < new_ids.len() implies #[trigger] tagged(
                    nxt,
                    new_ids[x] as int,
                    t,
                ) by {
                    assert(new_ids.contains(new_ids[x]));
                    if new_ids[x] != k {
                        assert(old_ids.contains(new_ids[x]));
                    }
                }
                assert forall|b: int| #[trigger] tagged(nxt, b, t) implies exists|x: int|
                    0 <= x < new_ids.len() && new_ids[x] == b by {
                    if b != k {
                        assert(tagged(cur, b, t));
                        let y = choose|y: int| 0 <= y < old_ids.len() && old_ids[y] == b;
                        assert(old_ids.contains(old_ids[y]));
                        assert(new_ids.contains(b as usize));
                    } else {
                        assert(new_ids.contains(k));
                    }
                }
                assert(lists_tagged(new_ids, nxt, t));
                assert forall|r: int| 0 <= r < table@.len() && r != i implies lists_tagged(
                    (#[trigger] table@[r]).1@,
                    nxt,
                    table@[r].0@,
                ) by {
                    assert(table@[r] == old_table[r]);
                    assert(table@[r].0@ != t);
                    assert(lists_tagged(old_table[r].1@, cur, old_table[r].0@));
                }
                assert forall|b: int, u: Seq<char>| #[trigger] tagged(nxt, b, u) implies exists|
                    r: int,
                | 0 <= r < table@.len() && table@[r].0@ == u by {
                    if u == t {
                        assert(table@[i as int].0@ == u);
                    } else {
                        assert(tagged(cur, b, u));
                        let r = choose|r: int| 0 <= r < old_table.len() && old_table[r].0@ == u;
                        assert(table@[r].0@ == u);
                    }
                }
                assert forall|r1: int, r2: int| 0 <= r1 < r2 < table@.len() implies table@[r1].0@
                    != table@[r2].0@ by {
                    assert(old_table[r1].0@ != old_table[r2].0@);
                }
                assert(table_ok(table@, nxt));
            },
            None => {
                let key = tags[j].clone();
                table.push((key, vec![k]));
                let ghost n = old_table.len();
                assert(table@[n as int].0@ == t);
                assert(forall|r: int| 0 <= r < n ==> table@[r] == old_table[r]);
                let ghost new_ids = table@[n as int].1@;
                assert(new_ids =~= seq![k]);
                assert forall|b: int| #[trigger] tagged(nxt, b, t) implies exists|x: int|
                    0 <= x < new_ids.len() && new_ids[x] == b by {
                    if b != k {
                        assert(tagged(cur, b, t));
                        assert(false);
                    }
                    assert(new_ids[0] == b);
                }
                assert(lists_tagged(new_ids, nxt, t));
                assert forall|r: int| 0 <= r < n implies lists_tagged(
                    (#[trigger] table@[r]).1@,
                    nxt,
                    table@[r].0@,
                ) by {
                    assert(table@[r] == old_table[r]);
                    assert(lists_tagged(old_table[r].1@, cur, old_table[r].0@));
                }
                assert forall|b: int, u: Seq<char>| #[trigger] tagged(nxt, b, u) implies exists|
                    r: int,
                | 0 <= r < table@.len() && table@[r].0@ == u by {
                    if u == t {
                        assert(table@[n as int].0@ == u);
                    } else {
                        assert(tagged(cur, b, u));
                        let r = choose|r: int| 0 <= r < old_table.len() && old_table[r].0@ == u;
                        assert(table@[r].0@ == u);
                    }
                }
                assert forall|r1: int, r2: int| 0 <= r1 < r2 < table@.len() implies table@[r1].0@
                    != table@[r2].0@ by {
                    if r2 < n {
                        assert(old_table[r1].0@ != old_table[r2].0@);
                    }
                }
                assert(table_ok(table@, nxt));
            },
        }
        j = j + 1;
    }
    assert(all.take(tags.len() as int) =~= all);
    assert(with_tags(bms, k as int, all) =~= bms);
}

/// `ids` without `k`, each remaining ID moved as `moved` says.
#[verifier::spinoff_prover]
fn strip_ids(ids: &Vec<usize>, k: usize, shift: bool) -> (r: Vec<usize>)
    requires
        forall|i: int, j: int| 0 <= i < j < ids.len() ==> ids@[i] < ids@[j],
    ensures
        forall|i: int, j: int| 0 <= i < j < r.len() ==> r@[i] < r@[j],
        forall|i: int|
            0 <= i < r.len() ==> source(#[trigger] r@[i] as int, k as int, shift) != k
                && exists|w: int|
                0 <= w < ids.len() && ids@[w] as int == source(r@[i] as int, k as int, shift),
        forall|y: usize|
            #[trigger] ids@.contains(y) && y != k ==> r@.contains(
                moved(y as int, k as int, shift) as usize,
            ),
{
    let mut r: Vec<usize> = Vec::new();
    let mut j: usize = 0;
    while j < ids.len()
        invariant
            j <= ids.len(),
            forall|i: int, j: int| 0 <= i < j < ids.len() ==> ids@[i] < ids@[j],
            forall|i: int, j: int| 0 <= i < j < r.len() ==> r@[i] < r@[j],
            r.len() > 0 ==> forall|jj: int|
                j <= jj < ids.len() && ids@[jj] != k ==> r@.last() < moved(
                    #[trigger] ids@[jj] as int,
                    k as int,
                    shift,
                ),
            forall|i: int|
                0 <= i < r.len() ==> source(#[trigger] r@[i] as int, k as int, shift) != k
                    && exists|w: int|
                    0 <= w < ids.len() && ids@[w] as int == source(r@[i] as int, k as int, shift),
            forall|jj: int|
                0 <= jj < j && ids@[jj] != k ==> r@.contains(
                    moved(#[trigger] ids@[jj] as int, k as int, shift) as usize,
                ),
        decreases ids.len() - j,
    {
        let y = ids[j];
        if y != k {
            let m = if shift && y > k {
                y - 1
            } else {
                y
            };
            let ghost before = r@;
            r.push(m);
            assert(ids@.contains(ids@[j as int]));
            assert(r@[before.len() as int] == m);
            assert(source(m as int, k as int, shift) == ids@[j as int]);
            assert forall|jj: int|
                0 <= jj < j + 1 && ids@[jj] != k implies r@.contains(
                moved(#[trigger] ids@[jj] as int, k as int, shift) as usize,
            ) by {
                if jj < j {
                    let i = choose|i: int|
                        0 <= i < before.len() && before[i] == moved(
                            ids@[jj] as int,
                            k as int,
                            shift,
                        ) as usize;
                    assert(r@[i] == before[i]);
                }
            }
        }
        j = j + 1;
    }
    assert forall|y: usize| #[trigger] ids@.contains(y) && y != k implies r@.contains(
        moved(y as int, k as int, shift) as usize,
    ) by {
        let jj = choose|jj: int| 0 <= jj < ids.len() && ids@[jj] == y;
    }
    r
}

/// The bookmarks that the tag index describes once bookmark `k` has left it: `shift` when
/// `k` is removed and the IDs above it move down, else `k` stays with no tags.
pub open spec fn stripped(bms: Seq<BookmarkView>, k: int, shift: bool) -> Seq<BookmarkView> {
    if shift {
        bms.remove(k)
    } else {
        with_tags(bms, k, Seq::empty())
    }
}

proof fn lemma_stripped(bms: Seq<BookmarkView>, k: int, shift: bool)
    requires
        0 <= k < bms.len(),
    ensures
        forall|b: int, t: Seq<char>|
            #[trigger] tagged(stripped(bms, k, shift), b, t) <==> (tagged(
                bms,
                source(b, k, shift),
                t,
            ) && source(b, k, shift) != k),
{
    let s = stripped(bms, k, shift);
    assert forall|b: int, t: Seq<char>|
        #[trigger] tagged(s, b, t) <==> (tagged(bms, source(b, k, shift), t) && source(
            b,
            k,
            shift,
        ) != k) by {
        if !shift && b == k {
            assert(!Seq::<Seq<char>>::empty().contains(t));
        }
    }
}

/// Takes bookmark `k` out of every row, moving the IDs as `moved` says, and drops rows left
/// empty.
pub(crate) fn strip_table(
    table: &mut Vec<(String, Vec<usize>)>,
    Ghost(bms): Ghost<Seq<BookmarkView>>,
    k: usize,
    shift: bool,
)
    requires
        k < bms.len(),
        table_ok(old(table)@, bms),
    ensures
        table_ok(final(table)@, stripped(bms, k as int, shift)),
{
    let ghost target = stripped(bms, k as int, shift);
    proof {
        lemma_stripped(bms, k as int, shift);
    }
    let mut fresh: Vec<(String, Vec<usize>)> = Vec::new();
    let mut i: usize = 0;
    while i < table.len()
        invariant
            i <= table.len(),
            k < bms.len(),
            target == stripped(bms, k as int, shift),
            table_ok(table@, bms),
            forall|b: int, t: Seq<char>|
                #[trigger] tagged(target, b, t) <==> (tagged(bms, source(b, k as int, shift), t)
                    && source(b, k as int, shift) != k),
            forall|q: int|
                0 <= q < fresh.len() ==> exists|r: int|
                    0 <= r < i && (#[trigger] fresh@[q]).0@ == table@[r].0@,
            forall|q1: int, q2: int|
                0 <= q1 < q2 < fresh.len() ==> fresh@[q1].0@ != fresh@[q2].0@,
            forall|q: int|
                0 <= q < fresh.len() ==> {
                    &&& (#[trigger] fresh@[q]).1@.len() > 0
                    &&& lists_tagged(fresh@[q].1@, target, fresh@[q].0@)
                },
            forall|r: int, b: int|
                0 <= r < i && #[trigger] tagged(target, b, table@[r].0@) ==> exists|q: int|
                    0 <= q < fresh.len() && fresh@[q].0@ == table@[r].0@,
        decreases table.len() - i,
    {
        let ghost key = table@[i as int].0@;
        let ghost ids = table@[i as int].1@;
        let kept = strip_ids(&table[i].1, k, shift);
        let ghost before = fresh@;
        assert forall|x: int| 0 <= x < kept.len() implies #[trigger] tagged(
            target,
            kept@[x] as int,
            key,
        ) by {
            let y = source(kept@[x] as int, k as int, shift);
            let w = choose|w: int| 0 <= w < ids.len() && ids[w] as int == y;
            assert(tagged(bms, ids[w] as int, key));
        }
        assert forall|b: int| #[trigger] tagged(target, b, key) implies exists|x: int|
            0 <= x < kept.len() && kept@[x] == b by {
            let y = source(b, k as int, shift);
            assert(tagged(bms, y, key));
            let w = choose|w: int| 0 <= w < ids.len() && ids[w] == y;
            assert(ids.contains(ids[w]));
            assert(kept@.contains(moved(ids[w] as int, k as int, shift) as usize));
        }
        if kept.len() > 0 {
            let name = table[i].0.clone();
            fresh.push((name, kept));
            assert(fresh@[before.len() as int].0@ == key);
            assert(forall|q: int| 0 <= q < before.len() ==> fresh@[q] == before[q]);
            assert forall|q1: int, q2: int| 0 <= q1 < q2 < fresh.len() implies fresh@[q1].0@
                != fresh@[q2].0@ by {
                if q2 == before.len() {
                    let r = choose|r: int| 0 <= r < i && before[q1].0@ == table@[r].0@;
                    assert(table@[r].0@ != table@[i as int].0@);
                }
            }
            assert forall|q: int| 0 <= q < fresh.len() implies exists|r: int|
                0 <= r < i + 1 && (#[trigger] fresh@[q]).0@ == table@[r].0@ by {
                if q < before.len() {
                    let r = choose|r: int| 0 <= r < i && before[q].0@ == table@[r].0@;
                } else {
                    assert(fresh@[q].0@ == table@[i as int].0@);
                }
            }
            assert forall|r: int, b: int|
                0 <= r < i + 1 && #[trigger] tagged(target, b, table@[r].0@) implies exists|
                q: int,
            | 0 <= q < fresh.len() && fresh@[q].0@ == table@[r].0@ by {
                if r < i {
                    let q = choose|q: int| 0 <= q < before.len() && before[q].0@ == table@[r].0@;
                    assert(fresh@[q] == before[q]);
                } else {
                    assert(fresh@[before.len() as int].0@ == table@[r].0@);
                }
            }
        } else {
            assert forall|r: int, b: int|
                0 <= r < i + 1 && #[trigger] tagged(target, b, table@[r].0@) implies exists|
                q: int,
            | 0 <= q < fresh.len() && fresh@[q].0@ == table@[r].0@ by {
                if r == i {
                    assert(tagged(target, b, key));
                    assert(false);
                }
            }
        }
        i = i + 1;
    }
    assert forall|b: int, t: Seq<char>| #[trigger] tagged(target, b, t) implies exists|q: int|
        0 <= q < fresh.len() && fresh@[q].0@ == t by {
        let y = source(b, k as int, shift);
        assert(tagged(bms, y, t));
        let r = choose|r: int| 0 <= r < table.len() && table@[r].0@ == t;
        assert(tagged(target, b, table@[r].0@));
    }
    *table = fresh;
}

} // verus!
