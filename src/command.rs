//! What the command layer decides before it reaches the store: splitting a command line
//! into words, reading bookmark IDs, and the errors it reports for bad arguments.

use vstd::prelude::*;

use crate::bookmark::texts;
use crate::text::chars_of;

verus! {

/// The arguments do not fit the command.
pub struct InvalidArguments;

/// A required argument is missing; it holds the argument's name.
pub struct MissingArgument(pub String);

/// An argument cannot be used; it holds the argument.
pub struct InvalidArgument(pub String);

/// The words that `shlex::Shlex` splits `line` into, by POSIX shell rules.
pub uninterp spec fn shell_words(line: Seq<char>) -> Seq<Seq<char>>;

/// Relies on `shlex::Shlex`: splits a line into words by POSIX shell rules and ends at the
/// first malformed word; the words depend on the line alone.
#[verifier::external_body]
fn split_words(line: &str) -> (r: Vec<String>)
    ensures
        texts(r@) == shell_words(line@),
{
    shlex::Shlex::new(line).collect()
}

/// The first word as the command's name and the other words as its arguments, or `None`
/// when there are no words.
pub fn split_command(words: Vec<String>) -> (r: Option<(String, Vec<String>)>)
    ensures
        match r {
            Some((name, args)) => words.len() > 0 && name@ == words@[0]@ && texts(args@)
                == texts(words@).drop_first(),
            None => words.len() == 0,
        },
{
    let mut words = words;
    if words.len() == 0 {
        return None;
    }
    let ghost all = texts(words@);
    let name = words.remove(0);
    assert(texts(words@) =~= all.drop_first());
    Some((name, words))
}

/// Splits a command line into the command's name and its arguments, or `None` when the
/// line holds no word.
pub fn parse_command_line(line: &str) -> (r: Option<(String, Vec<String>)>)
    ensures
        match r {
            Some((name, args)) => shell_words(line@).len() > 0 && name@ == shell_words(line@)[0]
                && texts(args@) == shell_words(line@).drop_first(),
            None => shell_words(line@).len() == 0,
        },
{
    let words = split_words(line);
    proof {
        assert(texts(words@).len() == words@.len());
        if words@.len() > 0 {
            assert(texts(words@)[0] == words@[0]@);
        }
    }
    split_command(words)
}

/// An ASCII decimal digit.
pub open spec fn is_digit(c: char) -> bool {
    '0' <= c <= '9'
}

/// The number that a run of decimal digits writes.
pub open spec fn digits_value(s: Seq<char>) -> int
    decreases s.len(),
{
    if s.len() == 0 {
        0
    } else {
        digits_value(s.drop_last()) * 10 + (s.last() as u32 - '0' as u32)
    }
}

/// The digits of an unsigned number: `s` without one leading `+`.
pub open spec fn unsigned_digits(s: Seq<char>) -> Seq<char> {
    if s.len() > 0 && s[0] == '+' {
        s.drop_first()
    } else {
        s
    }
}

/// The ID that `s` writes, as an unsigned decimal number with an optional `+` that fits
/// in `usize`, or `None`.
pub open spec fn id_of(s: Seq<char>) -> Option<int> {
    let d = unsigned_digits(s);
    if d.len() > 0 && (forall|i: int| 0 <= i < d.len() ==> is_digit(#[trigger] d[i]))
        && digits_value(d) <= usize::MAX {
        Some(digits_value(d))
    } else {
        None
    }
}

proof fn lemma_digits_grow(s: Seq<char>, i: int)
    requires
        0 <= i <= s.len(),
        forall|k: int| 0 <= k < s.len() ==> is_digit(#[trigger] s[k]),
    ensures
        digits_value(s.take(i)) <= digits_value(s),
        0 <= digits_value(s.take(i)),
    decreases s.len() - i,
{
    if i < s.len() {
        lemma_digits_grow(s, i + 1);
        assert(s.take(i + 1).drop_last() =~= s.take(i));
    } else {
        assert(s.take(i) =~= s);
        lemma_digits_nonneg(s);
    }
}

proof fn lemma_digits_nonneg(s: Seq<char>)
    requires
        forall|k: int| 0 <= k < s.len() ==> is_digit(#[trigger] s[k]),
    ensures
        0 <= digits_value(s),
    decreases s.len(),
{
    if s.len() > 0 {
        lemma_digits_nonneg(s.drop_last());
    }
}

/// Reads a bookmark ID: an unsigned decimal number with an optional leading `+`.
pub fn parse_id(text: &str) -> (r: Option<usize>)
    ensures
        match r {
            Some(n) => id_of(text@) == Some(n as int),
            None => id_of(text@) is None,
        },
{
    let cs = chars_of(text);
    let start: usize = if cs.len() > 0 && cs[0] == '+' {
        1
    } else {
        0
    };
    let ghost d = unsigned_digits(text@);
    assert(d =~= cs@.skip(start as int));
    if start == cs.len() {
        return None;
    }
    let mut value: usize = 0;
    let mut i = start;
    assert(d.take(0) =~= Seq::<char>::empty());
    while i < cs.len()
        invariant
            start <= i <= cs.len(),
            cs@ == text@,
            d == unsigned_digits(text@),
            d == cs@.skip(start as int),
            forall|k: int| 0 <= k < i - start ==> is_digit(#[trigger] d[k]),
            value == digits_value(d.take(i - start)),
        decreases cs.len() - i,
    {
        let c = cs[i];
        if !('0' <= c && c <= '9') {
            assert(!is_digit(d[i - start]));
            return None;
        }
        let next: u128 = (value as u128) * 10 + (c as u32 - '0' as u32) as u128;
        assert(d.take(i - start + 1).drop_last() =~= d.take(i - start));
        assert(next == digits_value(d.take(i - start + 1)));
        if next > usize::MAX as u128 {
            proof {
                if forall|k: int| 0 <= k < d.len() ==> is_digit(#[trigger] d[k]) {
                    lemma_digits_grow(d, i - start + 1);
                }
            }
            return None;
        }
        value = next as usize;
        i = i + 1;
    }
    assert(d.take(i - start) =~= d);
    Some(value)
}

} // verus!
