//! Cutting text into lines, columns and words.
use crate::text::{is_space, is_white_space, same_chars, string_of};
use vstd::prelude::*;
use vstd::slice::slice_subrange;

verus! {

// ── First occurrences ─────────────────────────────────────────────────────────

/// The number of characters in front of the first `c` in `s`; the whole length where there is
/// none.
pub open spec fn until_char(s: Seq<char>, c: char) -> nat
    decreases s.len(),
{
    if s.len() == 0 || s[0] == c {
        0
    } else {
        1 + until_char(s.drop_first(), c)
    }
}

/// What makes `n` the distance to the first `c`.
pub proof fn lemma_until_char(s: Seq<char>, c: char, n: int)
    requires
        0 <= n <= s.len(),
        n < s.len() ==> s[n] == c,
        forall|i: int| 0 <= i < n ==> s[i] != c,
    ensures
        until_char(s, c) == n,
    decreases s.len(),
{
    if s.len() > 0 && s[0] != c {
        lemma_until_char(s.drop_first(), c, n - 1);
    }
}

/// The distance to the first `c` is within the text.
pub proof fn lemma_until_char_bound(s: Seq<char>, c: char)
    ensures
        until_char(s, c) <= s.len(),
    decreases s.len(),
{
    if s.len() > 0 {
        lemma_until_char_bound(s.drop_first(), c);
    }
}

/// Finds the first `c` at or after `from`; the length where there is none.
pub fn find_char(s: &[char], c: char, from: usize) -> (at: usize)
    requires
        from <= s@.len(),
    ensures
        from <= at <= s@.len(),
        at == from + until_char(s@.skip(from as int), c),
        at < s@.len() ==> s@[at as int] == c,
{
    let mut i: usize = from;
    while i < s.len() && s[i] != c
        invariant
            from <= i <= s@.len(),
            forall|k: int| from <= k < i ==> s@[k] != c,
        decreases s@.len() - i,
    {
        i += 1;
    }
    proof {
        lemma_until_char(s@.skip(from as int), c, i - from);
    }
    i
}

// ── Splitting at a character ──────────────────────────────────────────────────

/// The pieces of `s` between the occurrences of `c`.
pub open spec fn pieces(s: Seq<char>, c: char) -> Seq<Seq<char>>
    decreases s.len(),
{
    let n = until_char(s, c);
    if n < s.len() {
        seq![s.take(n as int)] + pieces(s.skip((n + 1) as int), c)
    } else {
        seq![s]
    }
}

/// The first `limit` pieces of `s` at `c`, the last of which keeps the remainder unsplit.
pub open spec fn pieces_at_most(s: Seq<char>, c: char, limit: nat) -> Seq<Seq<char>>
    decreases limit,
{
    let n = until_char(s, c);
    if limit > 1 && n < s.len() {
        seq![s.take(n as int)] + pieces_at_most(s.skip((n + 1) as int), c, (limit - 1) as nat)
    } else {
        seq![s]
    }
}

/// Splits `s` at every `c`.
pub fn split<'a>(s: &'a [char], c: char) -> (parts: Vec<&'a [char]>)
    ensures
        slice_views(parts@) == pieces(s@, c),
{
    let mut parts: Vec<&'a [char]> = Vec::new();
    let mut from: usize = 0;
    assert(s@.skip(0) == s@);
    loop
        invariant
            from <= s@.len(),
            slice_views(parts@) + pieces(s@.skip(from as int), c) == pieces(s@, c),
        decreases s@.len() - from,
    {
        let at = find_char(s, c, from);
        let part = slice_subrange(s, from, at);
        let ghost before = slice_views(parts@);
        let ghost rest = s@.skip(from as int);
        parts.push(part);
        assert(slice_views(parts@) == before.push(part@));
        if at == s.len() {
            assert(part@ == rest);
            assert(pieces(rest, c) == seq![rest]);
            assert(before + seq![rest] == before.push(part@));
            return parts;
        }
        assert(part@ == rest.take(at - from));
        assert(rest.skip(at - from + 1) == s@.skip(at + 1));
        assert(before.push(part@) + pieces(s@.skip(at + 1), c) == before + (seq![part@] + pieces(
            s@.skip(at + 1),
            c,
        )));
        from = at + 1;
    }
}

/// Splits `s` at `c` into at most `limit` parts.
pub fn split_at_most<'a>(s: &'a [char], c: char, limit: usize) -> (parts: Vec<&'a [char]>)
    requires
        limit > 0,
    ensures
        slice_views(parts@) == pieces_at_most(s@, c, limit as nat),
{
    let mut parts: Vec<&'a [char]> = Vec::new();
    let mut from: usize = 0;
    let mut left: usize = limit;
    assert(s@.skip(0) == s@);
    loop
        invariant
            from <= s@.len(),
            left > 0,
            slice_views(parts@) + pieces_at_most(s@.skip(from as int), c, left as nat)
                == pieces_at_most(s@, c, limit as nat),
        decreases left,
    {
        let at = find_char(s, c, from);
        let ghost before = slice_views(parts@);
        let ghost rest = s@.skip(from as int);
        if left == 1 || at == s.len() {
            let part = slice_subrange(s, from, s.len());
            parts.push(part);
            assert(slice_views(parts@) == before.push(part@));
            assert(part@ == rest);
            assert(before + seq![rest] == before.push(part@));
            return parts;
        }
        let part = slice_subrange(s, from, at);
        parts.push(part);
        assert(slice_views(parts@) == before.push(part@));
        assert(part@ == rest.take(at - from));
        assert(rest.skip(at - from + 1) == s@.skip(at + 1));
        assert(before.push(part@) + pieces_at_most(s@.skip(at + 1), c, (left - 1) as nat) == before
            + (seq![part@] + pieces_at_most(s@.skip(at + 1), c, (left - 1) as nat)));
        from = at + 1;
        left -= 1;
    }
}

/// The views of a sequence of slices.
pub open spec fn slice_views(v: Seq<&[char]>) -> Seq<Seq<char>> {
    Seq::new(v.len(), |i: int| v[i]@)
}

/// `s` cut at its first `c`: what stands in front of it and what stands behind it.
pub open spec fn cut(s: Seq<char>, c: char) -> Option<(Seq<char>, Seq<char>)> {
    let n = until_char(s, c);
    if n < s.len() {
        Some((s.take(n as int), s.skip((n + 1) as int)))
    } else {
        None
    }
}

/// Cuts `s` at its first `c`.
pub fn split_once<'a>(s: &'a [char], c: char) -> (halves: Option<(&'a [char], &'a [char])>)
    ensures
        match halves {
            Some((a, b)) => cut(s@, c) == Some((a@, b@)),
            None => cut(s@, c) is None,
        },
{
    assert(s@.skip(0) == s@);
    let at = find_char(s, c, 0);
    if at == s.len() {
        None
    } else {
        Some((slice_subrange(s, 0, at), slice_subrange(s, at + 1, s.len())))
    }
}

// ── Lines ─────────────────────────────────────────────────────────────────────

/// A line without the carriage return that may stand in front of its line feed.
pub open spec fn chomped(s: Seq<char>) -> Seq<char> {
    if s.len() > 0 && s.last() == '\r' {
        s.drop_last()
    } else {
        s
    }
}

/// The lines of `s`. A line ends in a line feed or a carriage return and a line feed, neither of
/// which belongs to it; the ending of the last line is optional.
pub open spec fn lines(s: Seq<char>) -> Seq<Seq<char>>
    decreases s.len(),
{
    let n = until_char(s, '\n');
    if s.len() == 0 {
        seq![]
    } else if n < s.len() {
        seq![chomped(s.take(n as int))] + lines(s.skip((n + 1) as int))
    } else {
        seq![s]
    }
}

/// Splits `s` into lines.
pub fn split_lines<'a>(s: &'a [char]) -> (parts: Vec<&'a [char]>)
    ensures
        slice_views(parts@) == lines(s@),
{
    let mut parts: Vec<&'a [char]> = Vec::new();
    let mut from: usize = 0;
    assert(s@.skip(0) == s@);
    while from < s.len()
        invariant
            from <= s@.len(),
            slice_views(parts@) + lines(s@.skip(from as int)) == lines(s@),
        decreases s@.len() - from,
    {
        let at = find_char(s, '\n', from);
        let ghost before = slice_views(parts@);
        let ghost rest = s@.skip(from as int);
        if at == s.len() {
            let part = slice_subrange(s, from, at);
            parts.push(part);
            assert(slice_views(parts@) == before.push(part@));
            assert(part@ == rest);
            assert(before + seq![rest] == before.push(part@));
            return parts;
        }
        let end: usize = if at > from && s[at - 1] == '\r' {
            at - 1
        } else {
            at
        };
        let part = slice_subrange(s, from, end);
        parts.push(part);
        assert(slice_views(parts@) == before.push(part@));
        assert(part@ == chomped(rest.take(at - from)));
        assert(rest.skip(at - from + 1) == s@.skip(at + 1));
        assert(before.push(part@) + lines(s@.skip(at + 1)) == before + (seq![part@] + lines(
            s@.skip(at + 1),
        )));
        from = at + 1;
    }
    assert(s@.skip(from as int) =~= Seq::empty());
    assert(slice_views(parts@) + lines(s@.skip(from as int)) == slice_views(parts@));
    parts
}

// ── Words ─────────────────────────────────────────────────────────────────────

/// The number of characters in front of the first white space; the whole length where there is
/// none.
pub open spec fn until_space(s: Seq<char>) -> nat
    decreases s.len(),
{
    if s.len() == 0 || is_space(s[0]) {
        0
    } else {
        1 + until_space(s.drop_first())
    }
}

/// What makes `n` the distance to the first white space.
pub proof fn lemma_until_space(s: Seq<char>, n: int)
    requires
        0 <= n <= s.len(),
        n < s.len() ==> is_space(s[n]),
        forall|i: int| 0 <= i < n ==> !is_space(s[i]),
    ensures
        until_space(s) == n,
    decreases s.len(),
{
    if s.len() > 0 && !is_space(s[0]) {
        lemma_until_space(s.drop_first(), n - 1);
    }
}

/// The maximal runs of characters that are not white space.
pub open spec fn words(s: Seq<char>) -> Seq<Seq<char>>
    decreases s.len(),
{
    if s.len() == 0 {
        seq![]
    } else if is_space(s[0]) {
        words(s.drop_first())
    } else {
        let n = until_space(s);
        if 0 < n <= s.len() {
            seq![s.take(n as int)] + words(s.skip(n as int))
        } else {
            seq![]
        }
    }
}

/// Finds the first white space at or after `from`; the length where there is none.
pub fn find_space(s: &[char], from: usize) -> (at: usize)
    requires
        from <= s@.len(),
    ensures
        from <= at <= s@.len(),
        at == from + until_space(s@.skip(from as int)),
        from < s@.len() && !is_space(s@[from as int]) ==> from < at,
{
    let mut i: usize = from;
    while i < s.len() && !is_white_space(s[i])
        invariant
            from <= i <= s@.len(),
            forall|k: int| from <= k < i ==> !is_space(s@[k]),
        decreases s@.len() - i,
    {
        i += 1;
    }
    proof {
        lemma_until_space(s@.skip(from as int), i - from);
    }
    i
}

/// Splits `s` into words.
pub fn split_words<'a>(s: &'a [char]) -> (parts: Vec<&'a [char]>)
    ensures
        slice_views(parts@) == words(s@),
{
    let mut parts: Vec<&'a [char]> = Vec::new();
    let mut from: usize = 0;
    assert(s@.skip(0) == s@);
    while from < s.len()
        invariant
            from <= s@.len(),
            slice_views(parts@) + words(s@.skip(from as int)) == words(s@),
        decreases s@.len() - from,
    {
        let ghost rest = s@.skip(from as int);
        if is_white_space(s[from]) {
            assert(rest.drop_first() == s@.skip(from + 1));
            from += 1;
        } else {
            let at = find_space(s, from);
            let part = slice_subrange(s, from, at);
            let ghost before = slice_views(parts@);
            parts.push(part);
            assert(slice_views(parts@) == before.push(part@));
            assert(part@ == rest.take(at - from));
            assert(rest.skip(at - from) == s@.skip(at as int));
            assert(before.push(part@) + words(s@.skip(at as int)) == before + (seq![part@] + words(
                s@.skip(at as int),
            )));
            from = at;
        }
    }
    assert(s@.skip(from as int) =~= Seq::empty());
    assert(slice_views(parts@) + words(s@.skip(from as int)) == slice_views(parts@));
    parts
}

// ── Substrings ────────────────────────────────────────────────────────────────

/// Whether `part` stands in `s` at position `at`.
pub open spec fn stands_at(s: Seq<char>, part: Seq<char>, at: int) -> bool {
    &&& 0 <= at <= s.len() - part.len()
    &&& s.subrange(at, at + part.len()) == part
}

/// Whether `part` stands anywhere in `s`.
pub open spec fn has_part(s: Seq<char>, part: Seq<char>) -> bool {
    exists|at: int| stands_at(s, part, at)
}

/// `s` up to the first place where `part` stands; all of `s` where it stands nowhere.
pub open spec fn before_part(s: Seq<char>, part: Seq<char>) -> Seq<char>
    decreases s.len(),
{
    if s.len() == 0 || part.is_prefix_of(s) {
        seq![]
    } else {
        seq![s[0]] + before_part(s.drop_first(), part)
    }
}

/// What makes `n` the distance to the first place where `part` stands.
pub proof fn lemma_before_part(s: Seq<char>, part: Seq<char>, n: int)
    requires
        0 <= n <= s.len(),
        n < s.len() ==> stands_at(s, part, n),
        forall|i: int| 0 <= i < n ==> !stands_at(s, part, i),
    ensures
        before_part(s, part) == s.take(n),
    decreases s.len(),
{
    if s.len() > 0 {
        if part.is_prefix_of(s) {
            assert(stands_at(s, part, 0));
        } else {
            let t = s.drop_first();
            assert forall|i: int| 0 <= i < t.len() implies stands_at(t, part, i) == stands_at(
                s,
                part,
                i + 1,
            ) by {
                if 0 <= i <= t.len() - part.len() {
                    assert(t.subrange(i, i + part.len()) == s.subrange(i + 1, i + 1 + part.len()));
                }
            }
            if n == 0 {
                assert(s.subrange(0, part.len() as int) == part);
                assert(part.is_prefix_of(s));
            }
            lemma_before_part(t, part, n - 1);
            assert(seq![s[0]] + t.take(n - 1) == s.take(n));
        }
    } else {
        assert(s.take(n) =~= seq![]);
    }
}

/// The first place where `part` stands in `s`; the length where it stands nowhere.
fn find_part(s: &[char], part: &[char]) -> (at: usize)
    requires
        part@.len() > 0,
    ensures
        at <= s@.len(),
        at < s@.len() ==> stands_at(s@, part@, at as int),
        forall|i: int| 0 <= i < at ==> !stands_at(s@, part@, i),
{
    let mut i: usize = 0;
    while i < s.len()
        invariant
            i <= s@.len(),
            forall|k: int| 0 <= k < i ==> !stands_at(s@, part@, k),
        decreases s@.len() - i,
    {
        if part.len() <= s.len() - i && same_chars(slice_subrange(s, i, i + part.len()), part) {
            return i;
        }
        i += 1;
    }
    i
}

/// Whether `part` stands anywhere in `s`.
pub fn contains_part(s: &[char], part: &[char]) -> (yes: bool)
    requires
        part@.len() > 0,
    ensures
        yes == has_part(s@, part@),
{
    let at = find_part(s, part);
    at < s.len()
}

/// The text in front of the first place where `part` stands.
pub fn text_before<'a>(s: &'a [char], part: &[char]) -> (front: &'a [char])
    requires
        part@.len() > 0,
    ensures
        front@ == before_part(s@, part@),
{
    let at = find_part(s, part);
    proof {
        lemma_before_part(s@, part@, at as int);
    }
    slice_subrange(s, 0, at)
}

/// Owned copies of slices.
pub fn strings_of(parts: &Vec<&[char]>) -> (v: Vec<String>)
    ensures
        crate::text::texts(v@) == slice_views(parts@),
{
    let mut v: Vec<String> = Vec::new();
    for i in 0..parts.len()
        invariant
            v@.len() == i,
            forall|k: int| 0 <= k < i ==> (#[trigger] v@[k])@ == parts@[k]@,
    {
        v.push(string_of(parts[i]));
    }
    v
}

} // verus!
