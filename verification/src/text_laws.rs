//! Cutting and trimming text: each undoes putting the parts together.
use crate::split::{
    cut, lemma_until_char, lemma_until_space, lines, pieces, pieces_at_most, words,
};
use crate::text::{
    is_space, trimmed, trimmed_end, trimmed_start, without_leading, without_prefix, without_suffix,
    without_trailing,
};
use vstd::prelude::*;

verus! {

/// Whether `s` consists of white space.
pub open spec fn all_space(s: Seq<char>) -> bool {
    forall|i: int| 0 <= i < s.len() ==> is_space(#[trigger] s[i])
}

/// Whether `s` is empty, or begins and ends in something other than white space.
pub open spec fn is_trim(s: Seq<char>) -> bool {
    s.len() > 0 ==> !is_space(s[0]) && !is_space(s.last())
}

/// Whether `s` is one word: it is not empty and has no white space.
pub open spec fn is_solid(s: Seq<char>) -> bool {
    s.len() > 0 && forall|i: int| 0 <= i < s.len() ==> !is_space(#[trigger] s[i])
}

/// Whether `c` does not occur in `s`.
pub open spec fn is_free_of(s: Seq<char>, c: char) -> bool {
    forall|i: int| 0 <= i < s.len() ==> #[trigger] s[i] != c
}

proof fn lemma_trimmed_start(a: Seq<char>, s: Seq<char>)
    requires
        all_space(a),
        s.len() > 0 ==> !is_space(s[0]),
    ensures
        trimmed_start(a + s) == s,
    decreases a.len(),
{
    if a.len() > 0 {
        assert(is_space(a[0]));
        assert((a + s).drop_first() =~= a.drop_first() + s);
        assert forall|i: int| 0 <= i < a.drop_first().len() implies is_space(
            #[trigger] a.drop_first()[i],
        ) by {
            assert(is_space(a[i + 1]));
        }
        lemma_trimmed_start(a.drop_first(), s);
    } else {
        assert(a + s =~= s);
    }
}

proof fn lemma_trimmed_end(s: Seq<char>, b: Seq<char>)
    requires
        all_space(b),
        s.len() > 0 ==> !is_space(s.last()),
    ensures
        trimmed_end(s + b) == s,
    decreases b.len(),
{
    if b.len() > 0 {
        assert(is_space(b[b.len() - 1]));
        assert((s + b).drop_last() =~= s + b.drop_last());
        assert forall|i: int| 0 <= i < b.drop_last().len() implies is_space(
            #[trigger] b.drop_last()[i],
        ) by {
            assert(is_space(b[i]));
        }
        lemma_trimmed_end(s, b.drop_last());
    } else {
        assert(s + b =~= s);
    }
}

/// Trimming takes away the white space at both ends, and nothing else.
pub proof fn lemma_trim(a: Seq<char>, s: Seq<char>, b: Seq<char>)
    requires
        all_space(a),
        is_trim(s),
        all_space(b),
    ensures
        trimmed(a + s + b) == s,
{
    if s.len() > 0 {
        assert(a + s + b =~= a + (s + b));
        assert((s + b)[0] == s[0]);
        lemma_trimmed_start(a, s + b);
        lemma_trimmed_end(s, b);
    } else {
        assert forall|i: int| 0 <= i < (a + b).len() implies is_space(#[trigger] (a + b)[i]) by {
            if i < a.len() {
                assert(is_space(a[i]));
            } else {
                assert(is_space(b[i - a.len()]));
            }
        }
        assert(a + s + b =~= (a + b) + s);
        lemma_trimmed_start(a + b, s);
        assert(s =~= s + Seq::<char>::empty());
    }
}

/// A text that neither begins nor ends in white space is as it is trimmed.
pub proof fn lemma_trim_idle(s: Seq<char>)
    requires
        is_trim(s),
    ensures
        trimmed(s) == s,
{
    lemma_trim(seq![], s, seq![]);
    assert(Seq::<char>::empty() + s + Seq::<char>::empty() =~= s);
}

/// What stands in front of the next word, and the word, make one word of a text and leave the words
/// behind it.
pub proof fn lemma_first_of_words(a: Seq<char>, w: Seq<char>, rest: Seq<char>)
    requires
        all_space(a),
        is_solid(w),
        rest.len() > 0 ==> is_space(rest[0]),
    ensures
        words(a + w + rest) == seq![w] + words(rest),
    decreases a.len(),
{
    let s = a + w + rest;
    if a.len() > 0 {
        assert(is_space(a[0]));
        assert(s.drop_first() =~= a.drop_first() + w + rest);
        assert forall|i: int| 0 <= i < a.drop_first().len() implies is_space(
            #[trigger] a.drop_first()[i],
        ) by {
            assert(is_space(a[i + 1]));
        }
        lemma_first_of_words(a.drop_first(), w, rest);
    } else {
        assert(s =~= w + rest);
        assert(!is_space(w[0]));
        assert forall|i: int| 0 <= i < w.len() implies !is_space(s[i]) by {
            assert(!is_space(w[i]));
        }
        lemma_until_space(s, w.len() as int);
        assert(s.take(w.len() as int) =~= w);
        assert(s.skip(w.len() as int) =~= rest);
    }
}

/// White space alone holds no word.
pub proof fn lemma_no_words(s: Seq<char>)
    requires
        all_space(s),
    ensures
        words(s) == Seq::<Seq<char>>::empty(),
    decreases s.len(),
{
    if s.len() > 0 {
        assert(is_space(s[0]));
        assert forall|i: int| 0 <= i < s.drop_first().len() implies is_space(
            #[trigger] s.drop_first()[i],
        ) by {
            assert(is_space(s[i + 1]));
        }
        lemma_no_words(s.drop_first());
    }
}

/// A text is cut at the first of the characters that it is cut at, and only where there is one.
pub proof fn lemma_cut_at_first(a: Seq<char>, c: char, b: Seq<char>)
    requires
        is_free_of(a, c),
    ensures
        cut(a + seq![c] + b, c) == Some((a, b)),
        cut(a, c) is None,
{
    let s = a + seq![c] + b;
    assert forall|i: int| 0 <= i < a.len() implies s[i] != c by {
        assert(a[i] != c);
    }
    lemma_until_char(s, c, a.len() as int);
    assert(s.take(a.len() as int) =~= a);
    assert(s.skip((a.len() + 1) as int) =~= b);
    lemma_until_char(a, c, a.len() as int);
}

/// The pieces of a text are what stands between the characters that it is cut at.
pub proof fn lemma_pieces_at(a: Seq<char>, c: char, b: Seq<char>, limit: nat)
    requires
        is_free_of(a, c),
        limit > 1,
    ensures
        pieces(a + seq![c] + b, c) == seq![a] + pieces(b, c),
        pieces(a, c) == seq![a],
        pieces_at_most(a + seq![c] + b, c, limit) == seq![a] + pieces_at_most(
            b,
            c,
            (limit - 1) as nat,
        ),
        pieces_at_most(a, c, limit) == seq![a],
        pieces_at_most(b, c, 1) == seq![b],
{
    let s = a + seq![c] + b;
    assert forall|i: int| 0 <= i < a.len() implies s[i] != c by {
        assert(a[i] != c);
    }
    lemma_until_char(s, c, a.len() as int);
    assert(s.take(a.len() as int) =~= a);
    assert(s.skip((a.len() + 1) as int) =~= b);
    lemma_until_char(a, c, a.len() as int);
}

/// A line ends at the first line feed; a carriage return in front of that does not belong to it.
pub proof fn lemma_first_of_lines(a: Seq<char>, rest: Seq<char>)
    requires
        is_free_of(a, '\n'),
        a.len() > 0 ==> a.last() != '\r',
    ensures
        lines(a + seq!['\n'] + rest) == seq![a] + lines(rest),
        lines(a + seq!['\r', '\n'] + rest) == seq![a] + lines(rest),
        a.len() > 0 ==> lines(a) == seq![a],
        lines(Seq::<char>::empty()) == Seq::<Seq<char>>::empty(),
{
    let s = a + seq!['\n'] + rest;
    assert forall|i: int| 0 <= i < a.len() implies s[i] != '\n' by {
        assert(a[i] != '\n');
    }
    lemma_until_char(s, '\n', a.len() as int);
    assert(s.take(a.len() as int) =~= a);
    assert(s.skip((a.len() + 1) as int) =~= rest);
    let t = a + seq!['\r', '\n'] + rest;
    assert forall|i: int| 0 <= i < a.len() + 1 implies t[i] != '\n' by {
        if i < a.len() {
            assert(a[i] != '\n');
        }
    }
    lemma_until_char(t, '\n', (a.len() + 1) as int);
    assert(t.take((a.len() + 1) as int) =~= a.push('\r'));
    assert(a.push('\r').drop_last() =~= a);
    assert(t.skip((a.len() + 2) as int) =~= rest);
    lemma_until_char(a, '\n', a.len() as int);
}

/// A prefix that was put in front is taken off again, and so is a suffix that was put behind.
pub proof fn lemma_affixes(prefix: Seq<char>, s: Seq<char>, suffix: Seq<char>)
    ensures
        without_prefix(prefix + s, prefix) == Some(s),
        without_suffix(s + suffix, suffix) == Some(s),
{
    let front = prefix + s;
    assert(front.subrange(0, prefix.len() as int) =~= prefix);
    assert(prefix.is_prefix_of(front));
    assert(front.skip(prefix.len() as int) =~= s);
    let back = s + suffix;
    assert(back.subrange(back.len() - suffix.len(), back.len() as int) =~= suffix);
    assert(suffix.is_suffix_of(back));
    assert(back.take(back.len() - suffix.len()) =~= s);
}

/// A text keeps what stands between repetitions of a character at its ends.
pub proof fn lemma_stripped(s: Seq<char>, c: char)
    requires
        s.len() > 0 ==> s[0] != c && s.last() != c,
    ensures
        without_leading(s, c) == s,
        without_trailing(s, c) == s,
        without_leading(seq![c] + s, c) == s,
        without_trailing(s + seq![c], c) == s,
{
    let front = seq![c] + s;
    assert(front.drop_first() =~= s);
    let back = s + seq![c];
    assert(back.drop_last() =~= s);
    assert(back.last() == c);
}

} // verus!
