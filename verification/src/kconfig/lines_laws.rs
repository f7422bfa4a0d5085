//! Reading lines of Kconfig files undoes writing them.
use crate::kconfig::expr::Expr;
use crate::kconfig::lines::{
    argument, bare, begins_if, behind_keyword, continues, declared_name, depends_text, first_word,
    if_position, if_text, joined, second_word, select_of, unquoted,
};
use crate::kconfig::parse::text_expr;
use crate::split::{lemma_until_space, words};
use crate::text::{is_space, trimmed, uppercase, without_leading};
use crate::text_laws::{
    all_space, is_free_of, is_solid, is_trim, lemma_affixes, lemma_first_of_words, lemma_no_words,
    lemma_stripped, lemma_trim, lemma_trim_idle,
};
use vstd::prelude::*;

verus! {

// ── Logical lines ─────────────────────────────────────────────────────────────

/// Lines of which none ends in a backslash are logical lines as they are.
pub proof fn lemma_plain_lines(parts: Seq<Seq<char>>)
    requires
        forall|i: int|
            0 <= i < parts.len() ==> (#[trigger] parts[i]).len() > 0 ==> parts[i].last() != '\\',
    ensures
        joined(parts, seq![]) == parts,
    decreases parts.len(),
{
    if parts.len() > 0 {
        let rest = parts.drop_first();
        assert forall|i: int| 0 <= i < rest.len() && (#[trigger] rest[i]).len() > 0 implies rest[i].last()
            != '\\' by {
            assert(rest[i] == parts[i + 1]);
        }
        lemma_plain_lines(rest);
        assert(!continues(parts[0]));
        assert(Seq::<char>::empty() + parts[0] =~= parts[0]);
        assert(seq![parts[0]] + rest =~= parts);
    } else {
        assert(joined(parts, seq![]) =~= parts);
    }
}

/// A line that ends in a backslash goes on in the next one, with a space in place of the backslash;
/// no part of either is lost.
pub proof fn lemma_continued_line(a: Seq<char>, b: Seq<char>, rest: Seq<Seq<char>>)
    requires
        b.len() > 0 ==> b.last() != '\\',
    ensures
        joined(seq![a.push('\\'), b] + rest, seq![]) == seq![a + seq![' '] + b] + joined(
            rest,
            seq![],
        ),
{
    let parts = seq![a.push('\\'), b] + rest;
    assert(parts[0] == a.push('\\'));
    assert(continues(parts[0]));
    assert(parts.drop_first() =~= seq![b] + rest);
    assert(a.push('\\').drop_last() =~= a);
    assert(Seq::<char>::empty() + a + seq![' '] =~= a + seq![' ']);
    let more = seq![b] + rest;
    assert(more[0] == b);
    assert(!continues(b));
    assert(more.drop_first() =~= rest);
    assert(joined(more, a + seq![' ']) == seq![a + seq![' '] + b] + joined(rest, seq![]));
    assert(joined(parts, seq![]) == joined(more, a + seq![' ']));
}

// ── Directives ────────────────────────────────────────────────────────────────

proof fn lemma_space()
    ensures
        is_space(' '),
        all_space(seq![' ']),
        !is_space('"'),
{
    assert forall|i: int| 0 <= i < seq![' '].len() implies is_space(#[trigger] seq![' '][i]) by {
    }
}

/// A `config` line declares the symbol that stands behind the keyword, in upper case and without a
/// leading `CONFIG_`.
pub proof fn lemma_declaration_reads_back(keyword: Seq<char>, space: Seq<char>, name: Seq<char>)
    requires
        is_solid(keyword),
        space.len() > 0,
        all_space(space),
        is_solid(name),
    ensures
        first_word(keyword + space + name) == keyword,
        declared_name(keyword + space + name) == bare(uppercase(name)),
{
    let line = keyword + space + name;
    let rest = space + name;
    assert(is_space(space[0]));
    assert(line =~= Seq::<char>::empty() + keyword + rest);
    lemma_first_of_words(Seq::empty(), keyword, rest);
    assert(rest =~= space + name + Seq::<char>::empty());
    lemma_first_of_words(space, name, Seq::empty());
    lemma_no_words(Seq::empty());
    assert(words(line) =~= seq![keyword, name]);
    assert(second_word(line) == name);
}

/// A leading `CONFIG_` does not belong to a name, and only that is left out.
pub proof fn lemma_bare_names(name: Seq<char>)
    ensures
        bare("CONFIG_"@ + name) == name,
        !"CONFIG_"@.is_prefix_of(name) ==> bare(name) == name,
{
    lemma_affixes("CONFIG_"@, name, seq![]);
}

/// A `depends on` line gives back the expression that was written into it, and an `if` line does.
pub proof fn lemma_conditions_read_back(e: Seq<char>)
    requires
        is_trim(e),
    ensures
        depends_text("depends on "@ + e) == e,
        depends_text("depends\ton "@ + e) == e,
        if_text("if "@ + e) == e,
{
    lemma_space();
    lemma_affixes("depends on "@, e, seq![]);
    lemma_affixes("depends\ton "@, e, seq![]);
    lemma_trim_idle(e);
    assert(!"depends on "@.is_prefix_of("depends\ton "@ + e)) by {
        reveal_strlit("depends on ");
        reveal_strlit("depends\ton ");
        let tabbed = "depends\ton "@ + e;
        if "depends on "@.is_prefix_of(tabbed) {
            assert(tabbed.subrange(0, 11)[7] == ' ');
            assert(tabbed[7] == '\t');
        }
    }
    reveal_strlit("if ");
    reveal_strlit("if");
    let rest = seq![' '] + e;
    assert("if "@ + e =~= "if"@ + rest);
    lemma_affixes("if"@, rest, seq![]);
    assert(rest =~= seq![' '] + e + Seq::<char>::empty());
    lemma_trim(seq![' '], e, Seq::empty());
}

/// A line that brings in a file gives back the path that was written into it, with quotation marks
/// around it or without.
pub proof fn lemma_argument_reads_back(keyword: Seq<char>, path: Seq<char>)
    requires
        is_solid(path),
        is_free_of(path, '"'),
    ensures
        argument(keyword + seq![' ', '"'] + path + seq!['"'], keyword) == path,
        argument(keyword + seq![' '] + path, keyword) == path,
{
    lemma_space();
    let quoted = seq!['"'] + path + seq!['"'];
    let line = keyword + seq![' ', '"'] + path + seq!['"'];
    let rest = seq![' '] + quoted;
    assert(line =~= keyword + rest);
    lemma_affixes(keyword, rest, seq![]);
    assert(is_trim(quoted));
    assert(rest =~= seq![' '] + quoted + Seq::<char>::empty());
    lemma_trim(seq![' '], quoted, Seq::empty());
    assert(path[0] != '"' && path[path.len() - 1] != '"');
    let tail = path + seq!['"'];
    assert(quoted =~= seq!['"'] + tail);
    assert(quoted.drop_first() =~= tail);
    assert(tail[0] != '"');
    lemma_stripped(path, '"');
    assert(without_leading(quoted, '"') == without_leading(tail, '"'));
    assert(without_leading(tail, '"') == tail);
    assert(unquoted(quoted) == path);
    let plain = keyword + seq![' '] + path;
    assert(plain =~= keyword + (seq![' '] + path));
    lemma_affixes(keyword, seq![' '] + path, seq![]);
    assert(!is_space(path[0]) && !is_space(path[path.len() - 1]));
    assert(seq![' '] + path =~= seq![' '] + path + Seq::<char>::empty());
    lemma_trim(seq![' '], path, Seq::empty());
}

// ── Selects ───────────────────────────────────────────────────────────────────

proof fn lemma_behind(keyword: Seq<char>, rest: Seq<char>)
    requires
        is_solid(keyword),
    ensures
        behind_keyword(keyword + seq![' '] + rest) == trimmed(rest),
{
    lemma_space();
    let line = keyword + seq![' '] + rest;
    assert forall|i: int| 0 <= i < keyword.len() implies !is_space(line[i]) by {
        assert(!is_space(keyword[i]));
    }
    lemma_until_space(line, keyword.len() as int);
    assert(line.skip((keyword.len() + 1) as int) =~= rest);
}

proof fn lemma_if_found(t: Seq<char>, tail: Seq<char>)
    requires
        forall|i: int| 0 <= i < t.len() ==> !is_space(#[trigger] t[i]) && t[i] != '(' && t[i] != ')',
        tail.len() == 0 || begins_if(tail),
    ensures
        tail.len() > 0 ==> if_position(t + tail, 0) == Some(t.len()),
        tail.len() == 0 ==> if_position(t + tail, 0) is None,
    decreases t.len(),
{
    let s = t + tail;
    reveal_strlit(" if ");
    reveal_strlit("\tif ");
    if t.len() > 0 {
        let rest = t.drop_first();
        assert(s.drop_first() =~= rest + tail);
        assert(s[0] == t[0] && !is_space(t[0]));
        if begins_if(s) {
            if " if "@.is_prefix_of(s) {
                assert(s.subrange(0, 4)[0] == ' ');
            } else {
                assert(s.subrange(0, 4)[0] == '\t');
            }
            assert(is_space(s[0]));
        }
        assert forall|i: int| 0 <= i < rest.len() implies !is_space(#[trigger] rest[i]) && rest[i]
            != '(' && rest[i] != ')' by {
            assert(rest[i] == t[i + 1]);
        }
        lemma_if_found(rest, tail);
    } else {
        assert(s =~= tail);
    }
}

/// A select without a condition names its target and holds always.
pub proof fn lemma_plain_select_reads_back(keyword: Seq<char>, target: Seq<char>)
    requires
        is_solid(keyword),
        is_solid(target),
        is_free_of(target, '('),
        is_free_of(target, ')'),
    ensures
        select_of(keyword + seq![' '] + target) == Some((uppercase(target), Expr::Always)),
{
    lemma_behind(keyword, target);
    assert(!is_space(target[0]) && !is_space(target[target.len() - 1]));
    lemma_trim_idle(target);
    assert forall|i: int| 0 <= i < target.len() implies !is_space(#[trigger] target[i]) && target[i]
        != '(' && target[i] != ')' by {
    }
    lemma_if_found(target, Seq::empty());
    assert(target + Seq::<char>::empty() =~= target);
}

/// A select with a condition gives back the target and the condition that were written into it.
pub proof fn lemma_select_reads_back(keyword: Seq<char>, target: Seq<char>, cond: Seq<char>)
    requires
        is_solid(keyword),
        is_solid(target),
        is_free_of(target, '('),
        is_free_of(target, ')'),
        cond.len() > 0,
        is_trim(cond),
    ensures
        select_of(keyword + seq![' '] + target + " if "@ + cond) == Some(
            (uppercase(target), text_expr(cond)),
        ),
{
    lemma_space();
    reveal_strlit(" if ");
    reveal_strlit("\tif ");
    let tail = " if "@ + cond;
    let rest = target + tail;
    let line = keyword + seq![' '] + target + " if "@ + cond;
    assert(line =~= keyword + seq![' '] + rest);
    lemma_behind(keyword, rest);
    assert(!is_space(target[0]) && !is_space(target[target.len() - 1]));
    assert(rest[0] == target[0] && rest.last() == cond.last());
    lemma_trim_idle(rest);
    assert(tail.subrange(0, 4) =~= " if "@);
    assert(begins_if(tail));
    assert forall|i: int| 0 <= i < target.len() implies !is_space(#[trigger] target[i]) && target[i]
        != '(' && target[i] != ')' by {
    }
    lemma_if_found(target, tail);
    let n = target.len() as int;
    assert(rest.take(n) =~= target);
    lemma_trim_idle(target);
    assert(rest.skip(n + 3) =~= seq![' '] + cond + Seq::<char>::empty());
    lemma_trim(seq![' '], cond, Seq::empty());
}

/// An `if` in parentheses does not begin the condition of a select: what stands in parentheses is
/// passed over.
pub proof fn lemma_if_in_parentheses(inner: Seq<char>, rest: Seq<char>)
    requires
        is_free_of(inner, '('),
        is_free_of(inner, ')'),
    ensures
        if_position(seq!['('] + inner + seq![')'] + rest, 0) == match if_position(rest, 0) {
            Some(n) => Some((n + inner.len() + 2) as nat),
            None => None,
        },
{
    let s = seq!['('] + inner + seq![')'] + rest;
    reveal_strlit(" if ");
    reveal_strlit("\tif ");
    if begins_if(s) {
        if " if "@.is_prefix_of(s) {
            assert(s.subrange(0, 4)[0] == ' ');
        } else {
            assert(s.subrange(0, 4)[0] == '\t');
        }
    }
    assert(s.drop_first() =~= inner + (seq![')'] + rest));
    lemma_passed_over(inner, rest);
}

proof fn lemma_passed_over(inner: Seq<char>, rest: Seq<char>)
    requires
        is_free_of(inner, '('),
        is_free_of(inner, ')'),
    ensures
        if_position(inner + (seq![')'] + rest), 1) == match if_position(rest, 0) {
            Some(n) => Some((n + inner.len() + 1) as nat),
            None => None,
        },
    decreases inner.len(),
{
    let s = inner + (seq![')'] + rest);
    if inner.len() > 0 {
        let tail = inner.drop_first();
        assert(inner[0] != '(' && inner[0] != ')');
        assert(s.drop_first() =~= tail + (seq![')'] + rest));
        assert forall|i: int| 0 <= i < tail.len() implies #[trigger] tail[i] != '(' by {
            assert(inner[i + 1] != '(');
        }
        assert forall|i: int| 0 <= i < tail.len() implies #[trigger] tail[i] != ')' by {
            assert(inner[i + 1] != ')');
        }
        lemma_passed_over(tail, rest);
    } else {
        assert(s.drop_first() =~= rest);
    }
}

} // verus!
