//! What the lines of Kconfig files say.
use crate::kconfig::expr::{ConfigExpr, Expr};
use crate::kconfig::graph::SymbolKind;
use crate::kconfig::parse::{parse_chars, text_expr};
use crate::split::{find_space, lines, slice_views, split_lines, split_words, until_space, words};
use crate::text::{
    chars_of, is_word, starts_with, string_of, strip_prefix, trim, trim_char, trimmed, uppercase,
    without_leading, without_prefix, without_trailing,
};
use vstd::prelude::*;
use vstd::slice::slice_subrange;

verus! {

// ── Logical lines ─────────────────────────────────────────────────────────────

/// The views of lists of characters.
pub open spec fn char_lists(v: Seq<Vec<char>>) -> Seq<Seq<char>> {
    Seq::new(v.len(), |i: int| v[i]@)
}

/// Whether a line goes on in the next one.
pub open spec fn continues(line: Seq<char>) -> bool {
    line.len() > 0 && line.last() == '\\'
}

/// The logical lines of `parts`, where `pending` stands in front of the first. A line that ends in
/// a backslash is joined to the next by a space in place of the backslash.
pub open spec fn joined(parts: Seq<Seq<char>>, pending: Seq<char>) -> Seq<Seq<char>>
    decreases parts.len(),
{
    if parts.len() == 0 {
        if pending.len() > 0 {
            seq![pending]
        } else {
            seq![]
        }
    } else if continues(parts[0]) {
        joined(parts.drop_first(), pending + parts[0].drop_last() + seq![' '])
    } else {
        seq![pending + parts[0]] + joined(parts.drop_first(), seq![])
    }
}

/// The logical lines of a text.
pub open spec fn logical_lines(text: Seq<char>) -> Seq<Seq<char>> {
    joined(lines(text), seq![])
}

/// Appends `part` to `to`.
fn append_chars(to: &mut Vec<char>, part: &[char])
    ensures
        final(to)@ == old(to)@ + part@,
{
    let ghost before = to@;
    for i in 0..part.len()
        invariant
            to@ == before + part@.take(i as int),
    {
        to.push(part[i]);
        assert(part@.take(i + 1) =~= part@.take(i as int).push(part@[i as int]));
    }
    assert(part@.take(part@.len() as int) =~= part@);
}

/// Splits a text into its logical lines.
pub fn join_continuations(text: &str) -> (out: Vec<Vec<char>>)
    ensures
        char_lists(out@) == logical_lines(text@),
{
    let chars = chars_of(text);
    let parts = split_lines(chars.as_slice());
    let ghost all = lines(text@);
    let mut out: Vec<Vec<char>> = Vec::new();
    let mut current: Vec<char> = Vec::new();
    let mut i: usize = 0;
    assert(all.skip(0) == all);
    assert(current@ =~= seq![]);
    assert(char_lists(out@) + joined(all, seq![]) =~= joined(all, seq![]));
    while i < parts.len()
        invariant
            i <= parts@.len(),
            slice_views(parts@) == all,
            char_lists(out@) + joined(all.skip(i as int), current@) == joined(all, seq![]),
        decreases parts@.len() - i,
    {
        let line = parts[i];
        let ghost rest = all.skip(i as int);
        let ghost pending = current@;
        let ghost before = char_lists(out@);
        proof {
            assert(slice_views(parts@)[i as int] == line@);
            assert(rest[0] == line@);
            assert(rest.drop_first() == all.skip(i + 1));
        }
        if line.len() > 0 && line[line.len() - 1] == '\\' {
            let part = slice_subrange(line, 0, line.len() - 1);
            assert(part@ =~= line@.drop_last());
            append_chars(&mut current, part);
            current.push(' ');
            assert(current@ =~= pending + line@.drop_last() + seq![' ']);
        } else {
            append_chars(&mut current, line);
            let ghost whole = current@;
            out.push(current);
            current = Vec::new();
            proof {
                assert(current@ =~= seq![]);
                assert(char_lists(out@) =~= before.push(whole));
                let tail = joined(all.skip(i + 1), seq![]);
                assert(before + (seq![whole] + tail) =~= before.push(whole) + tail);
            }
        }
        i += 1;
    }
    assert(all.skip(i as int) =~= Seq::<Seq<char>>::empty());
    if current.len() > 0 {
        let ghost before = char_lists(out@);
        let ghost whole = current@;
        out.push(current);
        assert(char_lists(out@) =~= before + seq![whole]);
    } else {
        assert(char_lists(out@) + Seq::<Seq<char>>::empty() =~= char_lists(out@));
    }
    out
}

// ── Conditions ────────────────────────────────────────────────────────────────

/// What expressions say.
pub open spec fn expr_views(v: Seq<ConfigExpr>) -> Seq<Expr> {
    Seq::new(v.len(), |i: int| v[i]@)
}

/// All of `conditions` together, joined from the left; nothing where there is none.
pub open spec fn effective(conditions: Seq<Expr>) -> Option<Expr>
    decreases conditions.len(),
{
    if conditions.len() == 0 {
        None
    } else {
        match effective(conditions.drop_last()) {
            None => Some(conditions.last()),
            Some(c) => Some(Expr::And(Box::new(c), Box::new(conditions.last()))),
        }
    }
}

/// `e` under all of `conditions`.
pub open spec fn under(conditions: Seq<Expr>, e: Expr) -> Expr {
    match effective(conditions) {
        None => e,
        Some(c) => Expr::And(Box::new(c), Box::new(e)),
    }
}

/// All of `stack` together.
pub fn effective_condition(stack: &Vec<ConfigExpr>) -> (cond: Option<ConfigExpr>)
    ensures
        match cond {
            Some(c) => effective(expr_views(stack@)) == Some(c@),
            None => effective(expr_views(stack@)) is None,
        },
{
    let mut cond: Option<ConfigExpr> = None;
    let mut i: usize = 0;
    assert(expr_views(stack@).take(0) =~= Seq::<Expr>::empty());
    while i < stack.len()
        invariant
            i <= stack@.len(),
            match cond {
                Some(c) => effective(expr_views(stack@).take(i as int)) == Some(c@),
                None => effective(expr_views(stack@).take(i as int)) is None,
            },
        decreases stack@.len() - i,
    {
        let next = stack[i].clone();
        proof {
            let t = expr_views(stack@).take(i + 1);
            assert(t.drop_last() =~= expr_views(stack@).take(i as int));
            assert(t.last() == next@);
        }
        cond = match cond {
            None => Some(next),
            Some(c) => Some(ConfigExpr::And(Box::new(c), Box::new(next))),
        };
        i += 1;
    }
    assert(expr_views(stack@).take(i as int) =~= expr_views(stack@));
    cond
}

/// `expr` under all of `stack`.
pub fn and_with_stack(expr: ConfigExpr, stack: &Vec<ConfigExpr>) -> (both: ConfigExpr)
    ensures
        both@ == under(expr_views(stack@), expr@),
{
    match effective_condition(stack) {
        None => expr,
        Some(cond) => ConfigExpr::And(Box::new(cond), Box::new(expr)),
    }
}

// ── Directives ────────────────────────────────────────────────────────────────

/// The first word of a line; the empty text where there is none.
pub open spec fn first_word(line: Seq<char>) -> Seq<char> {
    if words(line).len() > 0 {
        words(line)[0]
    } else {
        seq![]
    }
}

/// The second word of a line; the empty text where there is none.
pub open spec fn second_word(line: Seq<char>) -> Seq<char> {
    if words(line).len() > 1 {
        words(line)[1]
    } else {
        seq![]
    }
}

/// `upper` without a leading `CONFIG_`.
pub open spec fn bare(upper: Seq<char>) -> Seq<char> {
    match without_prefix(upper, "CONFIG_"@) {
        Some(rest) => rest,
        None => upper,
    }
}

/// The name that a `config` or `menuconfig` line declares.
pub open spec fn declared_name(line: Seq<char>) -> Seq<char> {
    bare(uppercase(second_word(line)))
}

/// The type that a word stands for.
pub open spec fn kind_of(word: Seq<char>) -> Option<SymbolKind> {
    if word == "bool"@ {
        Some(SymbolKind::Bool)
    } else if word == "tristate"@ {
        Some(SymbolKind::Tristate)
    } else if word == "int"@ {
        Some(SymbolKind::Int)
    } else if word == "hex"@ {
        Some(SymbolKind::Hex)
    } else if word == "string"@ {
        Some(SymbolKind::String)
    } else {
        None
    }
}

/// What stands behind `depends on`; the empty text where that is not how the line begins.
pub open spec fn depends_text(line: Seq<char>) -> Seq<char> {
    match without_prefix(line, "depends on "@) {
        Some(rest) => trimmed(rest),
        None => match without_prefix(line, "depends\ton "@) {
            Some(rest) => trimmed(rest),
            None => seq![],
        },
    }
}

/// What stands behind `if`.
pub open spec fn if_text(line: Seq<char>) -> Seq<char> {
    match without_prefix(line, "if"@) {
        Some(rest) => trimmed(rest),
        None => seq![],
    }
}

/// `s` without the quotation marks around it.
pub open spec fn unquoted(s: Seq<char>) -> Seq<char> {
    without_trailing(without_leading(s, '"'), '"')
}

/// What stands behind the leading `word`, without white space and quotation marks around it.
pub open spec fn argument(line: Seq<char>, word: Seq<char>) -> Seq<char> {
    match without_prefix(line, word) {
        Some(rest) => unquoted(trimmed(rest)),
        None => unquoted(trimmed(seq![])),
    }
}

// ── Selects ───────────────────────────────────────────────────────────────────

/// Whether an `if` between spaces, the first of which may be a tab, stands at the front of `s`.
pub open spec fn begins_if(s: Seq<char>) -> bool {
    " if "@.is_prefix_of(s) || "\tif "@.is_prefix_of(s)
}

/// How deep in parentheses one is behind `c`. A closing one too many counts for nothing.
pub open spec fn depth_after(depth: nat, c: char) -> nat {
    if c == '(' {
        depth + 1
    } else if c == ')' && depth > 0 {
        (depth - 1) as nat
    } else {
        depth
    }
}

/// Where the first `if` stands in `s` that is in no parentheses, `depth` of which are open.
pub open spec fn if_position(s: Seq<char>, depth: nat) -> Option<nat>
    decreases s.len(),
{
    if s.len() == 0 {
        None
    } else if depth == 0 && begins_if(s) {
        Some(0)
    } else {
        match if_position(s.drop_first(), depth_after(depth, s[0])) {
            Some(n) => Some(n + 1),
            None => None,
        }
    }
}

/// What stands behind the first word of a line and the white space after it.
pub open spec fn behind_keyword(line: Seq<char>) -> Seq<char> {
    let n = until_space(line);
    if n < line.len() {
        trimmed(line.skip((n + 1) as int))
    } else {
        seq![]
    }
}

/// The target of a `select` or `imply` line, as it is written, and its condition; nothing where
/// the line names no target.
pub open spec fn select_parts(line: Seq<char>) -> Option<(Seq<char>, Expr)> {
    let rest = behind_keyword(line);
    if rest.len() == 0 {
        None
    } else {
        match if_position(rest, 0) {
            Some(n) => Some(
                (trimmed(rest.take(n as int)), text_expr(trimmed(rest.skip((n + 3) as int)))),
            ),
            None => Some((rest, Expr::Always)),
        }
    }
}

/// The target of a `select` or `imply` line and its condition.
pub open spec fn select_of(line: Seq<char>) -> Option<(Seq<char>, Expr)> {
    match select_parts(line) {
        Some((target, cond)) => Some((uppercase(target), cond)),
        None => None,
    }
}

proof fn lemma_if_bound(s: Seq<char>, depth: nat)
    ensures
        if_position(s, depth) matches Some(n) ==> n + 4 <= s.len(),
    decreases s.len(),
{
    reveal_strlit(" if ");
    reveal_strlit("\tif ");
    if s.len() > 0 && !(depth == 0 && begins_if(s)) {
        lemma_if_bound(s.drop_first(), depth_after(depth, s[0]));
    }
}

/// Finds a bare ` if ` separator in a select line (not inside parentheses).
pub fn find_if_keyword(s: &[char]) -> (at: Option<usize>)
    ensures
        match at {
            Some(n) => if_position(s@, 0) == Some(n as nat),
            None => if_position(s@, 0) is None,
        },
{
    let mut depth: usize = 0;
    let mut i: usize = 0;
    assert(s@.skip(0) =~= s@);
    while i < s.len()
        invariant
            i <= s@.len(),
            depth <= i,
            if_position(s@, 0) == match if_position(s@.skip(i as int), depth as nat) {
                Some(n) => Some(n + i as nat),
                None => None,
            },
        decreases s@.len() - i,
    {
        let rest = slice_subrange(s, i, s.len());
        assert(rest@ =~= s@.skip(i as int));
        assert(rest@.drop_first() =~= s@.skip(i + 1));
        if depth == 0 && (starts_with(rest, " if ") || starts_with(rest, "\tif ")) {
            return Some(i);
        }
        if s[i] == '(' {
            depth += 1;
        } else if s[i] == ')' && depth > 0 {
            depth -= 1;
        }
        i += 1;
    }
    None
}

/// Splits a `select` or `imply` line into its target, as it is written, and its condition.
pub fn split_select(line: &[char]) -> (parts: Option<(String, ConfigExpr)>)
    ensures
        match parts {
            Some(p) => select_parts(line@) == Some((p.0@, p.1@)),
            None => select_parts(line@) is None,
        },
{
    assert(line@.skip(0) =~= line@);
    let n = find_space(line, 0);
    if n == line.len() {
        return None;
    }
    let rest = trim(slice_subrange(line, n + 1, line.len()));
    assert(rest@ == behind_keyword(line@));
    if rest.len() == 0 {
        return None;
    }
    proof {
        lemma_if_bound(rest@, 0);
    }
    match find_if_keyword(rest) {
        Some(at) => {
            let target = trim(slice_subrange(rest, 0, at));
            let cond = trim(slice_subrange(rest, at + 3, rest.len()));
            Some((string_of(target), parse_chars(cond)))
        },
        None => Some((string_of(rest), ConfigExpr::Always)),
    }
}

/// Parses `select TARGET [if EXPR]` or `imply TARGET [if EXPR]`.
pub fn parse_select_line(line: &[char]) -> (select: Option<(String, ConfigExpr)>)
    ensures
        match select {
            Some(p) => select_of(line@) == Some((p.0@, p.1@)),
            None => select_of(line@) is None,
        },
{
    match split_select(line) {
        Some((target, cond)) => Some((target.as_str().to_uppercase(), cond)),
        None => None,
    }
}

// ── Reading directives ────────────────────────────────────────────────────────

/// The first word of a line.
pub fn read_first_word(line: &[char]) -> (word: Vec<char>)
    ensures
        word@ == first_word(line@),
{
    let parts = split_words(line);
    if parts.len() > 0 {
        assert(slice_views(parts@)[0] == parts@[0]@);
        copy_chars(parts[0])
    } else {
        let word: Vec<char> = Vec::new();
        assert(word@ =~= seq![]);
        word
    }
}

/// An owned copy of `s`.
fn copy_chars(s: &[char]) -> (v: Vec<char>)
    ensures
        v@ == s@,
{
    let mut v: Vec<char> = Vec::new();
    append_chars(&mut v, s);
    assert(v@ =~= s@);
    v
}

/// A name in upper case without a leading `CONFIG_`, which does not belong in Kconfig files.
pub fn bare_name(upper: &str) -> (name: String)
    ensures
        name@ == bare(upper@),
{
    let chars = chars_of(upper);
    match strip_prefix(chars.as_slice(), "CONFIG_") {
        Some(rest) => string_of(rest),
        None => string_of(chars.as_slice()),
    }
}

/// The name that a `config` or `menuconfig` line declares.
pub fn read_declared_name(line: &[char]) -> (name: String)
    ensures
        name@ == declared_name(line@),
{
    let parts = split_words(line);
    let word = if parts.len() > 1 {
        assert(slice_views(parts@)[1] == parts@[1]@);
        string_of(parts[1])
    } else {
        let word = String::new();
        assert(word@ =~= seq![]);
        word
    };
    bare_name(word.as_str().to_uppercase().as_str())
}

/// The type that a word stands for.
pub fn read_kind(word: &[char]) -> (kind: Option<SymbolKind>)
    ensures
        kind == kind_of(word@),
{
    if is_word(word, "bool") {
        Some(SymbolKind::Bool)
    } else if is_word(word, "tristate") {
        Some(SymbolKind::Tristate)
    } else if is_word(word, "int") {
        Some(SymbolKind::Int)
    } else if is_word(word, "hex") {
        Some(SymbolKind::Hex)
    } else if is_word(word, "string") {
        Some(SymbolKind::String)
    } else {
        None
    }
}

/// The expression behind `depends on`.
pub fn read_depends(line: &[char]) -> (expr: Option<ConfigExpr>)
    ensures
        match expr {
            Some(e) => depends_text(line@).len() > 0 && e@ == text_expr(depends_text(line@)),
            None => depends_text(line@).len() == 0,
        },
{
    let rest = match strip_prefix(line, "depends on ") {
        Some(r) => trim(r),
        None => match strip_prefix(line, "depends\ton ") {
            Some(r) => trim(r),
            None => {
                return None;
            },
        },
    };
    if rest.len() == 0 {
        None
    } else {
        Some(parse_chars(rest))
    }
}

/// The expression behind `if`.
pub fn read_if(line: &[char]) -> (expr: Option<ConfigExpr>)
    ensures
        match expr {
            Some(e) => if_text(line@).len() > 0 && e@ == text_expr(if_text(line@)),
            None => if_text(line@).len() == 0,
        },
{
    match strip_prefix(line, "if") {
        Some(r) => {
            let rest = trim(r);
            if rest.len() == 0 {
                None
            } else {
                Some(parse_chars(rest))
            }
        },
        None => None,
    }
}

/// What stands behind the leading `word`, without white space and quotation marks around it.
pub fn read_argument(line: &[char], word: &str) -> (text: String)
    ensures
        text@ == argument(line@, word@),
{
    match strip_prefix(line, word) {
        Some(rest) => string_of(trim_char(trim(rest), '"')),
        None => {
            let text = String::new();
            assert(text@ =~= seq![]);
            assert(trimmed(Seq::<char>::empty()) =~= Seq::<char>::empty());
            assert(unquoted(Seq::<char>::empty()) =~= Seq::<char>::empty());
            text
        },
    }
}

} // verus!
