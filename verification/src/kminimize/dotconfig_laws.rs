//! What holds of a `.config` file after it has been rewritten.
use crate::kminimize::dotconfig::{
    are_missing, is_rewrite, is_set_in, not_set_line, not_set_lines, rewritten, rewritten_lines,
    set_by, setting_of, settings, unlines, went_off,
};
use crate::split::{chomped, lemma_until_char, lemma_until_char_bound, lines, until_char};
use crate::text::{is_space, trimmed_end, without_leading};
use crate::text_laws::{
    all_space, is_free_of, lemma_affixes, lemma_cut_at_first, lemma_stripped,
};
use vstd::prelude::*;

verus! {

/// Whether `s` holds no `c`.
pub open spec fn lacks(s: Seq<char>, c: char) -> bool {
    forall|i: int| 0 <= i < s.len() ==> #[trigger] s[i] != c
}

/// Whether the line that says that `symbol` is not set does not itself read as a setting of one of
/// `off`.
pub open spec fn reads_plain(symbol: Seq<char>, off: Set<Seq<char>>) -> bool {
    set_by(not_set_line(symbol), off) is None
}

/// The lines of a rewritten file, where `missing` are the symbols that no line spoke of.
pub open spec fn new_lines(
    original: Seq<char>,
    off: Set<Seq<char>>,
    missing: Seq<Seq<char>>,
) -> Seq<Seq<char>> {
    rewritten_lines(lines(original), off) + not_set_lines(missing)
}

// ── Lines and texts ───────────────────────────────────────────────────────────

proof fn lemma_until_found(s: Seq<char>, c: char)
    ensures
        until_char(s, c) <= s.len(),
        until_char(s, c) < s.len() ==> s[until_char(s, c) as int] == c,
        lacks(s.take(until_char(s, c) as int), c),
    decreases s.len(),
{
    lemma_until_char_bound(s, c);
    if s.len() > 0 && s[0] != c {
        let t = s.drop_first();
        lemma_until_found(t, c);
        let n = until_char(t, c) as int;
        assert(s[n + 1] == t[n] || n == t.len());
        assert forall|i: int| 0 <= i < n + 1 implies #[trigger] s.take(n + 1)[i] != c by {
            if i > 0 {
                assert(t.take(n)[i - 1] != c);
                assert(s.take(n + 1)[i] == t.take(n)[i - 1]);
            }
        }
    }
}

proof fn lemma_lines_front(p: Seq<char>, rest: Seq<char>)
    requires
        lacks(p, '\n'),
    ensures
        lines(p + "\n"@ + rest) == seq![chomped(p)] + lines(rest),
{
    reveal_strlit("\n");
    let s = p + "\n"@ + rest;
    let n = p.len() as int;
    assert(s[n] == '\n');
    assert forall|i: int| 0 <= i < n implies s[i] != '\n' by {
        assert(s[i] == p[i]);
    }
    lemma_until_char(s, '\n', n);
    assert(s.take(n) =~= p);
    assert(s.skip(n + 1) =~= rest);
}

proof fn lemma_unlines_front(p: Seq<char>, parts: Seq<Seq<char>>)
    ensures
        unlines(seq![p] + parts) == p + "\n"@ + unlines(parts),
    decreases parts.len(),
{
    let all = seq![p] + parts;
    if parts.len() == 0 {
        assert(all.drop_last() =~= parts);
        assert(unlines(parts) == Seq::<char>::empty());
        assert(all.last() == p);
        assert(unlines(all) =~= p + "\n"@ + unlines(parts));
    } else {
        lemma_unlines_front(p, parts.drop_last());
        assert(all.drop_last() =~= seq![p] + parts.drop_last());
        assert(all.last() == parts.last());
        assert(unlines(all) =~= p + "\n"@ + unlines(parts));
    }
}

/// Lines without line feeds can be read back from their text; a carriage return at the end of one
/// counts as part of its ending.
pub proof fn lemma_lines_of_unlines(parts: Seq<Seq<char>>)
    requires
        forall|i: int| 0 <= i < parts.len() ==> lacks(#[trigger] parts[i], '\n'),
    ensures
        lines(unlines(parts)) == Seq::new(parts.len(), |i: int| chomped(parts[i])),
    decreases parts.len(),
{
    let want = Seq::new(parts.len(), |i: int| chomped(parts[i]));
    if parts.len() == 0 {
        assert(unlines(parts) =~= seq![]);
        assert(want =~= seq![]);
    } else {
        let rest = parts.drop_first();
        assert forall|i: int| 0 <= i < rest.len() implies lacks(#[trigger] rest[i], '\n') by {
            assert(rest[i] == parts[i + 1]);
        }
        lemma_lines_of_unlines(rest);
        assert(parts =~= seq![parts[0]] + rest);
        lemma_unlines_front(parts[0], rest);
        lemma_lines_front(parts[0], unlines(rest));
        assert(want =~= seq![chomped(parts[0])] + Seq::new(
            rest.len(),
            |i: int| chomped(rest[i]),
        ));
    }
}

/// No line holds a line feed.
pub proof fn lemma_lines_lack_feeds(s: Seq<char>)
    ensures
        forall|i: int| 0 <= i < lines(s).len() ==> lacks(#[trigger] lines(s)[i], '\n'),
    decreases s.len(),
{
    if s.len() > 0 {
        let n = until_char(s, '\n') as int;
        lemma_until_found(s, '\n');
        if n < s.len() {
            lemma_lines_lack_feeds(s.skip(n + 1));
            assert forall|i: int| 0 <= i < lines(s).len() implies lacks(
                #[trigger] lines(s)[i],
                '\n',
            ) by {
                if i == 0 {
                    let p = s.take(n);
                    assert(lines(s)[0] == chomped(p));
                    assert forall|k: int| 0 <= k < chomped(p).len() implies #[trigger] chomped(p)[k]
                        != '\n' by {
                        assert(p[k] != '\n');
                    }
                } else {
                    assert(lines(s)[i] == lines(s.skip(n + 1))[i - 1]);
                }
            }
        } else {
            assert(s.take(n) =~= s);
        }
    }
}

// ── The rewritten lines ───────────────────────────────────────────────────────

proof fn lemma_not_set_lacks(symbol: Seq<char>, c: char)
    requires
        lacks(symbol, c),
        c == '=' || c == '\n',
    ensures
        lacks(not_set_line(symbol), c),
{
    reveal_strlit("# ");
    reveal_strlit(" is not set");
    let line = not_set_line(symbol);
    assert forall|i: int| 0 <= i < line.len() implies #[trigger] line[i] != c by {
        if 2 <= i < 2 + symbol.len() {
            assert(line[i] == symbol[i - 2]);
        } else if i < 2 {
            assert(line[i] == "# "@[i]);
        } else {
            assert(line[i] == " is not set"@[i - 2 - symbol.len()]);
        }
    }
}

proof fn lemma_set_symbol_lacks(line: Seq<char>, off: Set<Seq<char>>, c: char)
    requires
        set_by(line, off) is Some,
        c == '=' || lacks(line, c),
    ensures
        lacks(set_by(line, off)->0, c),
{
    let n = until_char(line, '=') as int;
    lemma_until_found(line, '=');
    let symbol = set_by(line, off)->0;
    assert(symbol == line.take(n));
    if c != '=' {
        assert forall|i: int| 0 <= i < symbol.len() implies #[trigger] symbol[i] != c by {
            assert(symbol[i] == line[i]);
        }
    }
}

/// The line that says that a symbol without an equals sign is not set reads plain, whatever else is
/// to be disabled.
pub proof fn lemma_reads_plain(symbol: Seq<char>, off: Set<Seq<char>>)
    requires
        lacks(symbol, '='),
    ensures
        reads_plain(symbol, off),
{
    lemma_not_set_lacks(symbol, '=');
    lemma_until_char(not_set_line(symbol), '=', not_set_line(symbol).len() as int);
}

/// After rewriting, no line sets a symbol that was to be disabled.
pub proof fn lemma_rewritten_sets_none(
    original: Seq<char>,
    off: Set<Seq<char>>,
    missing: Seq<Seq<char>>,
    i: int,
)
    requires
        are_missing(lines(original), off, missing),
        forall|s: Seq<char>| #[trigger] off.contains(s) ==> reads_plain(s, off),
        0 <= i < new_lines(original, off, missing).len(),
    ensures
        set_by(new_lines(original, off, missing)[i], off) is None,
{
    let old_lines = lines(original);
    let line = new_lines(original, off, missing)[i];
    if i < old_lines.len() && set_by(old_lines[i], off) is None {
        assert(line == old_lines[i]);
    } else {
        let symbol = if i < old_lines.len() {
            set_by(old_lines[i], off)->0
        } else {
            missing[i - old_lines.len()]
        };
        if i >= old_lines.len() {
            assert(missing.contains(symbol));
        }
        assert(off.contains(symbol));
        assert(line == not_set_line(symbol));
    }
}

/// After rewriting, every symbol that was to be disabled has a line that says that it is not set.
pub proof fn lemma_rewritten_disables_all(
    original: Seq<char>,
    off: Set<Seq<char>>,
    missing: Seq<Seq<char>>,
    symbol: Seq<char>,
)
    requires
        are_missing(lines(original), off, missing),
        off.contains(symbol),
        reads_plain(symbol, off),
    ensures
        new_lines(original, off, missing).contains(not_set_line(symbol)),
{
    let old_lines = lines(original);
    let all = new_lines(original, off, missing);
    if is_set_in(old_lines, off, symbol) {
        let i = choose|i: int|
            0 <= i < old_lines.len() && set_by(#[trigger] old_lines[i], off) == Some(symbol);
        assert(all[i] == not_set_line(symbol));
    } else if old_lines.contains(not_set_line(symbol)) {
        let i = choose|i: int| 0 <= i < old_lines.len() && old_lines[i] == not_set_line(symbol);
        assert(all[i] == old_lines[i]);
    } else {
        assert(missing.contains(symbol));
        let k = choose|k: int| 0 <= k < missing.len() && missing[k] == symbol;
        assert(all[old_lines.len() + k] == not_set_line(symbol));
    }
}

/// Rewriting leaves every line that sets no symbol to be disabled as it is and where it is.
pub proof fn lemma_rewritten_keeps_others(
    original: Seq<char>,
    off: Set<Seq<char>>,
    missing: Seq<Seq<char>>,
    i: int,
)
    requires
        0 <= i < lines(original).len(),
        set_by(lines(original)[i], off) is None,
    ensures
        new_lines(original, off, missing)[i] == lines(original)[i],
{
}

// ── Reading a rewritten file ──────────────────────────────────────────────────

proof fn lemma_trimmed_end_prefix(s: Seq<char>)
    ensures
        trimmed_end(s).len() <= s.len(),
        trimmed_end(s) == s.take(trimmed_end(s).len() as int),
    decreases s.len(),
{
    if s.len() > 0 && is_space(s.last()) {
        lemma_trimmed_end_prefix(s.drop_last());
        let n = trimmed_end(s.drop_last()).len() as int;
        assert(s.drop_last().take(n) =~= s.take(n));
    } else {
        assert(s.take(s.len() as int) =~= s);
    }
}

proof fn lemma_trimmed_of_chomped(s: Seq<char>)
    ensures
        trimmed_end(chomped(s)) == trimmed_end(s),
{
}

/// What a line says that a symbol is not set comes to.
proof fn lemma_setting_of_not_set(name: Seq<char>)
    ensures
        setting_of(not_set_line("CONFIG_"@ + name)) == Some((name, "n"@)),
{
    reveal_strlit("# ");
    reveal_strlit(" is not set");
    reveal_strlit("CONFIG_");
    reveal_strlit("# CONFIG_");
    let line = not_set_line("CONFIG_"@ + name);
    assert(line[0] == '#');
    assert(line.last() == 't');
    assert(trimmed_end(line) == line);
    assert(!"CONFIG_"@.is_prefix_of(line)) by {
        assert("CONFIG_"@[0] == 'C');
    }
    let rest = name + " is not set"@;
    assert(line =~= "# CONFIG_"@ + rest);
    assert("# CONFIG_"@.is_prefix_of(line)) by {
        assert(line.take(9) =~= "# CONFIG_"@);
    }
    assert(line.skip(9) =~= rest);
    assert(" is not set"@.is_suffix_of(rest)) by {
        assert(rest.skip(name.len() as int) =~= " is not set"@);
    }
    assert(rest.take(name.len() as int) =~= name);
}

/// A line that says that a symbol is not set gives no symbol a value but `n`.
proof fn lemma_not_set_gives_n(symbol: Seq<char>)
    ensures
        setting_of(not_set_line(symbol)) matches Some((name, value)) ==> value == "n"@,
{
    reveal_strlit("# ");
    reveal_strlit(" is not set");
    reveal_strlit("CONFIG_");
    let line = not_set_line(symbol);
    assert(line[0] == '#');
    assert(line.last() == 't');
    assert(trimmed_end(line) == line);
    assert(!"CONFIG_"@.is_prefix_of(line)) by {
        assert("CONFIG_"@[0] == 'C');
    }
}

/// A line that sets no symbol of `off` gives none of them a value but `n`.
proof fn lemma_kept_line_gives_n(line: Seq<char>, off: Set<Seq<char>>)
    requires
        set_by(line, off) is None,
    ensures
        setting_of(line) matches Some((name, value)) ==> value == "n"@ || !off.contains(
            "CONFIG_"@ + name,
        ),
{
    reveal_strlit("CONFIG_");
    let text = trimmed_end(line);
    lemma_trimmed_end_prefix(line);
    if "CONFIG_"@.is_prefix_of(text) {
        let rest = text.skip(7);
        let n = until_char(rest, '=') as int;
        lemma_until_found(rest, '=');
        if n < rest.len() {
            let name = rest.take(n);
            assert(line[n + 7] == '=') by {
                assert(rest[n] == text[n + 7]);
                assert(text[n + 7] == line[n + 7]);
            }
            assert forall|i: int| 0 <= i < n + 7 implies line[i] != '=' by {
                assert(line[i] == text[i]);
                if i >= 7 {
                    assert(name[i - 7] == text[i]);
                } else {
                    assert(text[i] == text.take(7)[i]);
                    assert(text.take(7) == "CONFIG_"@);
                }
            }
            lemma_until_char(line, '=', n + 7);
            assert(line.take(n + 7) =~= "CONFIG_"@ + name) by {
                assert forall|i: int| 0 <= i < n + 7 implies line.take(n + 7)[i] == ("CONFIG_"@
                    + name)[i] by {
                    assert(line[i] == text[i]);
                    if i >= 7 {
                        assert(name[i - 7] == text[i]);
                    } else {
                        assert(text[i] == text.take(7)[i]);
                        assert(text.take(7) == "CONFIG_"@);
                    }
                }
            }
        }
    }
}

proof fn lemma_settings_all_n(parts: Seq<Seq<char>>, name: Seq<char>, k: int)
    requires
        0 <= k < parts.len(),
        setting_of(parts[k]) == Some((name, "n"@)),
        forall|i: int| 0 <= i < parts.len() ==> gives_n(#[trigger] parts[i], name),
    ensures
        settings(parts).contains_key(name),
        settings(parts)[name] == "n"@,
    decreases parts.len(),
{
    let front = parts.drop_last();
    assert(gives_n(parts[parts.len() - 1], name));
    if k < front.len() {
        assert forall|i: int| 0 <= i < front.len() implies gives_n(#[trigger] front[i], name) by {
            assert(front[i] == parts[i]);
        }
        assert(front[k] == parts[k]);
        lemma_settings_all_n(front, name, k);
    }
}

/// Whether a line gives the symbol `name` no value but `n`.
spec fn gives_n(line: Seq<char>, name: Seq<char>) -> bool {
    match setting_of(line) {
        Some((s, value)) => s == name ==> value == "n"@,
        None => true,
    }
}

/// The lines of a rewritten file are those that were written.
proof fn lemma_lines_of_rewrite(original: Seq<char>, off: Set<Seq<char>>, missing: Seq<Seq<char>>)
    requires
        are_missing(lines(original), off, missing),
        forall|s: Seq<char>| #[trigger] off.contains(s) ==> lacks(s, '\n'),
    ensures
        ({
            let all = new_lines(original, off, missing);
            lines(unlines(all)) == Seq::new(all.len(), |i: int| chomped(all[i]))
        }),
{
    let old_lines = lines(original);
    let all = new_lines(original, off, missing);
    lemma_lines_lack_feeds(original);
    assert forall|i: int| 0 <= i < all.len() implies lacks(#[trigger] all[i], '\n') by {
        if i < old_lines.len() {
            assert(lacks(old_lines[i], '\n'));
            assert(all[i] == rewritten(old_lines[i], off));
            if set_by(old_lines[i], off) is Some {
                lemma_set_symbol_lacks(old_lines[i], off, '\n');
                lemma_not_set_lacks(set_by(old_lines[i], off)->0, '\n');
            }
        } else {
            let s = missing[i - old_lines.len()];
            assert(missing.contains(s));
            lemma_not_set_lacks(s, '\n');
        }
    }
    lemma_lines_of_unlines(all);
}

/// A rewritten file reads as `n` for every symbol that was to be disabled, whatever the file held
/// before.
pub proof fn lemma_disabled_reads_n(
    original: Seq<char>,
    off: Set<Seq<char>>,
    output: Seq<char>,
    name: Seq<char>,
)
    requires
        is_rewrite(original, off, output),
        forall|s: Seq<char>| #[trigger] off.contains(s) ==> lacks(s, '\n'),
        off.contains("CONFIG_"@ + name),
        reads_plain("CONFIG_"@ + name, off),
    ensures
        settings(lines(output)).contains_key(name),
        settings(lines(output))[name] == "n"@,
{
    let old_lines = lines(original);
    let missing = choose|missing: Seq<Seq<char>>| #[trigger]
        are_missing(old_lines, off, missing) && output == unlines(
            rewritten_lines(old_lines, off) + not_set_lines(missing),
        );
    let all = new_lines(original, off, missing);
    lemma_lines_of_rewrite(original, off, missing);
    let read = lines(output);
    assert forall|i: int| 0 <= i < read.len() implies gives_n(#[trigger] read[i], name) by {
        assert(read[i] == chomped(all[i]));
        lemma_trimmed_of_chomped(all[i]);
        if i < old_lines.len() && set_by(old_lines[i], off) is None {
            assert(all[i] == old_lines[i]);
            lemma_kept_line_gives_n(all[i], off);
        } else if i < old_lines.len() {
            lemma_not_set_gives_n(set_by(old_lines[i], off)->0);
        } else {
            lemma_not_set_gives_n(missing[i - old_lines.len()]);
        }
    }
    let symbol = "CONFIG_"@ + name;
    lemma_rewritten_disables_all(original, off, missing, symbol);
    let k = choose|k: int| 0 <= k < all.len() && all[k] == not_set_line(symbol);
    lemma_setting_of_not_set(name);
    lemma_trimmed_of_chomped(all[k]);
    assert(setting_of(read[k]) == Some((name, "n"@)));
    lemma_settings_all_n(read, name, k);
}

/// Whether a line says something of the symbol `name`.
pub open spec fn concerns(line: Seq<char>, name: Seq<char>) -> bool {
    setting_of(line) matches Some((s, value)) && s == name
}

proof fn lemma_settings_same(a: Seq<Seq<char>>, b: Seq<Seq<char>>, name: Seq<char>)
    requires
        a.len() <= b.len(),
        forall|i: int|
            0 <= i < a.len() && (concerns(a[i], name) || concerns(#[trigger] b[i], name))
                ==> setting_of(a[i]) == setting_of(b[i]),
        forall|i: int| a.len() <= i < b.len() ==> !concerns(#[trigger] b[i], name),
    ensures
        settings(b).contains_key(name) == settings(a).contains_key(name),
        settings(a).contains_key(name) ==> settings(b)[name] == settings(a)[name],
    decreases b.len(),
{
    if b.len() > 0 {
        let shorter = if a.len() == b.len() {
            a.drop_last()
        } else {
            a
        };
        let front = b.drop_last();
        assert forall|i: int|
            0 <= i < shorter.len() && (concerns(shorter[i], name) || concerns(
                #[trigger] front[i],
                name,
            )) implies setting_of(shorter[i]) == setting_of(front[i]) by {
            assert(front[i] == b[i]);
            assert(shorter[i] == a[i]);
        }
        assert forall|i: int| shorter.len() <= i < front.len() implies !concerns(
            #[trigger] front[i],
            name,
        ) by {
            assert(front[i] == b[i]);
        }
        lemma_settings_same(shorter, front, name);
        assert(concerns(b[b.len() - 1], name) == concerns(b.last(), name));
    }
}

/// The line that says that a symbol is not set concerns that symbol at most.
proof fn lemma_not_set_concerns(symbol: Seq<char>, name: Seq<char>)
    requires
        concerns(not_set_line(symbol), name),
    ensures
        symbol == "CONFIG_"@ + name,
{
    reveal_strlit("# ");
    reveal_strlit(" is not set");
    reveal_strlit("CONFIG_");
    reveal_strlit("# CONFIG_");
    let line = not_set_line(symbol);
    assert(line[0] == '#');
    assert(line.last() == 't');
    assert(trimmed_end(line) == line);
    assert(!"CONFIG_"@.is_prefix_of(line)) by {
        assert("CONFIG_"@[0] == 'C');
    }
    let rest = line.skip(9);
    assert("# CONFIG_"@.is_prefix_of(line));
    assert(name == rest.take(rest.len() - 11));
    assert(symbol =~= line.subrange(2, line.len() - 11));
    assert("CONFIG_"@ + name =~= line.subrange(2, line.len() - 11)) by {
        assert(line.take(9) =~= "# CONFIG_"@);
        assert forall|i: int| 0 <= i < 7 implies "CONFIG_"@[i] == line[i + 2] by {
            assert("# CONFIG_"@[i + 2] == line.take(9)[i + 2]);
        }
    }
}

/// A line that sets a symbol of `off` concerns that symbol at most.
proof fn lemma_set_line_concerns(line: Seq<char>, off: Set<Seq<char>>, name: Seq<char>)
    requires
        set_by(line, off) is Some,
        "CONFIG_"@.is_prefix_of(set_by(line, off)->0),
        concerns(line, name),
    ensures
        set_by(line, off) == Some("CONFIG_"@ + name),
{
    reveal_strlit("CONFIG_");
    let n = until_char(line, '=') as int;
    lemma_until_found(line, '=');
    let text = trimmed_end(line);
    lemma_trimmed_end_prefix(line);
    lemma_trimmed_end_stops(line, n);
    let symbol = line.take(n);
    assert(symbol.take(7) =~= "CONFIG_"@);
    assert(text.take(7) =~= symbol.take(7));
    assert("CONFIG_"@.is_prefix_of(text));
    let rest = text.skip(7);
    assert(rest[n - 7] == '=');
    assert forall|i: int| 0 <= i < n - 7 implies rest[i] != '=' by {
        assert(symbol[i + 7] == rest[i]);
    }
    lemma_until_char(rest, '=', n - 7);
    assert(symbol =~= "CONFIG_"@ + rest.take(n - 7)) by {
        assert forall|i: int| 0 <= i < n implies symbol[i] == ("CONFIG_"@ + rest.take(n - 7))[i] by {
            if i < 7 {
                assert(symbol[i] == symbol.take(7)[i]);
            }
        }
    }
}

/// Trimming the end of a text stops behind every character that is not white space.
proof fn lemma_trimmed_end_stops(s: Seq<char>, n: int)
    requires
        0 <= n < s.len(),
        !is_space(s[n]),
    ensures
        n < trimmed_end(s).len(),
    decreases s.len(),
{
    if is_space(s.last()) {
        lemma_trimmed_end_stops(s.drop_last(), n);
    }
}

/// A rewritten file reads as before for every symbol that was not to be disabled.
pub proof fn lemma_others_read_as_before(
    original: Seq<char>,
    off: Set<Seq<char>>,
    output: Seq<char>,
    name: Seq<char>,
)
    requires
        is_rewrite(original, off, output),
        forall|s: Seq<char>| #[trigger]
            off.contains(s) ==> lacks(s, '\n') && "CONFIG_"@.is_prefix_of(s),
        !off.contains("CONFIG_"@ + name),
    ensures
        settings(lines(output)).contains_key(name) == settings(lines(original)).contains_key(name),
        settings(lines(original)).contains_key(name) ==> settings(lines(output))[name] == settings(
            lines(original),
        )[name],
{
    let old_lines = lines(original);
    let missing = choose|missing: Seq<Seq<char>>| #[trigger]
        are_missing(old_lines, off, missing) && output == unlines(
            rewritten_lines(old_lines, off) + not_set_lines(missing),
        );
    let all = new_lines(original, off, missing);
    lemma_lines_of_rewrite(original, off, missing);
    let read = lines(output);
    assert forall|i: int|
        0 <= i < old_lines.len() && (concerns(old_lines[i], name) || concerns(
            #[trigger] read[i],
            name,
        )) implies setting_of(old_lines[i]) == setting_of(read[i]) by {
        assert(read[i] == chomped(all[i]));
        lemma_trimmed_of_chomped(all[i]);
        assert(all[i] == rewritten(old_lines[i], off));
        if set_by(old_lines[i], off) is Some {
            let symbol = set_by(old_lines[i], off)->0;
            if concerns(old_lines[i], name) {
                lemma_set_line_concerns(old_lines[i], off, name);
            }
            if concerns(read[i], name) {
                lemma_not_set_concerns(symbol, name);
            }
        }
    }
    assert forall|i: int| old_lines.len() <= i < read.len() implies !concerns(
        #[trigger] read[i],
        name,
    ) by {
        assert(read[i] == chomped(all[i]));
        lemma_trimmed_of_chomped(all[i]);
        let symbol = missing[i - old_lines.len()];
        assert(missing.contains(symbol));
        if concerns(read[i], name) {
            lemma_not_set_concerns(symbol, name);
        }
    }
    lemma_settings_same(old_lines, read, name);
}

/// Rewriting a rewritten file with the same symbols changes nothing, as long as no line that is kept
/// ended in a carriage return besides that of its line ending.
pub proof fn lemma_rewriting_settles(
    original: Seq<char>,
    off: Set<Seq<char>>,
    output: Seq<char>,
    again: Seq<char>,
)
    requires
        is_rewrite(original, off, output),
        is_rewrite(output, off, again),
        forall|s: Seq<char>| #[trigger] off.contains(s) ==> lacks(s, '\n') && reads_plain(s, off),
        forall|i: int|
            0 <= i < lines(original).len() && set_by(#[trigger] lines(original)[i], off) is None
                && lines(original)[i].len() > 0 ==> lines(original)[i].last() != '\r',
    ensures
        again == output,
{
    let old_lines = lines(original);
    let missing = choose|missing: Seq<Seq<char>>| #[trigger]
        are_missing(old_lines, off, missing) && output == unlines(
            rewritten_lines(old_lines, off) + not_set_lines(missing),
        );
    let all = new_lines(original, off, missing);
    lemma_lines_of_rewrite(original, off, missing);
    assert forall|i: int| 0 <= i < all.len() implies chomped(#[trigger] all[i]) == all[i] by {
        if i < old_lines.len() && set_by(old_lines[i], off) is None {
            assert(all[i] == old_lines[i]);
        } else {
            reveal_strlit(" is not set");
            let symbol = if i < old_lines.len() {
                set_by(old_lines[i], off)->0
            } else {
                missing[i - old_lines.len()]
            };
            assert(all[i] == not_set_line(symbol));
            assert(all[i].last() == 't');
        }
    }
    assert(lines(output) =~= all);
    let more = choose|more: Seq<Seq<char>>| #[trigger]
        are_missing(all, off, more) && again == unlines(
            rewritten_lines(all, off) + not_set_lines(more),
        );
    assert forall|i: int| 0 <= i < all.len() implies rewritten(#[trigger] all[i], off)
        == all[i] by {
        lemma_rewritten_sets_none(original, off, missing, i);
    }
    assert(rewritten_lines(all, off) =~= all);
    assert(more.len() == 0) by {
        if more.len() > 0 {
            assert(more.contains(more[0]));
            lemma_rewritten_disables_all(original, off, missing, more[0]);
        }
    }
    assert(rewritten_lines(all, off) + not_set_lines(more) =~= all);
}

// ── Reading values ────────────────────────────────────────────────────────────

/// A line that sets a symbol gives back the name and the value that were written into it.
pub proof fn lemma_setting_reads_back(name: Seq<char>, value: Seq<char>)
    requires
        lacks(name, '='),
        value.len() > 0,
        value[0] != '"',
        value.last() != '"',
        !is_space(value.last()),
    ensures
        setting_of("CONFIG_"@ + name + seq!['='] + value) == Some((name, value)),
{
    let line = "CONFIG_"@ + name + seq!['='] + value;
    let rest = name + seq!['='] + value;
    assert(line.last() == value.last());
    assert(trimmed_end(line) == line);
    assert(line =~= "CONFIG_"@ + rest);
    lemma_affixes("CONFIG_"@, rest, seq![]);
    assert(is_free_of(name, '='));
    lemma_cut_at_first(name, '=', value);
    lemma_stripped(value, '"');
}

/// Quotation marks around a value do not belong to it.
pub proof fn lemma_quoted_setting_reads_back(name: Seq<char>, value: Seq<char>)
    requires
        lacks(name, '='),
        value.len() > 0,
        value[0] != '"',
        value.last() != '"',
    ensures
        setting_of("CONFIG_"@ + name + seq!['=', '"'] + value + seq!['"']) == Some((name, value)),
{
    let tail = value + seq!['"'];
    let inner = seq!['"'] + tail;
    let line = "CONFIG_"@ + name + seq!['=', '"'] + value + seq!['"'];
    let rest = name + seq!['='] + inner;
    assert(line.last() == '"' && !is_space('"'));
    assert(trimmed_end(line) == line);
    assert(line =~= "CONFIG_"@ + rest);
    lemma_affixes("CONFIG_"@, rest, seq![]);
    assert(is_free_of(name, '='));
    lemma_cut_at_first(name, '=', inner);
    assert(inner.drop_first() =~= tail);
    assert(tail[0] == value[0]);
    assert(without_leading(inner, '"') == without_leading(tail, '"'));
    assert(without_leading(tail, '"') == tail);
    lemma_stripped(value, '"');
}

/// A symbol that a line says is not set reads as `n`.
pub proof fn lemma_not_set_reads_back(name: Seq<char>)
    ensures
        setting_of("# CONFIG_"@ + name + " is not set"@) == Some((name, "n"@)),
{
    assert("# CONFIG_"@ + name + " is not set"@ =~= not_set_line("CONFIG_"@ + name)) by {
        reveal_strlit("# ");
        reveal_strlit("CONFIG_");
        reveal_strlit("# CONFIG_");
        assert("# CONFIG_"@ =~= "# "@ + "CONFIG_"@);
    }
    lemma_setting_of_not_set(name);
}

/// Of the lines on one symbol the last counts, wherever it stands; lines on others make no
/// difference.
pub proof fn lemma_last_setting_counts(
    parts: Seq<Seq<char>>,
    name: Seq<char>,
    value: Seq<char>,
    i: int,
)
    requires
        0 <= i < parts.len(),
        setting_of(parts[i]) == Some((name, value)),
        forall|j: int| i < j < parts.len() ==> !concerns(#[trigger] parts[j], name),
    ensures
        settings(parts).contains_key(name),
        settings(parts)[name] == value,
    decreases parts.len(),
{
    if i < parts.len() - 1 {
        let front = parts.drop_last();
        assert(front[i] == parts[i]);
        assert forall|j: int| i < j < front.len() implies !concerns(#[trigger] front[j], name) by {
            assert(front[j] == parts[j]);
        }
        lemma_last_setting_counts(front, name, value, i);
        assert(!concerns(parts[parts.len() - 1], name));
    }
}

/// A symbol has a value only if some line gives it that value.
pub proof fn lemma_settings_have_lines(parts: Seq<Seq<char>>, name: Seq<char>)
    requires
        settings(parts).contains_key(name),
    ensures
        exists|i: int|
            0 <= i < parts.len() && setting_of(#[trigger] parts[i]) == Some(
                (name, settings(parts)[name]),
            ),
    decreases parts.len(),
{
    let front = parts.drop_last();
    let last = parts.len() - 1;
    if concerns(parts.last(), name) {
        assert(setting_of(parts[last]) == Some((name, settings(parts)[name])));
    } else {
        lemma_settings_have_lines(front, name);
        let i = choose|i: int|
            0 <= i < front.len() && setting_of(#[trigger] front[i]) == Some(
                (name, settings(front)[name]),
            );
        assert(setting_of(parts[i]) == Some((name, settings(parts)[name])));
    }
}

/// A symbol went off just where it was `y` or `m` and has no value, or `n`, afterwards.
pub proof fn lemma_went_off(
    before: Map<Seq<char>, Seq<char>>,
    after: Map<Seq<char>, Seq<char>>,
    s: Seq<char>,
)
    ensures
        went_off(before, after, s) <==> before.contains_key(s) && (before[s] == "y"@ || before[s]
            == "m"@) && (!after.contains_key(s) || after[s] == "n"@),
{
}

// ── Line by line ──────────────────────────────────────────────────────────────

/// Whether the line sets one of the symbols of `off`: it is the symbol, an equals sign, and a value.
pub open spec fn sets_one_of(line: Seq<char>, off: Set<Seq<char>>) -> bool {
    exists|s: Seq<char>, value: Seq<char>|
        #![trigger s + seq!['='] + value]
        off.contains(s) && lacks(s, '=') && line == s + seq!['='] + value
}

proof fn lemma_sets_one_of(line: Seq<char>, off: Set<Seq<char>>)
    ensures
        set_by(line, off) is Some <==> sets_one_of(line, off),
{
    if sets_one_of(line, off) {
        let (s, value) = choose|s: Seq<char>, value: Seq<char>|
            #![trigger s + seq!['='] + value]
            off.contains(s) && lacks(s, '=') && line == s + seq!['='] + value;
        assert(is_free_of(s, '='));
        lemma_cut_at_first(s, '=', value);
    }
    if set_by(line, off) is Some {
        let s = set_by(line, off)->0;
        lemma_until_found(line, '=');
        let n = until_char(line, '=') as int;
        let value = line.skip(n + 1);
        assert(line =~= s + seq!['='] + value);
        lemma_set_symbol_lacks_sign(line, off);
    }
}

proof fn lemma_set_symbol_lacks_sign(line: Seq<char>, off: Set<Seq<char>>)
    requires
        set_by(line, off) is Some,
    ensures
        lacks(set_by(line, off)->0, '='),
{
    let n = until_char(line, '=') as int;
    assert forall|i: int| 0 <= i < n implies #[trigger] line.take(n)[i] != '=' by {
        lemma_until_lacks(line, '=', i);
    }
}

proof fn lemma_until_lacks(s: Seq<char>, c: char, i: int)
    requires
        0 <= i < until_char(s, c),
    ensures
        i < s.len(),
        s[i] != c,
    decreases s.len(),
{
    if i > 0 {
        lemma_until_lacks(s.drop_first(), c, i - 1);
    }
}

/// A rewritten file has the lines of the original, in their places: one that sets a symbol to be
/// disabled says that it is not set, and every other is as it was.
pub proof fn lemma_rewrite_line_by_line(
    original: Seq<char>,
    off: Set<Seq<char>>,
    output: Seq<char>,
    i: int,
)
    requires
        is_rewrite(original, off, output),
        forall|s: Seq<char>| #[trigger] off.contains(s) ==> lacks(s, '\n'),
        0 <= i < lines(original).len(),
    ensures
        lines(output).len() >= lines(original).len(),
        !sets_one_of(lines(original)[i], off) ==> lines(output)[i] == chomped(lines(original)[i]),
        forall|s: Seq<char>, value: Seq<char>|
            off.contains(s) && lacks(s, '=') && lines(original)[i] == #[trigger] (s + seq!['=']
                + value) ==> lines(output)[i] == "# "@ + s + " is not set"@,
{
    let old_lines = lines(original);
    let missing = choose|missing: Seq<Seq<char>>| #[trigger]
        are_missing(old_lines, off, missing) && output == unlines(
            rewritten_lines(old_lines, off) + not_set_lines(missing),
        );
    let all = new_lines(original, off, missing);
    lemma_lines_of_rewrite(original, off, missing);
    let line = old_lines[i];
    assert(lines(output)[i] == chomped(all[i]));
    assert(all[i] == rewritten(line, off));
    lemma_sets_one_of(line, off);
    assert forall|s: Seq<char>, value: Seq<char>|
        off.contains(s) && lacks(s, '=') && line == #[trigger] (s + seq!['='] + value) implies lines(
        output,
    )[i] == "# "@ + s + " is not set"@ by {
        assert(is_free_of(s, '='));
        lemma_cut_at_first(s, '=', value);
        reveal_strlit(" is not set");
        assert(not_set_line(s).last() == 't');
    }
}

/// Behind the lines of the original stand lines that say of symbols to be disabled that they are not
/// set, and only of those that no line of the original speaks of.
pub proof fn lemma_rewrite_appends(
    original: Seq<char>,
    off: Set<Seq<char>>,
    output: Seq<char>,
    j: int,
) -> (symbol: Seq<char>)
    requires
        is_rewrite(original, off, output),
        forall|s: Seq<char>| #[trigger] off.contains(s) ==> lacks(s, '\n'),
        lines(original).len() <= j < lines(output).len(),
    ensures
        off.contains(symbol),
        lines(output)[j] == "# "@ + symbol + " is not set"@,
        !lines(original).contains("# "@ + symbol + " is not set"@),
        lacks(symbol, '=') ==> forall|value: Seq<char>|
            !lines(original).contains(#[trigger] (symbol + seq!['='] + value)),
{
    let old_lines = lines(original);
    let missing = choose|missing: Seq<Seq<char>>| #[trigger]
        are_missing(old_lines, off, missing) && output == unlines(
            rewritten_lines(old_lines, off) + not_set_lines(missing),
        );
    let all = new_lines(original, off, missing);
    lemma_lines_of_rewrite(original, off, missing);
    let symbol = missing[j - old_lines.len()];
    assert(missing.contains(symbol));
    assert(all[j] == not_set_line(symbol));
    reveal_strlit(" is not set");
    assert(not_set_line(symbol).last() == 't');
    if lacks(symbol, '=') {
        assert forall|value: Seq<char>| !old_lines.contains(
            #[trigger] (symbol + seq!['='] + value),
        ) by {
            assert(is_free_of(symbol, '='));
            lemma_cut_at_first(symbol, '=', value);
            if old_lines.contains(symbol + seq!['='] + value) {
                let i = choose|i: int|
                    0 <= i < old_lines.len() && old_lines[i] == symbol + seq!['='] + value;
                assert(set_by(old_lines[i], off) == Some(symbol));
            }
        }
    }
    symbol
}

/// White space at the end of a line makes no difference.
pub proof fn lemma_trailing_space_is_idle(line: Seq<char>, space: Seq<char>)
    requires
        all_space(space),
    ensures
        setting_of(line + space) == setting_of(line),
    decreases space.len(),
{
    if space.len() > 0 {
        let front = space.drop_last();
        assert(is_space(space[space.len() - 1]));
        assert forall|i: int| 0 <= i < front.len() implies is_space(#[trigger] front[i]) by {
            assert(is_space(space[i]));
        }
        lemma_trailing_space_is_idle(line, front);
        assert((line + space).drop_last() =~= line + front);
        assert(trimmed_end(line + space) == trimmed_end(line + front));
    } else {
        assert(line + space =~= line);
    }
}

} // verus!
