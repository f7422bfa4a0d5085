//! `.config` files: reading their values and rewriting them.
use crate::kconfig::expr::{is_on, means_on, value_texts};
use crate::names::{ascending, NameMap, NameSet};
use crate::split::{cut, lines, slice_views, split_lines, split_once};
use crate::text::{
    chars_of, same_text, string_of, strip_prefix, strip_suffix, texts, trim_char, trim_end, trimmed_end,
    without_leading, without_prefix, without_suffix, without_trailing,
};
use vstd::prelude::*;

verus! {

// ── Writing ───────────────────────────────────────────────────────────────────

/// The line that says that a symbol is not set.
pub open spec fn not_set_line(symbol: Seq<char>) -> Seq<char> {
    "# "@ + symbol + " is not set"@
}

/// The symbol that a line sets, if it is one of `symbols`.
pub open spec fn set_by(line: Seq<char>, symbols: Set<Seq<char>>) -> Option<Seq<char>> {
    match cut(line, '=') {
        Some((left, _)) => if symbols.contains(left) {
            Some(left)
        } else {
            None
        },
        None => None,
    }
}

/// What becomes of a line when `to_disable` is disabled.
pub open spec fn rewritten(line: Seq<char>, to_disable: Set<Seq<char>>) -> Seq<char> {
    match set_by(line, to_disable) {
        Some(symbol) => not_set_line(symbol),
        None => line,
    }
}

/// What becomes of lines when `to_disable` is disabled.
pub open spec fn rewritten_lines(parts: Seq<Seq<char>>, to_disable: Set<Seq<char>>) -> Seq<
    Seq<char>,
> {
    Seq::new(parts.len(), |i: int| rewritten(parts[i], to_disable))
}

/// Whether some line sets the symbol.
pub open spec fn is_set_in(
    parts: Seq<Seq<char>>,
    to_disable: Set<Seq<char>>,
    symbol: Seq<char>,
) -> bool {
    exists|i: int|
        0 <= i < parts.len() && set_by(#[trigger] parts[i], to_disable) == Some(symbol)
}

/// Whether no line speaks of the symbol: none sets it, and none says that it is not set.
pub open spec fn is_absent_from(
    parts: Seq<Seq<char>>,
    to_disable: Set<Seq<char>>,
    symbol: Seq<char>,
) -> bool {
    !is_set_in(parts, to_disable, symbol) && !parts.contains(not_set_line(symbol))
}

/// Whether `missing` lists, by name, the symbols of `to_disable` that no line speaks of.
pub open spec fn are_missing(
    parts: Seq<Seq<char>>,
    to_disable: Set<Seq<char>>,
    missing: Seq<Seq<char>>,
) -> bool {
    &&& ascending(missing)
    &&& forall|s: Seq<char>| #[trigger]
        missing.contains(s) <==> to_disable.contains(s) && is_absent_from(parts, to_disable, s)
}

/// The lines that say of each of `symbols` that it is not set.
pub open spec fn not_set_lines(symbols: Seq<Seq<char>>) -> Seq<Seq<char>> {
    Seq::new(symbols.len(), |i: int| not_set_line(symbols[i]))
}

/// The text of lines, each ended by a line feed.
pub open spec fn unlines(parts: Seq<Seq<char>>) -> Seq<char>
    decreases parts.len(),
{
    if parts.len() == 0 {
        seq![]
    } else {
        unlines(parts.drop_last()) + parts.last() + "\n"@
    }
}

/// Whether `output` is `original` rewritten: the lines that set a symbol of `to_disable` say that
/// it is not set, the other lines are as they were, and at the end the symbols that no line spoke of
/// follow in order, each with a line that says that it is not set.
pub open spec fn is_rewrite(
    original: Seq<char>,
    to_disable: Set<Seq<char>>,
    output: Seq<char>,
) -> bool {
    exists|missing: Seq<Seq<char>>| #[trigger]
        are_missing(lines(original), to_disable, missing) && output == unlines(
            rewritten_lines(lines(original), to_disable) + not_set_lines(missing),
        )
}

proof fn lemma_unlines_push(parts: Seq<Seq<char>>, line: Seq<char>)
    ensures
        unlines(parts.push(line)) == unlines(parts) + line + "\n"@,
{
    assert(parts.push(line).drop_last() =~= parts);
}

/// Appends the line that says that `symbol` is not set.
fn append_not_set(output: &mut String, symbol: &str)
    ensures
        final(output)@ == old(output)@ + not_set_line(symbol@) + "\n"@,
{
    output.append("# ");
    output.append(symbol);
    output.append(" is not set");
    output.append("\n");
    proof {
        let before = old(output)@;
        assert(before + "# "@ + symbol@ + " is not set"@ =~= before + ("# "@ + symbol@
            + " is not set"@));
    }
}

/// The symbol of `to_disable` that a line sets.
fn read_set_symbol(line: &[char], to_disable: &NameSet) -> (symbol: Option<String>)
    ensures
        match symbol {
            Some(s) => set_by(line@, to_disable@) == Some(s@),
            None => set_by(line@, to_disable@) is None,
        },
{
    match split_once(line, '=') {
        Some((left, _)) => {
            let name = string_of(left);
            if to_disable.contains(name.as_str()) {
                Some(name)
            } else {
                None
            }
        },
        None => None,
    }
}

/// The symbol of `to_disable` of which a line says that it is not set.
fn read_unset_symbol(line: &[char], to_disable: &NameSet) -> (symbol: Option<String>)
    ensures
        match symbol {
            Some(s) => {
                &&& to_disable@.contains(s@)
                &&& line@ == not_set_line(s@)
                &&& forall|t: Seq<char>| line@ == #[trigger] not_set_line(t) ==> t == s@
            },
            None => forall|s: Seq<char>| #[trigger]
                to_disable@.contains(s) ==> line@ != not_set_line(s),
        },
{
    proof {
        assert forall|s: Seq<char>| line@ == #[trigger] not_set_line(s) implies without_prefix(
            line@,
            "# "@,
        ) == Some(s + " is not set"@) && without_suffix(s + " is not set"@, " is not set"@) == Some(
            s,
        ) by {
            let rest = s + " is not set"@;
            assert(line@ =~= "# "@ + rest);
            assert(line@.take("# "@.len() as int) =~= "# "@);
            assert(line@.skip("# "@.len() as int) =~= rest);
            assert(rest.skip(s.len() as int) =~= " is not set"@);
            assert(rest.take(s.len() as int) =~= s);
        }
    }
    match strip_prefix(line, "# ") {
        Some(rest) => match strip_suffix(rest, " is not set") {
            Some(name) => {
                let symbol = string_of(name);
                assert(line@ =~= not_set_line(symbol@));
                if to_disable.contains(symbol.as_str()) {
                    Some(symbol)
                } else {
                    None
                }
            },
            None => None,
        },
        None => None,
    }
}

/// Rewrites the text of a `.config` file, replacing the `CONFIG_FOO=...` lines for each symbol in
/// `to_disable` with `# CONFIG_FOO is not set`. Symbols absent from the text are appended at the
/// end.
pub fn write_dotconfig(original: &str, to_disable: &NameSet) -> (output: String)
    ensures
        is_rewrite(original@, to_disable@, output@),
{
    let chars = chars_of(original);
    let parts = split_lines(chars.as_slice());
    let ghost all = lines(original@);
    let ghost off = to_disable@;
    let ghost new = rewritten_lines(all, off);
    let mut output = String::new();
    let mut seen = NameSet::new();
    let mut i: usize = 0;
    assert(new.take(0) =~= Seq::<Seq<char>>::empty());
    assert(output@ =~= seq![]);
    while i < parts.len()
        invariant
            i <= parts@.len(),
            all == lines(original@),
            slice_views(parts@) == all,
            off == to_disable@,
            new == rewritten_lines(all, off),
            output@ == unlines(new.take(i as int)),
            forall|s: Seq<char>| #[trigger] seen@.contains(s) ==> !is_absent_from(all, off, s),
            forall|k: int|
                0 <= k < i && set_by(#[trigger] all[k], off) is Some ==> seen@.contains(
                    set_by(all[k], off)->0,
                ),
            forall|k: int, s: Seq<char>|
                0 <= k < i && off.contains(s) && #[trigger] all[k] == #[trigger] not_set_line(s)
                    ==> seen@.contains(s),
        decreases parts@.len() - i,
    {
        let line = parts[i];
        proof {
            assert(slice_views(parts@)[i as int] == line@);
            assert(new.take(i + 1) =~= new.take(i as int).push(new[i as int]));
            lemma_unlines_push(new.take(i as int), new[i as int]);
        }
        if let Some(symbol) = read_unset_symbol(line, to_disable) {
            assert(all.contains(all[i as int]));
            seen.insert(symbol);
        }
        match read_set_symbol(line, to_disable) {
            Some(symbol) => {
                append_not_set(&mut output, symbol.as_str());
                assert(set_by(all[i as int], off) == Some(symbol@));
                seen.insert(symbol);
            },
            None => {
                output.append(string_of(line).as_str());
                output.append("\n");
            },
        }
        i += 1;
    }
    assert(new.take(i as int) =~= new);
    let missing = absent(to_disable, &seen);
    let ghost m = texts(missing@);
    assert(are_missing(all, off, m)) by {
        assert forall|s: Seq<char>| #[trigger] m.contains(s) <==> off.contains(s)
            && is_absent_from(all, off, s) by {
            if is_set_in(all, off, s) {
                let k = choose|k: int|
                    0 <= k < all.len() && set_by(#[trigger] all[k], off) == Some(s);
                assert(seen@.contains(s));
            }
            if off.contains(s) && all.contains(not_set_line(s)) {
                let k = choose|k: int| 0 <= k < all.len() && all[k] == not_set_line(s);
                assert(seen@.contains(s));
            }
        }
    }
    let mut j: usize = 0;
    assert(new + not_set_lines(m).take(0) =~= new);
    while j < missing.len()
        invariant
            j <= missing@.len(),
            m == texts(missing@),
            output@ == unlines(new + not_set_lines(m).take(j as int)),
        decreases missing@.len() - j,
    {
        proof {
            let t = new + not_set_lines(m).take(j as int);
            assert(new + not_set_lines(m).take(j + 1) =~= t.push(not_set_line(m[j as int])));
            lemma_unlines_push(t, not_set_line(m[j as int]));
        }
        append_not_set(&mut output, missing[j].as_str());
        j += 1;
    }
    assert(not_set_lines(m).take(j as int) =~= not_set_lines(m));
    output
}

/// The names of `all` that `some` does not hold, in order.
pub(crate) fn absent(all: &NameSet, some: &NameSet) -> (rest: Vec<String>)
    ensures
        ascending(texts(rest@)),
        forall|s: Seq<char>| #[trigger]
            texts(rest@).contains(s) <==> all@.contains(s) && !some@.contains(s),
{
    let rest = crate::names::difference(all, some);
    let v = rest.to_vec();
    assert forall|s: Seq<char>| #[trigger] texts(v@).contains(s) <==> all@.contains(s)
        && !some@.contains(s) by {
        assert(rest@.contains(s) <==> rest.names().contains(s));
    }
    v
}

// ── Reading ───────────────────────────────────────────────────────────────────

/// What a line says of a symbol, named without its `CONFIG_` prefix: the value it is set to, or `n`
/// where the line says that it is not set.
pub open spec fn setting_of(line: Seq<char>) -> Option<(Seq<char>, Seq<char>)> {
    let text = trimmed_end(line);
    match without_prefix(text, "CONFIG_"@) {
        Some(rest) => match cut(rest, '=') {
            Some((name, value)) => Some(
                (name, without_trailing(without_leading(value, '"'), '"')),
            ),
            None => None,
        },
        None => match without_prefix(text, "# CONFIG_"@) {
            Some(rest) => match without_suffix(rest, " is not set"@) {
                Some(name) => Some((name, "n"@)),
                None => None,
            },
            None => None,
        },
    }
}

/// What lines say of symbols; of two lines on one symbol the later counts.
pub open spec fn settings(parts: Seq<Seq<char>>) -> Map<Seq<char>, Seq<char>>
    decreases parts.len(),
{
    if parts.len() == 0 {
        Map::empty()
    } else {
        match setting_of(parts.last()) {
            Some((name, value)) => settings(parts.drop_last()).insert(name, value),
            None => settings(parts.drop_last()),
        }
    }
}

/// Reads what a line says of a symbol.
fn read_setting(line: &[char]) -> (setting: Option<(String, String)>)
    ensures
        match setting {
            Some(p) => setting_of(line@) == Some((p.0@, p.1@)),
            None => setting_of(line@) is None,
        },
{
    let text = trim_end(line);
    match strip_prefix(text, "CONFIG_") {
        Some(rest) => match split_once(rest, '=') {
            Some((name, value)) => Some((string_of(name), string_of(trim_char(value, '"')))),
            None => None,
        },
        None => match strip_prefix(text, "# CONFIG_") {
            Some(rest) => match strip_suffix(rest, " is not set") {
                Some(name) => Some((string_of(name), "n".to_owned())),
                None => None,
            },
            None => None,
        },
    }
}

/// Reads the values of a `.config` file, by symbol without its `CONFIG_` prefix.
pub fn parse_dotconfig(content: &str) -> (values: NameMap<String>)
    ensures
        value_texts(values@) == settings(lines(content@)),
{
    let chars = chars_of(content);
    let parts = split_lines(chars.as_slice());
    let ghost all = lines(content@);
    let mut values: NameMap<String> = NameMap::new();
    let mut i: usize = 0;
    assert(all.take(0) =~= Seq::<Seq<char>>::empty());
    assert(value_texts(values@) =~= Map::empty());
    while i < parts.len()
        invariant
            i <= parts@.len(),
            all == lines(content@),
            slice_views(parts@) == all,
            value_texts(values@) == settings(all.take(i as int)),
        decreases parts@.len() - i,
    {
        proof {
            assert(slice_views(parts@)[i as int] == parts@[i as int]@);
            assert(all.take(i + 1).drop_last() =~= all.take(i as int));
        }
        let ghost before = value_texts(values@);
        match read_setting(parts[i]) {
            Some((name, value)) => {
                let ghost n = name@;
                let ghost v = value@;
                values.insert(name, value);
                assert(value_texts(values@) =~= before.insert(n, v));
            },
            None => {},
        }
        i += 1;
    }
    assert(all.take(i as int) =~= all);
    values
}

// ── Comparing ─────────────────────────────────────────────────────────────────

/// Whether the symbol is enabled in `before` and absent or `n` in `after`.
pub open spec fn went_off(
    before: Map<Seq<char>, Seq<char>>,
    after: Map<Seq<char>, Seq<char>>,
    s: Seq<char>,
) -> bool {
    &&& before.contains_key(s)
    &&& is_on(before[s])
    &&& !after.contains_key(s) || after[s] == "n"@
}

/// Symbols that were enabled (y/m) in `before` and are now absent or `n` in `after`. These are the
/// configs that `make olddefconfig` automatically disabled (depends-on chain).
pub fn config_diff_disabled(before: &NameMap<String>, after: &NameMap<String>) -> (off: NameSet)
    ensures
        forall|s: Seq<char>| #[trigger]
            off@.contains(s) <==> went_off(value_texts(before@), value_texts(after@), s),
{
    let ghost b = value_texts(before@);
    let ghost a = value_texts(after@);
    let mut off = NameSet::new();
    let count: usize = before.len();
    let mut i: usize = 0;
    while i < count
        invariant
            i <= count,
            count == before.keys().len(),
            b == value_texts(before@),
            a == value_texts(after@),
            forall|s: Seq<char>| #[trigger] off@.contains(s) ==> went_off(b, a, s),
            forall|k: int|
                0 <= k < i && went_off(b, a, #[trigger] before.keys()[k]) ==> off@.contains(
                    before.keys()[k],
                ),
        decreases count - i,
    {
        let name = before.key_at(i);
        if means_on(before.value_at(i).as_str()) {
            let gone = match after.get(name.as_str()) {
                Some(v) => same_text(v.as_str(), "n"),
                None => true,
            };
            if gone {
                off.insert(name.clone());
            }
        }
        i += 1;
    }
    assert forall|s: Seq<char>| #[trigger] off@.contains(s) <==> went_off(b, a, s) by {
        if went_off(b, a, s) {
            assert(before.keys().contains(s));
        }
    }
    off
}

} // verus!
