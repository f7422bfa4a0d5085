//! Devices and the modules that drive them: modalias strings, the alias map, and patterns.
use crate::gather::ModuleList;
use crate::names::{ascending, NameSet};
use crate::split::{cut, lines, slice_views, split_lines, split_once};
use crate::text::{chars_of, string_of, strip_prefix, texts, trim, trimmed, without_prefix};
use vstd::prelude::*;
use vstd::slice::slice_subrange;
use vstd::utf8::encode_utf8;

verus! {

// ── Patterns ──────────────────────────────────────────────────────────────────

/// Whether `txt` matches the pattern `pat`, in which `*` stands for any bytes and `?` for one
/// byte.
pub open spec fn glob(pat: Seq<u8>, txt: Seq<u8>) -> bool
    decreases pat.len(),
{
    if pat.len() == 0 {
        txt.len() == 0
    } else if pat[0] == 42 {
        exists|i: int| 0 <= i <= txt.len() && glob(pat.drop_first(), #[trigger] txt.skip(i))
    } else {
        &&& txt.len() > 0
        &&& pat[0] == 63 || pat[0] == txt[0]
        &&& glob(pat.drop_first(), txt.drop_first())
    }
}

/// Whether `text` matches `pattern`.
pub fn glob_match(pattern: &str, text: &str) -> (yes: bool)
    ensures
        yes == glob(encode_utf8(pattern@), encode_utf8(text@)),
{
    glob_bytes(pattern.as_bytes(), text.as_bytes())
}

/// Whether `txt` matches `pat`, byte for byte.
pub fn glob_bytes(pat: &[u8], txt: &[u8]) -> (yes: bool)
    ensures
        yes == glob(pat@, txt@),
    decreases pat@.len(),
{
    if pat.len() == 0 {
        return txt.len() == 0;
    }
    let rest = slice_subrange(pat, 1, pat.len());
    assert(rest@ == pat@.drop_first());
    if pat[0] == 42u8 {
        let mut i: usize = 0;
        loop
            invariant
                i <= txt@.len(),
                pat@.len() > 0,
                pat@[0] == 42,
                rest@ == pat@.drop_first(),
                forall|k: int| 0 <= k < i ==> !glob(rest@, #[trigger] txt@.skip(k)),
            decreases txt@.len() - i,
        {
            let tail = slice_subrange(txt, i, txt.len());
            assert(tail@ == txt@.skip(i as int));
            if glob_bytes(rest, tail) {
                return true;
            }
            if i == txt.len() {
                return false;
            }
            i += 1;
        }
    }
    if txt.len() == 0 || (pat[0] != 63u8 && pat[0] != txt[0]) {
        return false;
    }
    let tail = slice_subrange(txt, 1, txt.len());
    assert(tail@ == txt@.drop_first());
    glob_bytes(rest, tail)
}

/// A pattern without wildcards matches itself alone.
pub proof fn lemma_glob_literal(pat: Seq<u8>, txt: Seq<u8>)
    requires
        forall|i: int| 0 <= i < pat.len() ==> #[trigger] pat[i] != 42 && pat[i] != 63,
    ensures
        glob(pat, txt) == (pat == txt),
    decreases pat.len(),
{
    if pat.len() == 0 {
        if txt.len() == 0 {
            assert(pat =~= txt);
        }
    } else if txt.len() > 0 {
        assert forall|i: int| 0 <= i < pat.drop_first().len() implies #[trigger] pat.drop_first()[i]
            != 42 && pat.drop_first()[i] != 63 by {
            assert(pat[i + 1] != 42);
        }
        lemma_glob_literal(pat.drop_first(), txt.drop_first());
        if pat[0] == txt[0] && pat.drop_first() == txt.drop_first() {
            assert(pat =~= seq![pat[0]] + pat.drop_first());
            assert(txt =~= seq![txt[0]] + txt.drop_first());
        }
    }
}

// ── Devices on the target ─────────────────────────────────────────────────────

impl ModuleList {
    /// Whether the module `name` handles a device that is present on the target: one of the
    /// collected modalias strings matches a pattern of the alias map that names the module.
    pub open spec fn drives_device(self, name: Seq<char>) -> bool {
        exists|i: int, j: int|
            0 <= i < self.device_aliases@.len() && 0 <= j < self.modules_alias@.len()
                && #[trigger] self.alias_matches(i, j) && self.modules_alias@[j].1@ == name
    }

    /// Whether device alias `i` matches the pattern of entry `j` of the alias map.
    pub open spec fn alias_matches(self, i: int, j: int) -> bool {
        glob(encode_utf8(self.modules_alias@[j].0@), encode_utf8(self.device_aliases@[i]@))
    }

    /// Returns the set of module names required to handle devices physically present on the
    /// target system, derived by matching collected sysfs modalias strings against the
    /// `modules.alias` map.
    pub fn device_required_modules(&self) -> (required: NameSet)
        ensures
            forall|n: Seq<char>| required@.contains(n) <==> #[trigger] self.drives_device(n),
            forall|i: int, j: int|
                #![trigger self.device_aliases@[i], self.modules_alias@[j]]
                0 <= i < self.device_aliases@.len() && 0 <= j < self.modules_alias@.len() && glob(
                    encode_utf8(self.modules_alias@[j].0@),
                    encode_utf8(self.device_aliases@[i]@),
                ) ==> required@.contains(self.modules_alias@[j].1@),
    {
        let mut required = NameSet::new();
        let mut i: usize = 0;
        while i < self.device_aliases.len()
            invariant
                i <= self.device_aliases@.len(),
                forall|n: Seq<char>| #[trigger] required@.contains(n) ==> self.drives_device(n),
                forall|p: int, q: int|
                    0 <= p < i && 0 <= q < self.modules_alias@.len() && #[trigger]
                        self.alias_matches(p, q) ==> required@.contains(self.modules_alias@[q].1@),
            decreases self.device_aliases@.len() - i,
        {
            let mut j: usize = 0;
            while j < self.modules_alias.len()
                invariant
                    i < self.device_aliases@.len(),
                    j <= self.modules_alias@.len(),
                    forall|n: Seq<char>| #[trigger] required@.contains(n) ==> self.drives_device(n),
                    forall|p: int, q: int|
                        (0 <= p < i && 0 <= q < self.modules_alias@.len() || p == i && 0 <= q < j)
                            && #[trigger] self.alias_matches(p, q) ==> required@.contains(
                            self.modules_alias@[q].1@,
                        ),
                decreases self.modules_alias@.len() - j,
            {
                if glob_match(self.modules_alias[j].0.as_str(), self.device_aliases[i].as_str()) {
                    required.insert(self.modules_alias[j].1.clone());
                    assert(self.alias_matches(i as int, j as int));
                }
                j += 1;
            }
            i += 1;
        }
        assert forall|i: int, j: int|
            #![trigger self.device_aliases@[i], self.modules_alias@[j]]
            0 <= i < self.device_aliases@.len() && 0 <= j < self.modules_alias@.len() && glob(
                encode_utf8(self.modules_alias@[j].0@),
                encode_utf8(self.device_aliases@[i]@),
            ) implies required@.contains(self.modules_alias@[j].1@) by {
            assert(self.alias_matches(i, j));
        }
        required
    }
}

// ── Parsing ───────────────────────────────────────────────────────────────────

/// Whether `alias` is a line of `raw`, white space at its ends aside.
pub open spec fn has_line(raw: Seq<char>, alias: Seq<char>) -> bool {
    exists|i: int| 0 <= i < lines(raw).len() && trimmed(#[trigger] lines(raw)[i]) == alias
}

/// Parses newline-separated modalias strings into a sorted, deduplicated list.
/// Works for both sysfs-collected aliases (concatenated local reads) and SSH output.
pub fn parse_device_aliases(raw: &str) -> (aliases: Vec<String>)
    ensures
        ascending(texts(aliases@)),
        forall|a: Seq<char>| #[trigger]
            texts(aliases@).contains(a) <==> a.len() > 0 && has_line(raw@, a),
{
    let chars = chars_of(raw);
    let parts = split_lines(chars.as_slice());
    let mut set = NameSet::new();
    let mut i: usize = 0;
    while i < parts.len()
        invariant
            i <= parts@.len(),
            slice_views(parts@) == lines(raw@),
            forall|a: Seq<char>| #[trigger]
                set@.contains(a) ==> a.len() > 0 && has_line(raw@, a),
            forall|k: int|
                0 <= k < i && trimmed(#[trigger] lines(raw@)[k]).len() > 0 ==> set@.contains(
                    trimmed(lines(raw@)[k]),
                ),
        decreases parts@.len() - i,
    {
        let line = trim(parts[i]);
        assert(slice_views(parts@)[i as int] == parts@[i as int]@);
        if line.len() > 0 {
            set.insert(string_of(line));
            assert(trimmed(lines(raw@)[i as int]) == line@);
            assert(has_line(raw@, line@));
        }
        i += 1;
    }
    let aliases = set.to_vec();
    assert forall|a: Seq<char>| #[trigger]
        texts(aliases@).contains(a) <==> a.len() > 0 && has_line(raw@, a) by {
        assert(set@.contains(a) == set.names().contains(a));
    }
    aliases
}

/// What a line of a `modules.alias` file says: the pattern and the module's name.
pub open spec fn alias_of(line: Seq<char>) -> Option<(Seq<char>, Seq<char>)> {
    match without_prefix(trimmed(line), "alias "@) {
        Some(rest) => match cut(rest, ' ') {
            Some((pattern, module)) => Some((trimmed(pattern), trimmed(module))),
            None => None,
        },
        None => None,
    }
}

/// What the lines of a `modules.alias` file say, in their order.
pub open spec fn aliases_of(lines: Seq<Seq<char>>) -> Seq<(Seq<char>, Seq<char>)>
    decreases lines.len(),
{
    if lines.len() == 0 {
        seq![]
    } else {
        let front = aliases_of(lines.drop_last());
        match alias_of(lines.last()) {
            Some(alias) => front.push(alias),
            None => front,
        }
    }
}

/// The views of pairs of strings.
pub open spec fn pair_views(v: Seq<(String, String)>) -> Seq<(Seq<char>, Seq<char>)> {
    Seq::new(v.len(), |i: int| (v[i].0@, v[i].1@))
}

/// Parses one line of a `modules.alias` file.
fn parse_alias(line: &[char]) -> (alias: Option<(String, String)>)
    ensures
        match alias {
            Some(a) => alias_of(line@) == Some((a.0@, a.1@)),
            None => alias_of(line@) is None,
        },
{
    match strip_prefix(trim(line), "alias ") {
        Some(rest) => match split_once(rest, ' ') {
            Some((pattern, module)) => Some((string_of(trim(pattern)), string_of(trim(module)))),
            None => None,
        },
        None => None,
    }
}

/// Parses the content of a `modules.alias` file into (pattern, module name) pairs.
/// Lines not starting with "alias" (comments, blank lines) are skipped.
pub fn parse_modules_alias(content: &str) -> (aliases: Vec<(String, String)>)
    ensures
        pair_views(aliases@) == aliases_of(lines(content@)),
{
    let chars = chars_of(content);
    let parts = split_lines(chars.as_slice());
    let mut aliases: Vec<(String, String)> = Vec::new();
    let mut i: usize = 0;
    assert(lines(content@).take(0) == Seq::<Seq<char>>::empty());
    assert(pair_views(aliases@) =~= aliases_of(lines(content@).take(0)));
    while i < parts.len()
        invariant
            i <= parts@.len(),
            slice_views(parts@) == lines(content@),
            pair_views(aliases@) == aliases_of(lines(content@).take(i as int)),
        decreases parts@.len() - i,
    {
        let ghost before = pair_views(aliases@);
        proof {
            let t = lines(content@).take(i + 1);
            assert(t.drop_last() == lines(content@).take(i as int));
            assert(slice_views(parts@)[i as int] == parts@[i as int]@);
        }
        match parse_alias(parts[i]) {
            Some(alias) => {
                aliases.push(alias);
                assert(pair_views(aliases@) =~= before.push((alias.0@, alias.1@)));
            },
            None => {},
        }
        i += 1;
    }
    assert(lines(content@).take(i as int) == lines(content@));
    aliases
}

/// Returns config symbols (bare, without `CONFIG_` prefix) that must remain enabled based on
/// detected properties of the target system.
///
/// `has_initcpio_install`: whether `/usr/lib/initcpio/install` is present, which indicates an
/// mkinitcpio-based initramfs that requires LZ4 compression support.
pub fn pinned_configs_for_system(has_initcpio_install: bool) -> (configs: Vec<String>)
    ensures
        texts(configs@) == if has_initcpio_install {
            seq!["CRYPTO_LZ4"@, "CRYPTO_LZ4HC"@]
        } else {
            seq![]
        },
{
    let mut configs: Vec<String> = Vec::new();
    if has_initcpio_install {
        configs.push("CRYPTO_LZ4".to_owned());
        configs.push("CRYPTO_LZ4HC".to_owned());
        assert(texts(configs@) =~= seq!["CRYPTO_LZ4"@, "CRYPTO_LZ4HC"@]);
    } else {
        assert(texts(configs@) =~= seq![]);
    }
    configs
}

} // verus!
