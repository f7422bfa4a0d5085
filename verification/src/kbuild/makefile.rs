//! Reading the Makefiles of a kernel source tree.
//!
//! Of a Makefile, the lines count that put objects and directories into the build: assignments to
//! `obj-y`, `obj-m` and `obj-$(CONFIG_X)` (and the same for `lib-`), and those to `name-y`,
//! `name-objs` and `name-$(CONFIG_X)`, which say what the object `name.o` is made of. Directories
//! end in a slash and may stand in any of them.
use crate::kbuild::expr::{cond_holds, Cond, ConfigExpr};
use crate::kbuild::makefile_laws::lemma_nothing_below_unentered;
use crate::kbuild::maps::{
    cond_views, module_views, stops, KbuildMaps, KernelModule, ModuleView,
};
use crate::kbuild::relative::{
    find_source, is_relative, lemma_relative_once, lemma_source_is_relative, source_path,
};
use crate::kconfig::lines::{char_lists, join_continuations, logical_lines};
use crate::names::{lemma_order_prefix, precedes, NameMap};
use crate::paths::sets::{each_once, has_path};
use crate::paths::steps::same_path;
use crate::split::{
    before_part, contains_part, cut, has_part, pieces, slice_views, split, split_once, split_words,
    strings_of, text_before, words,
};
use crate::text::{
    chars_of, ends_with, is_word, same_text, string_of, strip_suffix, texts, trim, trimmed,
    without_suffix, without_trailing,
};
use vstd::prelude::*;
use vstd::slice::slice_subrange;

verus! {

// ── Rules ─────────────────────────────────────────────────────────────────────

/// An assignment that puts items into the build.
struct Rule {
    stem: String,
    guard: Option<String>,
    items: Vec<String>,
}

/// What an assignment says: the items of `stem`, under the symbol `guard` if there is one.
pub ghost struct RuleView {
    pub stem: Seq<char>,
    pub guard: Option<Seq<char>>,
    pub items: Seq<Seq<char>>,
}

impl View for Rule {
    type V = RuleView;

    closed spec fn view(&self) -> RuleView {
        RuleView {
            stem: self.stem@,
            guard: match self.guard {
                Some(g) => Some(g@),
                None => None,
            },
            items: texts(self.items@),
        }
    }
}

/// A line without its comment.
pub open spec fn uncommented(line: Seq<char>) -> Seq<char> {
    match cut(line, '#') {
        Some((front, _)) => front,
        None => line,
    }
}

/// The name that is assigned to, without the sign of the assignment.
pub open spec fn assigned_name(left: Seq<char>) -> Seq<char> {
    trimmed(without_trailing(without_trailing(trimmed(left), '+'), ':'))
}

/// The stem and the guard of a name that is assigned to.
pub open spec fn stem_and_guard(name: Seq<char>) -> Option<(Seq<char>, Option<Seq<char>>)> {
    let mark = "-$(CONFIG_"@;
    if has_part(name, mark) && ")"@.is_suffix_of(name) && before_part(name, mark).len() + mark.len()
        < name.len() {
        let stem = before_part(name, mark);
        Some((stem, Some(name.subrange((stem.len() + mark.len()) as int, name.len() - 1))))
    } else {
        match without_suffix(name, "-y"@) {
            Some(stem) => Some((stem, None)),
            None => match without_suffix(name, "-m"@) {
                Some(stem) => Some((stem, None)),
                None => match without_suffix(name, "-objs"@) {
                    Some(stem) => Some((stem, None)),
                    None => None,
                },
            },
        }
    }
}

/// What a line says.
pub open spec fn rule_of(line: Seq<char>) -> Option<RuleView> {
    match cut(uncommented(line), '=') {
        Some((left, right)) => match stem_and_guard(assigned_name(left)) {
            Some((stem, guard)) => Some(RuleView { stem, guard, items: words(right) }),
            None => None,
        },
        None => None,
    }
}

/// What lines say.
pub open spec fn rules_of(lines: Seq<Seq<char>>) -> Seq<RuleView>
    decreases lines.len(),
{
    if lines.len() == 0 {
        seq![]
    } else {
        match rule_of(lines.last()) {
            Some(rule) => rules_of(lines.drop_last()).push(rule),
            None => rules_of(lines.drop_last()),
        }
    }
}

/// What a Makefile says.
pub open spec fn makefile_rules(text: Seq<char>) -> Seq<RuleView> {
    rules_of(logical_lines(text))
}

spec fn rule_views(v: Seq<Rule>) -> Seq<RuleView> {
    Seq::new(v.len(), |i: int| v[i]@)
}

/// Reads the stem and the guard of a name that is assigned to.
fn read_stem(name: &[char]) -> (parts: Option<(String, Option<String>)>)
    ensures
        match parts {
            Some((stem, Some(guard))) => stem_and_guard(name@) == Some((stem@, Some(guard@))),
            Some((stem, None)) => stem_and_guard(name@) == Some((stem@, None::<Seq<char>>)),
            None => stem_and_guard(name@) is None,
        },
{
    let mark = chars_of("-$(CONFIG_");
    proof {
        reveal_strlit("-$(CONFIG_");
    }
    if contains_part(name, mark.as_slice()) && ends_with(name, ")") {
        let stem = text_before(name, mark.as_slice());
        if stem.len() < name.len() && mark.len() < name.len() - stem.len() {
            let guard = slice_subrange(name, stem.len() + mark.len(), name.len() - 1);
            return Some((string_of(stem), Some(string_of(guard))));
        }
    }
    match strip_suffix(name, "-y") {
        Some(stem) => Some((string_of(stem), None)),
        None => match strip_suffix(name, "-m") {
            Some(stem) => Some((string_of(stem), None)),
            None => match strip_suffix(name, "-objs") {
                Some(stem) => Some((string_of(stem), None)),
                None => None,
            },
        },
    }
}

/// Strips every `c` from the back of `s`.
fn strip_back(s: &[char], c: char) -> (rest: &[char])
    ensures
        rest@ == without_trailing(s@, c),
{
    let mut n: usize = s.len();
    assert(s@.take(s@.len() as int) =~= s@);
    while n > 0 && s[n - 1] == c
        invariant
            n <= s@.len(),
            without_trailing(s@.take(n as int), c) == without_trailing(s@, c),
        decreases n,
    {
        assert(s@.take(n as int).drop_last() =~= s@.take(n - 1));
        n -= 1;
    }
    slice_subrange(s, 0, n)
}

/// Reads a line.
fn read_rule(line: &[char]) -> (rule: Option<Rule>)
    ensures
        match rule {
            Some(r) => rule_of(line@) == Some(r@),
            None => rule_of(line@) is None,
        },
{
    let body = match split_once(line, '#') {
        Some((front, _)) => front,
        None => line,
    };
    match split_once(body, '=') {
        Some((left, right)) => {
            let name = trim(strip_back(strip_back(trim(left), '+'), ':'));
            match read_stem(name) {
                Some((stem, guard)) => {
                    let items = strings_of(&split_words(right));
                    Some(Rule { stem, guard, items })
                },
                None => None,
            }
        },
        None => None,
    }
}

/// Reads a Makefile.
fn read_makefile(text: &str) -> (rules: Vec<Rule>)
    ensures
        rule_views(rules@) == makefile_rules(text@),
{
    let parts = join_continuations(text);
    let ghost all = logical_lines(text@);
    let mut rules: Vec<Rule> = Vec::new();
    let mut i: usize = 0;
    assert(all.take(0) =~= Seq::<Seq<char>>::empty());
    assert(rule_views(rules@) =~= seq![]);
    while i < parts.len()
        invariant
            i <= parts@.len(),
            all == logical_lines(text@),
            char_lists(parts@) == all,
            rule_views(rules@) == rules_of(all.take(i as int)),
        decreases parts@.len() - i,
    {
        proof {
            assert(char_lists(parts@)[i as int] == parts@[i as int]@);
            assert(all.take(i + 1).drop_last() =~= all.take(i as int));
        }
        let ghost before = rule_views(rules@);
        match read_rule(parts[i].as_slice()) {
            Some(rule) => {
                let ghost r = rule@;
                rules.push(rule);
                assert(rule_views(rules@) =~= before.push(r));
            },
            None => {},
        }
        i += 1;
    }
    assert(all.take(i as int) =~= all);
    rules
}

// ── What the rules build ──────────────────────────────────────────────────────

/// The names of the objects among `items`, without their endings.
pub open spec fn objects(items: Seq<Seq<char>>) -> Seq<Seq<char>>
    decreases items.len(),
{
    if items.len() == 0 {
        seq![]
    } else {
        match without_suffix(items.last(), ".o"@) {
            Some(name) => objects(items.drop_last()).push(name),
            None => objects(items.drop_last()),
        }
    }
}

/// What the object `name` is made of, by the rules that bear its name: objects, each with the guard
/// that it stands behind.
pub open spec fn parts_of(rules: Seq<RuleView>, name: Seq<char>) -> Seq<
    (Seq<char>, Option<Seq<char>>),
>
    decreases rules.len(),
{
    if rules.len() == 0 {
        seq![]
    } else {
        let r = rules.last();
        let front = parts_of(rules.drop_last(), name);
        if r.stem == name {
            front + Seq::new(objects(r.items).len(), |i: int| (objects(r.items)[i], r.guard))
        } else {
            front
        }
    }
}

/// The objects that are compiled for the object `name`: its parts, or itself where it has none.
pub open spec fn compiled_for(rules: Seq<RuleView>, name: Seq<char>) -> Seq<
    (Seq<char>, Option<Seq<char>>),
> {
    if parts_of(rules, name).len() > 0 {
        parts_of(rules, name)
    } else {
        seq![(name, None)]
    }
}

/// `c` behind a guard.
pub open spec fn guarded(c: Cond, guard: Option<Seq<char>>) -> Cond {
    match guard {
        None => c,
        Some(s) => if c == Cond::Always {
            Cond::Symbol(s)
        } else {
            Cond::And(Box::new(c), Box::new(Cond::Symbol(s)))
        },
    }
}

/// The source files of objects with guards in directory `dir`, with the conditions under which they
/// are compiled where `c` is that of them all. An object outside the tree has none.
pub open spec fn sources(
    dir: Seq<char>,
    c: Cond,
    parts: Seq<(Seq<char>, Option<Seq<char>>)>,
) -> Seq<(Seq<char>, Cond)>
    decreases parts.len(),
{
    if parts.len() == 0 {
        seq![]
    } else {
        let front = sources(dir, c, parts.drop_last());
        match source_path(dir, parts.last().0) {
            Some(path) => front.push((path, guarded(c, parts.last().1))),
            None => front,
        }
    }
}

/// The source files of the object `name` in directory `dir`, with the conditions under which they
/// are compiled where `c` is that of the object.
pub open spec fn target_files(
    rules: Seq<RuleView>,
    dir: Seq<char>,
    c: Cond,
    name: Seq<char>,
) -> Seq<(Seq<char>, Cond)> {
    sources(dir, c, compiled_for(rules, name))
}

/// The source files of several objects.
pub open spec fn targets_files(
    rules: Seq<RuleView>,
    dir: Seq<char>,
    c: Cond,
    names: Seq<Seq<char>>,
) -> Seq<(Seq<char>, Cond)>
    decreases names.len(),
{
    if names.len() == 0 {
        seq![]
    } else {
        targets_files(rules, dir, c, names.drop_last()) + target_files(rules, dir, c, names.last())
    }
}

/// The source files that the first `k` rules put into the build.
pub open spec fn built_files(rules: Seq<RuleView>, dir: Seq<char>, c: Cond, k: nat) -> Seq<
    (Seq<char>, Cond),
>
    decreases k,
{
    if k == 0 {
        seq![]
    } else {
        let r = rules[k - 1];
        let front = built_files(rules, dir, c, (k - 1) as nat);
        if r.stem == "obj"@ || r.stem == "lib"@ {
            front + targets_files(rules, dir, guarded(c, r.guard), objects(r.items))
        } else {
            front
        }
    }
}

/// Whether an item is a directory below the one that it stands in.
pub open spec fn leads_down(item: Seq<char>) -> bool {
    let steps = pieces(item, '/');
    &&& "/"@.is_suffix_of(item)
    &&& steps[0] != ""@
    &&& !steps.contains("."@)
    &&& !steps.contains(".."@)
}

/// The directories among `items`, with `c`.
pub open spec fn directories(items: Seq<Seq<char>>, dir: Seq<char>, c: Cond) -> Seq<
    (Seq<char>, Cond),
>
    decreases items.len(),
{
    if items.len() == 0 {
        seq![]
    } else {
        let front = directories(items.drop_last(), dir, c);
        if leads_down(items.last()) {
            front.push((dir + items.last(), c))
        } else {
            front
        }
    }
}

/// The directories that the first `k` rules put into the build.
pub open spec fn built_directories(rules: Seq<RuleView>, dir: Seq<char>, c: Cond, k: nat) -> Seq<
    (Seq<char>, Cond),
>
    decreases k,
{
    if k == 0 {
        seq![]
    } else {
        let r = rules[k - 1];
        built_directories(rules, dir, c, (k - 1) as nat) + directories(
            r.items,
            dir,
            guarded(c, r.guard),
        )
    }
}

/// The views of names with conditions.
pub open spec fn cond_pairs(v: Seq<(String, ConfigExpr)>) -> Seq<(Seq<char>, Cond)> {
    Seq::new(v.len(), |i: int| (v[i].0@, v[i].1@))
}

spec fn guard_views(v: Seq<(String, Option<String>)>) -> Seq<(Seq<char>, Option<Seq<char>>)> {
    Seq::new(v.len(), |i: int| (v[i].0@, guard_view(v[i].1)))
}

spec fn guard_view(g: Option<String>) -> Option<Seq<char>> {
    match g {
        Some(s) => Some(s@),
        None => None,
    }
}

fn read_objects(items: &Vec<String>) -> (names: Vec<String>)
    ensures
        texts(names@) == objects(texts(items@)),
{
    let ghost all = texts(items@);
    let mut names: Vec<String> = Vec::new();
    let mut i: usize = 0;
    assert(all.take(0) =~= Seq::<Seq<char>>::empty());
    assert(texts(names@) =~= seq![]);
    while i < items.len()
        invariant
            i <= items@.len(),
            all == texts(items@),
            texts(names@) == objects(all.take(i as int)),
        decreases items@.len() - i,
    {
        assert(all.take(i + 1).drop_last() =~= all.take(i as int));
        let ghost before = texts(names@);
        let chars = chars_of(items[i].as_str());
        match strip_suffix(chars.as_slice(), ".o") {
            Some(name) => {
                names.push(string_of(name));
                assert(texts(names@) =~= before.push(name@));
            },
            None => {},
        }
        i += 1;
    }
    assert(all.take(i as int) =~= all);
    names
}

fn copy_guard(guard: &Option<String>) -> (copy: Option<String>)
    ensures
        guard_view(copy) == guard_view(*guard),
{
    match guard {
        Some(s) => Some(s.clone()),
        None => None,
    }
}

fn guard_cond(c: &ConfigExpr, guard: &Option<String>) -> (both: ConfigExpr)
    ensures
        both@ == guarded(c@, guard_view(*guard)),
{
    match guard {
        None => c.clone(),
        Some(s) => {
            let symbol = ConfigExpr::Symbol(s.clone());
            assert(symbol@ == Cond::Symbol(s@));
            if c.is_always() {
                symbol
            } else {
                ConfigExpr::And(Box::new(c.clone()), Box::new(symbol))
            }
        },
    }
}

fn find_parts(rules: &Vec<Rule>, name: &str) -> (parts: Vec<(String, Option<String>)>)
    ensures
        guard_views(parts@) == parts_of(rule_views(rules@), name@),
{
    let ghost all = rule_views(rules@);
    let mut parts: Vec<(String, Option<String>)> = Vec::new();
    let mut i: usize = 0;
    assert(all.take(0) =~= Seq::<RuleView>::empty());
    assert(guard_views(parts@) =~= seq![]);
    while i < rules.len()
        invariant
            i <= rules@.len(),
            all == rule_views(rules@),
            guard_views(parts@) == parts_of(all.take(i as int), name@),
        decreases rules@.len() - i,
    {
        let rule = &rules[i];
        assert(all.take(i + 1).drop_last() =~= all.take(i as int));
        assert(all.take(i + 1).last() == rule@);
        let ghost before = guard_views(parts@);
        if same_text(rule.stem.as_str(), name) {
            let names = read_objects(&rule.items);
            let ghost more = Seq::new(
                objects(rule@.items).len(),
                |i: int| (objects(rule@.items)[i], rule@.guard),
            );
            let mut j: usize = 0;
            assert(before + more.take(0) =~= before);
            while j < names.len()
                invariant
                    j <= names@.len(),
                    texts(names@) == objects(rule@.items),
                    more == Seq::new(
                        objects(rule@.items).len(),
                        |i: int| (objects(rule@.items)[i], rule@.guard),
                    ),
                    guard_views(parts@) == before + more.take(j as int),
                decreases names@.len() - j,
            {
                let ghost now = guard_views(parts@);
                parts.push((names[j].clone(), copy_guard(&rule.guard)));
                assert(texts(names@)[j as int] == names@[j as int]@);
                assert(guard_views(parts@) =~= now.push(more[j as int]));
                assert(before + more.take(j + 1) =~= now.push(more[j as int]));
                j += 1;
            }
            assert(more.take(j as int) =~= more);
        }
        i += 1;
    }
    assert(all.take(i as int) =~= all);
    parts
}

fn find_target_files(rules: &Vec<Rule>, dir: &str, c: &ConfigExpr, name: &String) -> (files: Vec<
    (String, ConfigExpr),
>)
    ensures
        cond_pairs(files@) == target_files(rule_views(rules@), dir@, c@, name@),
{
    let mut parts = find_parts(rules, name.as_str());
    if parts.len() == 0 {
        parts.push((name.clone(), None));
        assert(guard_views(parts@) =~= seq![(name@, None::<Seq<char>>)]);
    }
    assert(guard_views(parts@) == compiled_for(rule_views(rules@), name@));
    let ghost all = guard_views(parts@);
    let mut files: Vec<(String, ConfigExpr)> = Vec::new();
    let mut i: usize = 0;
    assert(all.take(0) =~= Seq::<(Seq<char>, Option<Seq<char>>)>::empty());
    assert(cond_pairs(files@) =~= seq![]);
    while i < parts.len()
        invariant
            i <= parts@.len(),
            all == guard_views(parts@),
            cond_pairs(files@) == sources(dir@, c@, all.take(i as int)),
        decreases parts@.len() - i,
    {
        let ghost now = cond_pairs(files@);
        proof {
            assert(all.take(i + 1).drop_last() =~= all.take(i as int));
            assert(all.take(i + 1).last() == (
                parts@[i as int].0@,
                guard_view(parts@[i as int].1),
            ));
        }
        if let Some(path) = find_source(dir, parts[i].0.as_str()) {
            let cond = guard_cond(c, &parts[i].1);
            files.push((path, cond));
            assert(cond_pairs(files@) =~= now.push((path@, cond@)));
        }
        i += 1;
    }
    assert(all.take(i as int) =~= all);
    files
}

fn add_pairs(to: &mut Vec<(String, ConfigExpr)>, more: Vec<(String, ConfigExpr)>)
    ensures
        cond_pairs(final(to)@) == cond_pairs(old(to)@) + cond_pairs(more@),
{
    let ghost before = to@;
    let mut more = more;
    let ghost added = more@;
    to.append(&mut more);
    assert(cond_pairs(to@) =~= cond_pairs(before) + cond_pairs(added));
}

fn find_targets_files(rules: &Vec<Rule>, dir: &str, c: &ConfigExpr, names: &Vec<String>) -> (files:
    Vec<(String, ConfigExpr)>)
    ensures
        cond_pairs(files@) == targets_files(rule_views(rules@), dir@, c@, texts(names@)),
{
    let ghost r = rule_views(rules@);
    let ghost all = texts(names@);
    let mut files: Vec<(String, ConfigExpr)> = Vec::new();
    let mut i: usize = 0;
    assert(all.take(0) =~= Seq::<Seq<char>>::empty());
    assert(cond_pairs(files@) =~= seq![]);
    while i < names.len()
        invariant
            i <= names@.len(),
            r == rule_views(rules@),
            all == texts(names@),
            cond_pairs(files@) == targets_files(r, dir@, c@, all.take(i as int)),
        decreases names@.len() - i,
    {
        assert(all.take(i + 1).drop_last() =~= all.take(i as int));
        add_pairs(&mut files, find_target_files(rules, dir, c, &names[i]));
        i += 1;
    }
    assert(all.take(i as int) =~= all);
    files
}

fn find_built_files(rules: &Vec<Rule>, dir: &str, c: &ConfigExpr) -> (files: Vec<
    (String, ConfigExpr),
>)
    ensures
        cond_pairs(files@) == built_files(rule_views(rules@), dir@, c@, rules@.len()),
{
    let ghost r = rule_views(rules@);
    let mut files: Vec<(String, ConfigExpr)> = Vec::new();
    let mut i: usize = 0;
    assert(cond_pairs(files@) =~= seq![]);
    while i < rules.len()
        invariant
            i <= rules@.len(),
            r == rule_views(rules@),
            cond_pairs(files@) == built_files(r, dir@, c@, i as nat),
        decreases rules@.len() - i,
    {
        let rule = &rules[i];
        assert(r[i as int] == rule@);
        if same_text(rule.stem.as_str(), "obj") || same_text(rule.stem.as_str(), "lib") {
            let names = read_objects(&rule.items);
            let cond = guard_cond(c, &rule.guard);
            add_pairs(&mut files, find_targets_files(rules, dir, &cond, &names));
        }
        i += 1;
    }
    files
}

fn is_below(item: &str) -> (yes: bool)
    ensures
        yes == leads_down(item@),
{
    let chars = chars_of(item);
    if !ends_with(chars.as_slice(), "/") {
        return false;
    }
    let steps = split(chars.as_slice(), '/');
    let ghost all = pieces(item@, '/');
    proof {
        assert(all.len() > 0);
        assert(slice_views(steps@)[0] == steps@[0]@);
    }
    if is_word(steps[0], "") {
        return false;
    }
    let mut i: usize = 0;
    while i < steps.len()
        invariant
            i <= steps@.len(),
            all == slice_views(steps@),
            forall|j: int| 0 <= j < i ==> #[trigger] all[j] != "."@ && all[j] != ".."@,
            all == pieces(item@, '/'),
        decreases steps@.len() - i,
    {
        assert(all[i as int] == steps@[i as int]@);
        if is_word(steps[i], ".") || is_word(steps[i], "..") {
            assert(all.contains(all[i as int]));
            return false;
        }
        i += 1;
    }
    true
}

fn find_directories(items: &Vec<String>, dir: &str, c: &ConfigExpr) -> (dirs: Vec<
    (String, ConfigExpr),
>)
    ensures
        cond_pairs(dirs@) == directories(texts(items@), dir@, c@),
{
    let ghost all = texts(items@);
    let mut dirs: Vec<(String, ConfigExpr)> = Vec::new();
    let mut i: usize = 0;
    assert(all.take(0) =~= Seq::<Seq<char>>::empty());
    assert(cond_pairs(dirs@) =~= seq![]);
    while i < items.len()
        invariant
            i <= items@.len(),
            all == texts(items@),
            cond_pairs(dirs@) == directories(all.take(i as int), dir@, c@),
        decreases items@.len() - i,
    {
        assert(all.take(i + 1).drop_last() =~= all.take(i as int));
        assert(all.take(i + 1).last() == items@[i as int]@);
        let ghost now = cond_pairs(dirs@);
        if is_below(items[i].as_str()) {
            let mut path = dir.to_owned();
            path.append(items[i].as_str());
            dirs.push((path, c.clone()));
            assert(cond_pairs(dirs@) =~= now.push((path@, c@)));
        }
        i += 1;
    }
    assert(all.take(i as int) =~= all);
    dirs
}

fn find_built_directories(rules: &Vec<Rule>, dir: &str, c: &ConfigExpr) -> (dirs: Vec<
    (String, ConfigExpr),
>)
    ensures
        cond_pairs(dirs@) == built_directories(rule_views(rules@), dir@, c@, rules@.len()),
{
    let ghost r = rule_views(rules@);
    let mut dirs: Vec<(String, ConfigExpr)> = Vec::new();
    let mut i: usize = 0;
    assert(cond_pairs(dirs@) =~= seq![]);
    while i < rules.len()
        invariant
            i <= rules@.len(),
            r == rule_views(rules@),
            cond_pairs(dirs@) == built_directories(r, dir@, c@, i as nat),
        decreases rules@.len() - i,
    {
        let rule = &rules[i];
        assert(r[i as int] == rule@);
        let cond = guard_cond(c, &rule.guard);
        add_pairs(&mut dirs, find_directories(&rule.items, dir, &cond));
        i += 1;
    }
    dirs
}

// ── Modules ───────────────────────────────────────────────────────────────────

/// The name that the kernel gives the module `name.o`: that of the file, with underscores for dashes.
pub open spec fn kernel_name(name: Seq<char>) -> Seq<char> {
    pieces(name, '/').last().map_values(|c: char| if c == '-' { '_' } else { c })
}

/// The module `name.o` in directory `dir`, built by the symbol `config`.
pub open spec fn module_of(
    rules: Seq<RuleView>,
    dir: Seq<char>,
    config: Seq<char>,
    name: Seq<char>,
) -> ModuleView {
    let files = target_files(rules, dir, Cond::Always, name);
    ModuleView {
        name: kernel_name(name),
        config,
        files: Seq::new(files.len(), |i: int| files[i].0),
    }
}

/// The modules that the first `k` rules put into the build: the objects behind a guard.
pub open spec fn built_modules(rules: Seq<RuleView>, dir: Seq<char>, k: nat) -> Seq<ModuleView>
    decreases k,
{
    if k == 0 {
        seq![]
    } else {
        let r = rules[k - 1];
        let front = built_modules(rules, dir, (k - 1) as nat);
        if r.stem == "obj"@ && r.guard is Some {
            front + Seq::new(
                objects(r.items).len(),
                |i: int| module_of(rules, dir, r.guard->0, objects(r.items)[i]),
            )
        } else {
            front
        }
    }
}

spec fn modules_seq(v: Seq<KernelModule>) -> Seq<ModuleView> {
    Seq::new(v.len(), |i: int| v[i]@)
}

fn to_kernel_name(name: &str) -> (out: String)
    ensures
        out@ == kernel_name(name@),
{
    let chars = chars_of(name);
    let parts = split(chars.as_slice(), '/');
    proof {
        assert(pieces(name@, '/').len() > 0);
        assert(slice_views(parts@).last() == parts@.last()@);
    }
    let base = parts[parts.len() - 1];
    let ghost want = kernel_name(name@);
    let mut out = String::new();
    assert(out@ =~= want.take(0));
    for i in 0..base.len()
        invariant
            base@ == pieces(name@, '/').last(),
            want == kernel_name(name@),
            out@ == want.take(i as int),
    {
        let c = base[i];
        if c == '-' {
            out.push('_');
        } else {
            out.push(c);
        }
        assert(out@ =~= want.take(i + 1));
    }
    assert(want.take(base@.len() as int) =~= want);
    out
}

fn find_module(rules: &Vec<Rule>, dir: &str, config: &String, name: &String) -> (module:
    KernelModule)
    ensures
        module@ == module_of(rule_views(rules@), dir@, config@, name@),
{
    let always = ConfigExpr::Always;
    let pairs = find_target_files(rules, dir, &always, name);
    let ghost want = target_files(rule_views(rules@), dir@, Cond::Always, name@);
    let mut files: Vec<String> = Vec::new();
    let mut i: usize = 0;
    while i < pairs.len()
        invariant
            i <= pairs@.len(),
            cond_pairs(pairs@) == want,
            files@.len() == i,
            forall|k: int| 0 <= k < i ==> (#[trigger] files@[k])@ == want[k].0,
        decreases pairs@.len() - i,
    {
        assert(want[i as int] == (pairs@[i as int].0@, pairs@[i as int].1@));
        files.push(pairs[i].0.clone());
        i += 1;
    }
    assert(pairs@.len() == want.len()) by {
        assert(cond_pairs(pairs@).len() == want.len());
    }
    let module = KernelModule {
        name: to_kernel_name(name.as_str()),
        module_config: config.clone(),
        files,
    };
    assert(module@.files =~= module_of(rule_views(rules@), dir@, config@, name@).files);
    module
}

fn find_built_modules(rules: &Vec<Rule>, dir: &str) -> (modules: Vec<KernelModule>)
    ensures
        modules_seq(modules@) == built_modules(rule_views(rules@), dir@, rules@.len()),
{
    let ghost r = rule_views(rules@);
    let mut modules: Vec<KernelModule> = Vec::new();
    let mut i: usize = 0;
    assert(modules_seq(modules@) =~= seq![]);
    while i < rules.len()
        invariant
            i <= rules@.len(),
            r == rule_views(rules@),
            modules_seq(modules@) == built_modules(r, dir@, i as nat),
        decreases rules@.len() - i,
    {
        let rule = &rules[i];
        assert(r[i as int] == rule@);
        if same_text(rule.stem.as_str(), "obj") {
            if let Some(guard) = &rule.guard {
                let names = read_objects(&rule.items);
                let ghost front = modules_seq(modules@);
                let ghost more = Seq::new(
                    objects(rule@.items).len(),
                    |i: int| module_of(r, dir@, guard@, objects(rule@.items)[i]),
                );
                let mut j: usize = 0;
                assert(front + more.take(0) =~= front);
                while j < names.len()
                    invariant
                        j <= names@.len(),
                        r == rule_views(rules@),
                        texts(names@) == objects(rule@.items),
                        more == Seq::new(
                            objects(rule@.items).len(),
                            |i: int| module_of(r, dir@, guard@, objects(rule@.items)[i]),
                        ),
                        modules_seq(modules@) == front + more.take(j as int),
                    decreases names@.len() - j,
                {
                    let ghost now = modules_seq(modules@);
                    assert(texts(names@)[j as int] == names@[j as int]@);
                    let module = find_module(rules, dir, guard, &names[j]);
                    modules.push(module);
                    assert(modules_seq(modules@) =~= now.push(more[j as int]));
                    assert(front + more.take(j + 1) =~= now.push(more[j as int]));
                    j += 1;
                }
                assert(more.take(j as int) =~= more);
            }
        }
        i += 1;
    }
    modules
}

// ── The loader ────────────────────────────────────────────────────────────────

/// Reads a tree of Makefiles. It never touches a file system: it names the directory whose Makefile
/// comes next and is given the text.
///
/// The directories come in the order of their names. So a directory comes after all the Makefiles
/// that may put it into the build, and comes once, under all their conditions.
pub struct KbuildLoader {
    pending: NameMap<ConfigExpr>,
    files: NameMap<ConfigExpr>,
    modules: NameMap<KernelModule>,
}

/// What a loader has come to: the directories still to be entered, the files, each with the
/// condition that it stands under, and the modules.
pub ghost struct TreeView {
    pub pending: Map<Seq<char>, Cond>,
    pub files: Map<Seq<char>, Cond>,
    pub modules: Map<Seq<char>, ModuleView>,
}

impl View for KbuildLoader {
    type V = TreeView;

    closed spec fn view(&self) -> TreeView {
        TreeView {
            pending: cond_views(self.pending@),
            files: cond_views(self.files@),
            modules: module_views(self.modules@),
        }
    }
}

/// Whether every path of the files and of the modules leads down from the root of the tree.
pub open spec fn in_tree(files: Map<Seq<char>, Cond>, modules: Map<Seq<char>, ModuleView>) -> bool {
    &&& forall|f: Seq<char>| #[trigger] files.contains_key(f) ==> is_relative(f)
    &&& forall|n: Seq<char>| #[trigger]
        modules.contains_key(n) ==> has_relative_files(modules[n])
}

/// Whether every source file of the module leads down from the root of the tree.
pub open spec fn has_relative_files(module: ModuleView) -> bool {
    forall|i: int| 0 <= i < module.files.len() ==> is_relative(#[trigger] module.files[i])
}

impl KbuildLoader {
    #[verifier::type_invariant]
    spec fn stays_in_tree(self) -> bool {
        in_tree(cond_views(self.files@), module_views(self.modules@))
    }
}

/// `files` with one more place that puts `file` into the build.
pub open spec fn with_file(files: Map<Seq<char>, Cond>, file: Seq<char>, c: Cond) -> Map<
    Seq<char>,
    Cond,
> {
    if files.contains_key(file) {
        files.insert(file, Cond::Or(Box::new(files[file]), Box::new(c)))
    } else {
        files.insert(file, c)
    }
}

/// `files` with several more.
pub open spec fn with_files(files: Map<Seq<char>, Cond>, more: Seq<(Seq<char>, Cond)>) -> Map<
    Seq<char>,
    Cond,
>
    decreases more.len(),
{
    if more.len() == 0 {
        files
    } else {
        with_file(with_files(files, more.drop_last()), more.last().0, more.last().1)
    }
}

/// `modules` with several more; of two with one name the later counts.
pub open spec fn with_modules(modules: Map<Seq<char>, ModuleView>, more: Seq<ModuleView>) -> Map<
    Seq<char>,
    ModuleView,
>
    decreases more.len(),
{
    if more.len() == 0 {
        modules
    } else {
        with_modules(modules, more.drop_last()).insert(more.last().name, more.last())
    }
}

/// Whether `dir` is the first of the names in `pending`.
pub open spec fn comes_first(pending: Map<Seq<char>, Cond>, dir: Seq<char>) -> bool {
    &&& pending.contains_key(dir)
    &&& forall|other: Seq<char>| #[trigger]
        pending.contains_key(other) ==> other == dir || precedes(dir, other)
}

impl KbuildLoader {
    /// A loader that is to enter the root of the tree.
    pub fn new() -> (loader: KbuildLoader)
        ensures
            loader@ == (TreeView {
                pending: map![""@ => Cond::Always],
                files: Map::empty(),
                modules: Map::empty(),
            }),
    {
        let mut pending: NameMap<ConfigExpr> = NameMap::new();
        pending.insert("".to_owned(), ConfigExpr::Always);
        let files: NameMap<ConfigExpr> = NameMap::new();
        let modules: NameMap<KernelModule> = NameMap::new();
        let loader = KbuildLoader { pending, files, modules };
        assert(loader@.pending =~= map![""@ => Cond::Always]);
        assert(loader@.files =~= Map::empty());
        assert(loader@.modules =~= Map::empty());
        loader
    }

    /// The directory whose Makefile comes next, and the condition that it stands under.
    pub fn next_dir(&mut self) -> (dir: Option<(String, ConfigExpr)>)
        ensures
            match dir {
                Some(d) => {
                    &&& comes_first(old(self)@.pending, d.0@)
                    &&& old(self)@.pending[d.0@] == d.1@
                    &&& final(self)@ == (TreeView {
                        pending: old(self)@.pending.remove(d.0@),
                        ..old(self)@
                    })
                },
                None => {
                    &&& old(self)@.pending == Map::<Seq<char>, Cond>::empty()
                    &&& final(self)@ == old(self)@
                },
            },
    {
        let ghost before = self.pending@;
        let count: usize = self.pending.len();
        if count == 0 {
            assert(self@.pending =~= Map::empty());
            return None;
        }
        let ghost names = self.pending.keys();
        let name = self.pending.key_at(0).clone();
        proof {
            assert forall|other: Seq<char>| #[trigger] self@.pending.contains_key(other) implies other
                == name@ || precedes(name@, other) by {
                let i = choose|i: int| 0 <= i < names.len() && names[i] == other;
                if i > 0 {
                    assert(precedes(names[0], names[i]));
                }
            }
        }
        let mut pending: NameMap<ConfigExpr> = NameMap::new();
        proof {
            use_type_invariant(&*self);
        }
        std::mem::swap(&mut self.pending, &mut pending);
        let taken = pending.remove(name.as_str());
        self.pending = pending;
        match taken {
            Some(c) => {
                assert(self@.pending =~= cond_views(before).remove(name@));
                Some((name, c))
            },
            None => None,
        }
    }

    /// Takes in the text of the Makefile of `dir`, which stands under `c`.
    pub fn add_makefile(&mut self, dir: &str, c: &ConfigExpr, text: &str)
        ensures
            ({
                let rules = makefile_rules(text@);
                final(self)@ == (TreeView {
                    pending: with_files(
                        old(self)@.pending,
                        built_directories(rules, dir@, c@, rules.len()),
                    ),
                    files: with_files(
                        old(self)@.files,
                        built_files(rules, dir@, c@, rules.len()),
                    ),
                    modules: with_modules(
                        old(self)@.modules,
                        built_modules(rules, dir@, rules.len()),
                    ),
                })
            }),
            forall|name: Seq<char>, on: Set<Seq<char>>|
                #![trigger cond_holds(final(self)@.files[name], on)]
                !cond_holds(c@, on) && final(self)@.files.contains_key(name) && cond_holds(
                    final(self)@.files[name],
                    on,
                ) ==> old(self)@.files.contains_key(name) && cond_holds(
                    old(self)@.files[name],
                    on,
                ),
            forall|name: Seq<char>, on: Set<Seq<char>>|
                #![trigger cond_holds(final(self)@.pending[name], on)]
                !cond_holds(c@, on) && final(self)@.pending.contains_key(name) && cond_holds(
                    final(self)@.pending[name],
                    on,
                ) ==> old(self)@.pending.contains_key(name) && cond_holds(
                    old(self)@.pending[name],
                    on,
                ),
    {
        let ghost before = self@;
        let rules = read_makefile(text);
        let dirs = find_built_directories(&rules, dir, c);
        let files = find_built_files(&rules, dir, c);
        let modules = find_built_modules(&rules, dir);
        let mut all_dirs: NameMap<ConfigExpr> = NameMap::new();
        let mut all_files: NameMap<ConfigExpr> = NameMap::new();
        let mut all_modules: NameMap<KernelModule> = NameMap::new();
        proof {
            use_type_invariant(&*self);
            lemma_tree_stays_relative(
                self@.files,
                self@.modules,
                rule_views(rules@),
                dir@,
                c@,
            );
        }
        std::mem::swap(&mut self.pending, &mut all_dirs);
        std::mem::swap(&mut self.files, &mut all_files);
        std::mem::swap(&mut self.modules, &mut all_modules);
        add_places(&mut all_dirs, dirs);
        add_places(&mut all_files, files);
        add_modules(&mut all_modules, modules);
        assert(rule_views(rules@).len() == rules@.len());
        *self = KbuildLoader { pending: all_dirs, files: all_files, modules: all_modules };
        proof {
            let r = makefile_rules(text@);
            let after = self@;
            assert forall|name: Seq<char>, on: Set<Seq<char>>|
                #![trigger cond_holds(after.files[name], on)]
                !cond_holds(c@, on) && after.files.contains_key(name) && cond_holds(
                    after.files[name],
                    on,
                ) implies before.files.contains_key(name) && cond_holds(before.files[name], on) by {
                lemma_nothing_below_unentered(
                    before.files,
                    before.pending,
                    r,
                    dir@,
                    c@,
                    name,
                    on,
                );
            }
            assert forall|name: Seq<char>, on: Set<Seq<char>>|
                #![trigger cond_holds(after.pending[name], on)]
                !cond_holds(c@, on) && after.pending.contains_key(name) && cond_holds(
                    after.pending[name],
                    on,
                ) implies before.pending.contains_key(name) && cond_holds(
                before.pending[name],
                on,
            ) by {
                lemma_nothing_below_unentered(
                    before.files,
                    before.pending,
                    r,
                    dir@,
                    c@,
                    name,
                    on,
                );
            }
        }
    }
}

/// Puts more modules into `map`.
fn add_modules(map: &mut NameMap<KernelModule>, more: Vec<KernelModule>)
    ensures
        module_views(final(map)@) == with_modules(module_views(old(map)@), modules_seq(more@)),
{
    let ghost start = module_views(map@);
    let ghost all = modules_seq(more@);
    let mut more = more;
    let ghost given = more@;
    let mut taken: Vec<KernelModule> = Vec::new();
    while more.len() > 0
        invariant
            more@ + taken@.reverse() == given,
            module_views(map@) == start,
        decreases more@.len(),
    {
        let ghost m0 = more@;
        let ghost t0 = taken@;
        match more.pop() {
            Some(m) => {
                taken.push(m);
                assert(more@ + taken@.reverse() =~= m0 + t0.reverse());
            },
            None => {},
        }
    }
    assert(taken@.reverse() =~= given);
    let ghost mut i = 0int;
    let ghost n = taken@.len();
    assert(all.take(0) =~= Seq::<ModuleView>::empty());
    while taken.len() > 0
        invariant
            0 <= i,
            i + taken@.len() == n,
            n == given.len(),
            all == modules_seq(given),
            taken@.reverse() == given.skip(i as int),
            module_views(map@) == with_modules(start, all.take(i as int)),
        decreases taken@.len(),
    {
        let ghost before = map@;
        let ghost t0 = taken@;
        proof {
            assert(taken@.reverse()[0] == taken@.last());
            assert(given.skip(i as int)[0] == given[i as int]);
            assert(all.take(i + 1).drop_last() =~= all.take(i as int));
            assert(all.take(i + 1).last() == given[i as int]@);
        }
        match taken.pop() {
            Some(m) => {
                let ghost v = m@;
                map.insert(m.name.clone(), m);
                assert(module_views(map@) =~= module_views(before).insert(v.name, v));
            },
            None => {},
        }
        proof {
            assert(taken@.reverse() =~= t0.reverse().drop_first());
            assert(given.skip(i + 1) =~= given.skip(i as int).drop_first());
            i = i + 1;
        }
    }
    assert(all.take(n as int) =~= all);
}

/// Puts more places that are in the build into `map`.
fn add_places(map: &mut NameMap<ConfigExpr>, more: Vec<(String, ConfigExpr)>)
    ensures
        cond_views(final(map)@) == with_files(cond_views(old(map)@), cond_pairs(more@)),
{
    let ghost start = cond_views(map@);
    let ghost all = cond_pairs(more@);
    let mut i: usize = 0;
    assert(all.take(0) =~= Seq::<(Seq<char>, Cond)>::empty());
    while i < more.len()
        invariant
            i <= more@.len(),
            all == cond_pairs(more@),
            cond_views(map@) == with_files(start, all.take(i as int)),
        decreases more@.len() - i,
    {
        let ghost before = map@;
        proof {
            assert(all.take(i + 1).drop_last() =~= all.take(i as int));
            assert(all.take(i + 1).last() == (more@[i as int].0@, more@[i as int].1@));
        }
        let name = more[i].0.clone();
        let cond = more[i].1.clone();
        let whole = match map.get(name.as_str()) {
            Some(e) => ConfigExpr::Or(Box::new(e.clone()), Box::new(cond)),
            None => cond,
        };
        let ghost n = name@;
        let ghost w = whole@;
        map.insert(name, whole);
        assert(cond_views(map@) =~= cond_views(before).insert(n, w));
        i += 1;
    }
    assert(all.take(i as int) =~= all);
}

// ── Laws ──────────────────────────────────────────────────────────────────────

proof fn lemma_directories_below(items: Seq<Seq<char>>, dir: Seq<char>, c: Cond)
    ensures
        forall|i: int|
            0 <= i < directories(items, dir, c).len() ==> precedes(
                dir,
                (#[trigger] directories(items, dir, c)[i]).0,
            ),
    decreases items.len(),
{
    if items.len() > 0 {
        let front = directories(items.drop_last(), dir, c);
        lemma_directories_below(items.drop_last(), dir, c);
        if leads_down(items.last()) {
            reveal_strlit("/");
            lemma_order_prefix(dir, items.last());
            assert(directories(items, dir, c) == front.push((dir + items.last(), c)));
        } else {
            assert(directories(items, dir, c) == front);
        }
        assert forall|i: int| 0 <= i < directories(items, dir, c).len() implies precedes(
            dir,
            (#[trigger] directories(items, dir, c)[i]).0,
        ) by {
            if i < front.len() {
                assert(front[i] == directories(items, dir, c)[i]);
            }
        }
    }
}

proof fn lemma_built_below(rules: Seq<RuleView>, dir: Seq<char>, c: Cond, k: nat)
    ensures
        forall|i: int|
            0 <= i < built_directories(rules, dir, c, k).len() ==> precedes(
                dir,
                (#[trigger] built_directories(rules, dir, c, k)[i]).0,
            ),
    decreases k,
{
    if k > 0 {
        let front = built_directories(rules, dir, c, (k - 1) as nat);
        let more = directories(rules[k - 1].items, dir, guarded(c, rules[k - 1].guard));
        lemma_built_below(rules, dir, c, (k - 1) as nat);
        lemma_directories_below(rules[k - 1].items, dir, guarded(c, rules[k - 1].guard));
        assert(built_directories(rules, dir, c, k) == front + more);
        assert forall|i: int| 0 <= i < (front + more).len() implies precedes(
            dir,
            (#[trigger] (front + more)[i]).0,
        ) by {
            if i < front.len() {
                assert(front[i] == (front + more)[i]);
            } else {
                assert(more[i - front.len()] == (front + more)[i]);
            }
        }
    }
}

proof fn lemma_with_files_keys(files: Map<Seq<char>, Cond>, more: Seq<(Seq<char>, Cond)>, name: Seq<char>)
    requires
        with_files(files, more).contains_key(name),
    ensures
        files.contains_key(name) || exists|i: int| 0 <= i < more.len() && (#[trigger] more[i]).0 == name,
    decreases more.len(),
{
    if more.len() > 0 {
        if more.last().0 == name {
            assert(more[more.len() - 1].0 == name);
        } else {
            lemma_with_files_keys(files, more.drop_last(), name);
            if !files.contains_key(name) {
                let i = choose|i: int|
                    0 <= i < more.drop_last().len() && (#[trigger] more.drop_last()[i]).0 == name;
                assert(more[i].0 == name);
            }
        }
    }
}

/// A directory comes at most once: whatever its Makefile holds, every directory that is pending
/// after it stands behind it, and so does every one that comes later.
pub proof fn lemma_directories_come_once(
    pending: Map<Seq<char>, Cond>,
    dir: Seq<char>,
    rules: Seq<RuleView>,
    name: Seq<char>,
)
    requires
        comes_first(pending, dir),
        with_files(
            pending.remove(dir),
            built_directories(rules, dir, pending[dir], rules.len()),
        ).contains_key(name),
    ensures
        precedes(dir, name),
{
    let more = built_directories(rules, dir, pending[dir], rules.len());
    lemma_with_files_keys(pending.remove(dir), more, name);
    lemma_built_below(rules, dir, pending[dir], rules.len());
    if pending.remove(dir).contains_key(name) {
        assert(pending.contains_key(name));
    }
}

proof fn lemma_sources_relative(
    dir: Seq<char>,
    c: Cond,
    parts: Seq<(Seq<char>, Option<Seq<char>>)>,
)
    ensures
        all_relative(sources(dir, c, parts)),
    decreases parts.len(),
{
    if parts.len() > 0 {
        let front = sources(dir, c, parts.drop_last());
        lemma_sources_relative(dir, c, parts.drop_last());
        if source_path(dir, parts.last().0) is Some {
            lemma_source_is_relative(dir, parts.last().0);
        }
        assert forall|i: int| 0 <= i < sources(dir, c, parts).len() implies is_relative(
            (#[trigger] sources(dir, c, parts)[i]).0,
        ) by {
            if i < front.len() {
                assert(front[i] == sources(dir, c, parts)[i]);
            }
        }
    }
}

/// Whether every path of a list leads down from the root of the tree.
spec fn all_relative(files: Seq<(Seq<char>, Cond)>) -> bool {
    forall|i: int| 0 <= i < files.len() ==> is_relative((#[trigger] files[i]).0)
}

proof fn lemma_both_relative(a: Seq<(Seq<char>, Cond)>, b: Seq<(Seq<char>, Cond)>)
    requires
        all_relative(a),
        all_relative(b),
    ensures
        all_relative(a + b),
{
    assert forall|i: int| 0 <= i < (a + b).len() implies is_relative((#[trigger] (a + b)[i]).0) by {
        if i < a.len() {
            assert((a + b)[i] == a[i]);
        } else {
            assert((a + b)[i] == b[i - a.len()]);
        }
    }
}

proof fn lemma_targets_relative(
    rules: Seq<RuleView>,
    dir: Seq<char>,
    c: Cond,
    names: Seq<Seq<char>>,
)
    ensures
        all_relative(targets_files(rules, dir, c, names)),
    decreases names.len(),
{
    if names.len() > 0 {
        lemma_targets_relative(rules, dir, c, names.drop_last());
        lemma_sources_relative(dir, c, compiled_for(rules, names.last()));
        lemma_both_relative(
            targets_files(rules, dir, c, names.drop_last()),
            target_files(rules, dir, c, names.last()),
        );
    }
}

proof fn lemma_built_relative(rules: Seq<RuleView>, dir: Seq<char>, c: Cond, k: nat)
    ensures
        all_relative(built_files(rules, dir, c, k)),
    decreases k,
{
    if k > 0 {
        let r = rules[k - 1];
        let more = targets_files(rules, dir, guarded(c, r.guard), objects(r.items));
        lemma_built_relative(rules, dir, c, (k - 1) as nat);
        lemma_targets_relative(rules, dir, guarded(c, r.guard), objects(r.items));
        lemma_both_relative(built_files(rules, dir, c, (k - 1) as nat), more);
    }
}

proof fn lemma_module_relative(
    rules: Seq<RuleView>,
    dir: Seq<char>,
    config: Seq<char>,
    name: Seq<char>,
)
    ensures
        has_relative_files(module_of(rules, dir, config, name)),
{
    let files = target_files(rules, dir, Cond::Always, name);
    let m = module_of(rules, dir, config, name);
    lemma_sources_relative(dir, Cond::Always, compiled_for(rules, name));
    assert forall|i: int| 0 <= i < m.files.len() implies is_relative(#[trigger] m.files[i]) by {
        assert(m.files[i] == files[i].0);
    }
}

proof fn lemma_modules_relative(rules: Seq<RuleView>, dir: Seq<char>, k: nat, i: int)
    requires
        0 <= i < built_modules(rules, dir, k).len(),
    ensures
        has_relative_files(built_modules(rules, dir, k)[i]),
    decreases k,
{
    if k > 0 {
        let r = rules[k - 1];
        let front = built_modules(rules, dir, (k - 1) as nat);
        if i < front.len() {
            lemma_modules_relative(rules, dir, (k - 1) as nat, i);
            assert(built_modules(rules, dir, k)[i] == front[i]);
        } else {
            lemma_module_relative(rules, dir, r.guard->0, objects(r.items)[i - front.len()]);
        }
    }
}

proof fn lemma_with_modules_relative(
    modules: Map<Seq<char>, ModuleView>,
    more: Seq<ModuleView>,
    name: Seq<char>,
)
    requires
        forall|n: Seq<char>| #[trigger]
            modules.contains_key(n) ==> has_relative_files(modules[n]),
        forall|i: int| 0 <= i < more.len() ==> has_relative_files(#[trigger] more[i]),
        with_modules(modules, more).contains_key(name),
    ensures
        has_relative_files(with_modules(modules, more)[name]),
    decreases more.len(),
{
    if more.len() > 0 {
        assert(has_relative_files(more[more.len() - 1]));
        if more.last().name != name {
            assert forall|i: int| 0 <= i < more.drop_last().len() implies has_relative_files(
                #[trigger] more.drop_last()[i],
            ) by {
                assert(more.drop_last()[i] == more[i]);
            }
            lemma_with_modules_relative(modules, more.drop_last(), name);
        }
    }
}

/// Whatever a Makefile holds, every path that it brings in leads down from the root of the tree.
pub proof fn lemma_tree_stays_relative(
    files: Map<Seq<char>, Cond>,
    modules: Map<Seq<char>, ModuleView>,
    rules: Seq<RuleView>,
    dir: Seq<char>,
    c: Cond,
)
    requires
        in_tree(files, modules),
    ensures
        in_tree(
            with_files(files, built_files(rules, dir, c, rules.len())),
            with_modules(modules, built_modules(rules, dir, rules.len())),
        ),
{
    let more_files = built_files(rules, dir, c, rules.len());
    let more_modules = built_modules(rules, dir, rules.len());
    lemma_built_relative(rules, dir, c, rules.len());
    assert forall|f: Seq<char>| #[trigger] with_files(files, more_files).contains_key(
        f,
    ) implies is_relative(f) by {
        lemma_with_files_keys(files, more_files, f);
        if !files.contains_key(f) {
            let i = choose|i: int| 0 <= i < more_files.len() && (#[trigger] more_files[i]).0 == f;
            assert(is_relative(more_files[i].0));
        }
    }
    assert forall|i: int| 0 <= i < more_modules.len() implies has_relative_files(
        #[trigger] more_modules[i],
    ) by {
        lemma_modules_relative(rules, dir, rules.len(), i);
    }
    assert forall|n: Seq<char>| #[trigger] with_modules(modules, more_modules).contains_key(
        n,
    ) implies has_relative_files(with_modules(modules, more_modules)[n]) by {
        lemma_with_modules_relative(modules, more_modules, n);
    }
}

/// What a file stands under grows with each place that puts it into the build: it is compiled where
/// it was, and where the new place says.
pub proof fn lemma_more_places(
    files: Map<Seq<char>, Cond>,
    file: Seq<char>,
    c: Cond,
    enabled: Set<Seq<char>>,
)
    ensures
        cond_holds(with_file(files, file, c)[file], enabled) == (cond_holds(c, enabled) || (
        files.contains_key(file) && cond_holds(files[file], enabled))),
{
    if files.contains_key(file) {
        assert(with_file(files, file, c)[file] == Cond::Or(Box::new(files[file]), Box::new(c)));
    }
}

/// A tree spells each path in one way: no file is there twice, and a module's file is among the files
/// just where its path is.
pub proof fn lemma_tree_spells_once(
    files: Map<Seq<char>, Cond>,
    modules: Map<Seq<char>, ModuleView>,
    n: Seq<char>,
    i: int,
)
    requires
        in_tree(files, modules),
        modules.contains_key(n),
        0 <= i < modules[n].files.len(),
    ensures
        each_once(files.dom()),
        has_path(files.dom(), modules[n].files[i]) <==> files.contains_key(modules[n].files[i]),
{
    assert forall|a: Seq<char>, b: Seq<char>| #[trigger]
        files.dom().contains(a) && #[trigger] files.dom().contains(b) && same_path(
            a,
            b,
        ) implies a == b by {
        assert(files.contains_key(a) && files.contains_key(b));
        lemma_relative_once(a, b);
    }
    let file = modules[n].files[i];
    assert(has_relative_files(modules[n]));
    if has_path(files.dom(), file) {
        let q = choose|q: Seq<char>| #[trigger] files.dom().contains(q) && same_path(q, file);
        assert(files.contains_key(q));
        lemma_relative_once(q, file);
    }
}

impl KbuildMaps {
    /// The maps of the Makefile tree that `loader` has read.
    pub fn load(loader: KbuildLoader) -> (maps: KbuildMaps)
        ensures
            maps@ == loader@.files,
            module_views(maps.module_map()) == loader@.modules,
            in_tree(maps@, module_views(maps.module_map())),
            forall|c: Seq<char>, f: Seq<char>| #[trigger] stops(maps@, c, f) ==> is_relative(f),
    {
        proof {
            use_type_invariant(&loader);
        }
        KbuildMaps::from_files(loader.files, loader.modules)
    }
}

} // verus!
