//! What the rules of Makefiles put into the build, object by object and directory by directory, and
//! under which conditions.
use crate::kbuild::expr::{cond_holds, lemma_truth_of_parts, Cond};
use crate::kbuild::makefile::{
    built_directories, built_files, built_modules, compiled_for, directories, guarded, kernel_name,
    leads_down, module_of, objects, parts_of, rule_of, rules_of, sources, stem_and_guard,
    target_files, targets_files, with_file, with_files, with_modules, RuleView,
};
use crate::kbuild::maps::ModuleView;
use crate::kbuild::relative::source_path;
use crate::paths::steps::{joined, lemma_pieces_joined};
use crate::split::{has_part, lemma_before_part, pieces, stands_at, words};
use crate::text::{is_space, without_suffix, without_trailing};
use crate::text_laws::{
    all_space, is_free_of, is_solid, is_trim, lemma_affixes, lemma_cut_at_first, lemma_stripped,
    lemma_trim, lemma_trim_idle,
};
use vstd::prelude::*;

verus! {

// ── Conditions ────────────────────────────────────────────────────────────────

/// Whether the symbol that a rule stands behind, if any, is enabled.
pub open spec fn guard_holds(guard: Option<Seq<char>>, on: Set<Seq<char>>) -> bool {
    guard is Some ==> on.contains(guard->0)
}

/// What stands behind a guard is in the build just where its condition holds and the symbol of the
/// guard is enabled.
pub proof fn lemma_guard_is_conjunction(c: Cond, guard: Option<Seq<char>>, on: Set<Seq<char>>)
    ensures
        cond_holds(guarded(c, guard), on) <==> cond_holds(c, on) && guard_holds(guard, on),
{
    if guard is Some {
        lemma_truth_of_parts(c, Cond::Symbol(guard->0), guard->0, on);
    }
    lemma_truth_of_parts(c, c, seq![], on);
}

proof fn lemma_guards_everywhere(c: Cond, guard: Option<Seq<char>>)
    ensures
        forall|on: Set<Seq<char>>| #[trigger]
            cond_holds(guarded(c, guard), on) <==> cond_holds(c, on) && guard_holds(guard, on),
{
    assert forall|on: Set<Seq<char>>| #[trigger]
        cond_holds(guarded(c, guard), on) <==> cond_holds(c, on) && guard_holds(guard, on) by {
        lemma_guard_is_conjunction(c, guard, on);
    }
}

// ── Directories ───────────────────────────────────────────────────────────────

/// A name with a slash behind it is a directory below the one that it stands in.
pub proof fn lemma_plain_directory(name: Seq<char>)
    requires
        name.len() > 0,
        name != "."@,
        name != ".."@,
        forall|i: int| 0 <= i < name.len() ==> #[trigger] name[i] != '/',
    ensures
        leads_down(name + "/"@),
{
    reveal_strlit("/");
    reveal_strlit("");
    reveal_strlit(".");
    reveal_strlit("..");
    let item = name + "/"@;
    let steps = seq![name, ""@];
    assert forall|i: int, j: int| 0 <= i < steps.len() && 0 <= j < steps[i].len() implies
        #[trigger] steps[i][j] != '/' by {
        if i == 0 {
            assert(name[j] != '/');
        }
    }
    lemma_pieces_joined(steps);
    assert(steps.drop_last() =~= seq![name]);
    assert(joined(seq![name]) == name);
    assert(joined(steps) =~= item);
    assert(pieces(item, '/') == steps);
    assert("."@.len() == 1 && ".."@.len() == 2);
    assert forall|i: int| 0 <= i < steps.len() implies steps[i] != "."@ && steps[i] != ".."@ by {
    }
}

proof fn lemma_directory_listed(items: Seq<Seq<char>>, dir: Seq<char>, c: Cond, q: int) -> (i: int)
    requires
        0 <= q < items.len(),
        leads_down(items[q]),
    ensures
        0 <= i < directories(items, dir, c).len(),
        directories(items, dir, c)[i] == (dir + items[q], c),
    decreases items.len(),
{
    let front = directories(items.drop_last(), dir, c);
    if q == items.len() - 1 {
        front.len() as int
    } else {
        assert(items.drop_last()[q] == items[q]);
        lemma_directory_listed(items.drop_last(), dir, c, q)
    }
}

proof fn lemma_directory_from(items: Seq<Seq<char>>, dir: Seq<char>, c: Cond, i: int) -> (q: int)
    requires
        0 <= i < directories(items, dir, c).len(),
    ensures
        0 <= q < items.len(),
        leads_down(items[q]),
        directories(items, dir, c)[i] == (dir + items[q], c),
    decreases items.len(),
{
    let front = directories(items.drop_last(), dir, c);
    if i < front.len() {
        let q = lemma_directory_from(items.drop_last(), dir, c, i);
        assert(items.drop_last()[q] == items[q]);
        q
    } else {
        items.len() - 1
    }
}

/// Every directory that any rule names is in the build, just where the directory with the Makefile
/// is entered and the symbol that the rule stands behind, if any, is enabled.
pub proof fn lemma_every_directory_is_built(
    rules: Seq<RuleView>,
    dir: Seq<char>,
    c: Cond,
    k: nat,
    r: int,
    q: int,
) -> (i: int)
    requires
        0 <= r < k <= rules.len(),
        0 <= q < rules[r].items.len(),
        leads_down(rules[r].items[q]),
    ensures
        0 <= i < built_directories(rules, dir, c, k).len(),
        built_directories(rules, dir, c, k)[i].0 == dir + rules[r].items[q],
        forall|on: Set<Seq<char>>| #[trigger]
            cond_holds(built_directories(rules, dir, c, k)[i].1, on) <==> cond_holds(c, on)
                && guard_holds(rules[r].guard, on),
    decreases k,
{
    let front = built_directories(rules, dir, c, (k - 1) as nat);
    if r == k - 1 {
        lemma_guards_everywhere(c, rules[r].guard);
        let j = lemma_directory_listed(rules[r].items, dir, guarded(c, rules[r].guard), q);
        front.len() + j
    } else {
        lemma_every_directory_is_built(rules, dir, c, (k - 1) as nat, r, q)
    }
}

/// A directory is in the build only by a rule that names it, and only where the directory with the
/// Makefile is entered and the symbol that the rule stands behind, if any, is enabled: what is below
/// a directory is not compiled where the directory is not entered.
pub proof fn lemma_directory_only_where_entered(
    rules: Seq<RuleView>,
    dir: Seq<char>,
    c: Cond,
    k: nat,
    i: int,
) -> (place: (int, int))
    requires
        k <= rules.len(),
        0 <= i < built_directories(rules, dir, c, k).len(),
    ensures
        0 <= place.0 < k,
        0 <= place.1 < rules[place.0].items.len(),
        leads_down(rules[place.0].items[place.1]),
        built_directories(rules, dir, c, k)[i].0 == dir + rules[place.0].items[place.1],
        forall|on: Set<Seq<char>>| #[trigger]
            cond_holds(built_directories(rules, dir, c, k)[i].1, on) <==> cond_holds(c, on)
                && guard_holds(rules[place.0].guard, on),
    decreases k,
{
    let front = built_directories(rules, dir, c, (k - 1) as nat);
    if i < front.len() {
        lemma_directory_only_where_entered(rules, dir, c, (k - 1) as nat, i)
    } else {
        let r = rules[k - 1];
        lemma_guards_everywhere(c, r.guard);
        let q = lemma_directory_from(r.items, dir, guarded(c, r.guard), i - front.len());
        (k - 1, q)
    }
}

// ── Objects ───────────────────────────────────────────────────────────────────

/// The objects among items are those that end in `.o`.
pub proof fn lemma_objects_end_in_o(items: Seq<Seq<char>>, name: Seq<char>)
    ensures
        objects(items).contains(name) <==> items.contains(name + ".o"@),
    decreases items.len(),
{
    if items.len() > 0 {
        let front = items.drop_last();
        let last = items.last();
        lemma_objects_end_in_o(front, name);
        let own = without_suffix(last, ".o"@);
        if own is Some {
            assert(last =~= own->0 + ".o"@);
        }
        assert(without_suffix(name + ".o"@, ".o"@) is Some) by {
            assert(".o"@.is_suffix_of(name + ".o"@)) by {
                assert((name + ".o"@).subrange(
                    (name + ".o"@).len() - ".o"@.len(),
                    (name + ".o"@).len() as int,
                ) =~= ".o"@);
            }
        }
        assert(without_suffix(name + ".o"@, ".o"@)->0 =~= name);
        if items.contains(name + ".o"@) {
            let q = choose|q: int| 0 <= q < items.len() && items[q] == name + ".o"@;
            if q < front.len() {
                assert(front[q] == name + ".o"@);
                let j = choose|j: int| 0 <= j < objects(front).len() && objects(front)[j] == name;
                assert(objects(items)[j] == name);
            } else {
                assert(objects(items)[objects(front).len() as int] == name);
            }
        }
        if objects(items).contains(name) {
            let j = choose|j: int| 0 <= j < objects(items).len() && objects(items)[j] == name;
            if j < objects(front).len() {
                assert(objects(front)[j] == name);
                let q = choose|q: int| 0 <= q < front.len() && front[q] == name + ".o"@;
                assert(items[q] == name + ".o"@);
            } else {
                assert(items[items.len() - 1] == name + ".o"@);
            }
        }
    }
}

/// An object is made of the objects that the rules with its name list, each behind the symbol of its
/// rule.
pub proof fn lemma_parts_come_from_rules(
    rules: Seq<RuleView>,
    name: Seq<char>,
    part: Seq<char>,
    guard: Option<Seq<char>>,
)
    ensures
        parts_of(rules, name).contains((part, guard)) <==> exists|r: int|
            0 <= r < rules.len() && (#[trigger] rules[r]).stem == name && rules[r].guard == guard
                && rules[r].items.contains(part + ".o"@),
    decreases rules.len(),
{
    if rules.len() > 0 {
        let front = rules.drop_last();
        let last = rules.last();
        let own = objects(last.items);
        let more = Seq::new(own.len(), |i: int| (own[i], last.guard));
        lemma_parts_come_from_rules(front, name, part, guard);
        lemma_objects_end_in_o(last.items, part);
        if exists|r: int|
            0 <= r < rules.len() && (#[trigger] rules[r]).stem == name && rules[r].guard == guard
                && rules[r].items.contains(part + ".o"@) {
            let r = choose|r: int|
                0 <= r < rules.len() && (#[trigger] rules[r]).stem == name && rules[r].guard == guard
                    && rules[r].items.contains(part + ".o"@);
            if r < front.len() {
                assert(front[r].stem == name);
                let j = choose|j: int|
                    0 <= j < parts_of(front, name).len() && parts_of(front, name)[j] == (
                        part,
                        guard,
                    );
                assert(parts_of(rules, name)[j] == (part, guard));
            } else {
                let j = choose|j: int| 0 <= j < own.len() && own[j] == part;
                assert(more[j] == (part, guard));
                assert(parts_of(rules, name) == parts_of(front, name) + more);
                assert(parts_of(rules, name)[parts_of(front, name).len() + j] == (part, guard));
            }
        }
        if parts_of(rules, name).contains((part, guard)) {
            let j = choose|j: int|
                0 <= j < parts_of(rules, name).len() && parts_of(rules, name)[j] == (part, guard);
            if j < parts_of(front, name).len() {
                assert(parts_of(front, name)[j] == (part, guard));
                let r = choose|r: int|
                    0 <= r < front.len() && (#[trigger] front[r]).stem == name && front[r].guard
                        == guard && front[r].items.contains(part + ".o"@);
                assert(rules[r].stem == name);
            } else {
                assert(more[j - parts_of(front, name).len()] == (part, guard));
                assert(own[j - parts_of(front, name).len()] == part);
                assert(rules[rules.len() - 1].stem == name);
            }
        }
    }
}

/// An object that no rule says the parts of is compiled itself; one with parts is not, but each of
/// them is.
pub proof fn lemma_compiled_for(
    rules: Seq<RuleView>,
    name: Seq<char>,
    part: Seq<char>,
    guard: Option<Seq<char>>,
)
    ensures
        parts_of(rules, name).len() > 0 ==> (compiled_for(rules, name).contains((part, guard))
            <==> parts_of(rules, name).contains((part, guard))),
        parts_of(rules, name).len() == 0 ==> (compiled_for(rules, name).contains((part, guard))
            <==> part == name && guard is None),
        parts_of(rules, name).len() == 0 <==> forall|r: int, x: Seq<char>|
            0 <= r < rules.len() && (#[trigger] rules[r]).stem == name
                ==> !#[trigger] rules[r].items.contains(x + ".o"@),
{
    if parts_of(rules, name).len() == 0 {
        assert(compiled_for(rules, name) =~= seq![(name, None::<Seq<char>>)]);
        if part == name && guard is None {
            assert(compiled_for(rules, name)[0] == (part, guard));
        }
        assert forall|r: int, x: Seq<char>|
            0 <= r < rules.len() && (#[trigger] rules[r]).stem == name implies !#[trigger] rules[r].items.contains(
            x + ".o"@) by {
            lemma_parts_come_from_rules(rules, name, x, rules[r].guard);
            if rules[r].items.contains(x + ".o"@) {
                assert(parts_of(rules, name).contains((x, rules[r].guard)));
            }
        }
    } else {
        let (x, g) = parts_of(rules, name)[0];
        assert(parts_of(rules, name).contains((x, g)));
        lemma_parts_come_from_rules(rules, name, x, g);
        let r = choose|r: int|
            0 <= r < rules.len() && (#[trigger] rules[r]).stem == name && rules[r].guard == g
                && rules[r].items.contains(x + ".o"@);
        assert(rules[r].items.contains(x + ".o"@));
    }
}

// ── Files ─────────────────────────────────────────────────────────────────────

proof fn lemma_source_listed(
    dir: Seq<char>,
    c: Cond,
    parts: Seq<(Seq<char>, Option<Seq<char>>)>,
    q: int,
) -> (i: int)
    requires
        0 <= q < parts.len(),
        source_path(dir, parts[q].0) is Some,
    ensures
        0 <= i < sources(dir, c, parts).len(),
        sources(dir, c, parts)[i] == (source_path(dir, parts[q].0)->0, guarded(c, parts[q].1)),
    decreases parts.len(),
{
    if q == parts.len() - 1 {
        sources(dir, c, parts.drop_last()).len() as int
    } else {
        assert(parts.drop_last()[q] == parts[q]);
        lemma_source_listed(dir, c, parts.drop_last(), q)
    }
}

proof fn lemma_source_from(
    dir: Seq<char>,
    c: Cond,
    parts: Seq<(Seq<char>, Option<Seq<char>>)>,
    i: int,
) -> (q: int)
    requires
        0 <= i < sources(dir, c, parts).len(),
    ensures
        0 <= q < parts.len(),
        source_path(dir, parts[q].0) is Some,
        sources(dir, c, parts)[i] == (source_path(dir, parts[q].0)->0, guarded(c, parts[q].1)),
    decreases parts.len(),
{
    let front = sources(dir, c, parts.drop_last());
    if i < front.len() {
        let q = lemma_source_from(dir, c, parts.drop_last(), i);
        assert(parts.drop_last()[q] == parts[q]);
        q
    } else {
        parts.len() - 1
    }
}

proof fn lemma_target_listed(
    rules: Seq<RuleView>,
    dir: Seq<char>,
    c: Cond,
    names: Seq<Seq<char>>,
    q: int,
    j: int,
) -> (i: int)
    requires
        0 <= q < names.len(),
        0 <= j < target_files(rules, dir, c, names[q]).len(),
    ensures
        0 <= i < targets_files(rules, dir, c, names).len(),
        targets_files(rules, dir, c, names)[i] == target_files(rules, dir, c, names[q])[j],
    decreases names.len(),
{
    let front = targets_files(rules, dir, c, names.drop_last());
    if q == names.len() - 1 {
        front.len() + j
    } else {
        assert(names.drop_last()[q] == names[q]);
        lemma_target_listed(rules, dir, c, names.drop_last(), q, j)
    }
}

proof fn lemma_target_from(
    rules: Seq<RuleView>,
    dir: Seq<char>,
    c: Cond,
    names: Seq<Seq<char>>,
    i: int,
) -> (at: (int, int))
    requires
        0 <= i < targets_files(rules, dir, c, names).len(),
    ensures
        0 <= at.0 < names.len(),
        0 <= at.1 < target_files(rules, dir, c, names[at.0]).len(),
        targets_files(rules, dir, c, names)[i] == target_files(rules, dir, c, names[at.0])[at.1],
    decreases names.len(),
{
    let front = targets_files(rules, dir, c, names.drop_last());
    if i < front.len() {
        let at = lemma_target_from(rules, dir, c, names.drop_last(), i);
        assert(names.drop_last()[at.0] == names[at.0]);
        at
    } else {
        (names.len() - 1, i - front.len())
    }
}

/// Every object that any `obj` or `lib` rule names is compiled: the source file of each object that
/// is compiled for it is in the build, just where the directory is entered, the symbol that the rule
/// stands behind, if any, is enabled, and so is the symbol that the part stands behind, if any.
pub proof fn lemma_every_object_is_compiled(
    rules: Seq<RuleView>,
    dir: Seq<char>,
    c: Cond,
    k: nat,
    r: int,
    name: Seq<char>,
    part: Seq<char>,
    guard: Option<Seq<char>>,
) -> (i: int)
    requires
        0 <= r < k <= rules.len(),
        rules[r].stem == "obj"@ || rules[r].stem == "lib"@,
        rules[r].items.contains(name + ".o"@),
        compiled_for(rules, name).contains((part, guard)),
        source_path(dir, part) is Some,
    ensures
        0 <= i < built_files(rules, dir, c, k).len(),
        built_files(rules, dir, c, k)[i].0 == source_path(dir, part)->0,
        forall|on: Set<Seq<char>>| #[trigger]
            cond_holds(built_files(rules, dir, c, k)[i].1, on) <==> cond_holds(c, on)
                && guard_holds(rules[r].guard, on) && guard_holds(guard, on),
    decreases k,
{
    let front = built_files(rules, dir, c, (k - 1) as nat);
    if r == k - 1 {
        let here = guarded(c, rules[r].guard);
        let names = objects(rules[r].items);
        lemma_objects_end_in_o(rules[r].items, name);
        let q = choose|q: int| 0 <= q < names.len() && names[q] == name;
        let parts = compiled_for(rules, name);
        let p = choose|p: int| 0 <= p < parts.len() && parts[p] == (part, guard);
        let j = lemma_source_listed(dir, here, parts, p);
        let t = lemma_target_listed(rules, dir, here, names, q, j);
        lemma_guards_everywhere(c, rules[r].guard);
        lemma_guards_everywhere(here, guard);
        front.len() + t
    } else {
        lemma_every_object_is_compiled(rules, dir, c, (k - 1) as nat, r, name, part, guard)
    }
}

/// A file is in the build only as the source of an object that is compiled for one that an `obj` or
/// `lib` rule names, and only where the directory is entered and the symbols that the rule and the
/// part stand behind, if any, are enabled.
pub proof fn lemma_compiled_only_where_entered(
    rules: Seq<RuleView>,
    dir: Seq<char>,
    c: Cond,
    k: nat,
    i: int,
) -> (place: (int, Seq<char>, Seq<char>, Option<Seq<char>>))
    requires
        k <= rules.len(),
        0 <= i < built_files(rules, dir, c, k).len(),
    ensures
        0 <= place.0 < k,
        rules[place.0].stem == "obj"@ || rules[place.0].stem == "lib"@,
        rules[place.0].items.contains(place.1 + ".o"@),
        compiled_for(rules, place.1).contains((place.2, place.3)),
        source_path(dir, place.2) == Some(built_files(rules, dir, c, k)[i].0),
        forall|on: Set<Seq<char>>| #[trigger]
            cond_holds(built_files(rules, dir, c, k)[i].1, on) <==> cond_holds(c, on)
                && guard_holds(rules[place.0].guard, on) && guard_holds(place.3, on),
    decreases k,
{
    let front = built_files(rules, dir, c, (k - 1) as nat);
    if i < front.len() {
        lemma_compiled_only_where_entered(rules, dir, c, (k - 1) as nat, i)
    } else {
        let r = rules[k - 1];
        let here = guarded(c, r.guard);
        let names = objects(r.items);
        let at = lemma_target_from(rules, dir, here, names, i - front.len());
        let name = names[at.0];
        assert(names.contains(name));
        lemma_objects_end_in_o(r.items, name);
        let parts = compiled_for(rules, name);
        let p = lemma_source_from(dir, here, parts, at.1);
        assert(parts.contains(parts[p]));
        lemma_guards_everywhere(c, r.guard);
        lemma_guards_everywhere(here, parts[p].1);
        (k - 1, name, parts[p].0, parts[p].1)
    }
}

// ── The tree ──────────────────────────────────────────────────────────────────

/// A name is in the build where any of the places that put it there says so, and nowhere else.
pub proof fn lemma_places_are_alternatives(
    files: Map<Seq<char>, Cond>,
    more: Seq<(Seq<char>, Cond)>,
    name: Seq<char>,
    on: Set<Seq<char>>,
)
    ensures
        with_files(files, more).contains_key(name) <==> files.contains_key(name) || exists|i: int|
            0 <= i < more.len() && (#[trigger] more[i]).0 == name,
        with_files(files, more).contains_key(name) ==> (cond_holds(
            with_files(files, more)[name],
            on,
        ) <==> (files.contains_key(name) && cond_holds(files[name], on)) || exists|i: int|
            0 <= i < more.len() && (#[trigger] more[i]).0 == name && cond_holds(more[i].1, on)),
    decreases more.len(),
{
    if more.len() > 0 {
        let front = more.drop_last();
        let before = with_files(files, front);
        let last = more.last();
        lemma_places_are_alternatives(files, front, name, on);
        assert(more[more.len() - 1] == last);
        assert forall|i: int| 0 <= i < front.len() implies front[i] == more[i] by {
        }
        assert((exists|i: int| 0 <= i < more.len() && (#[trigger] more[i]).0 == name) <==> (exists|
            i: int,
        | 0 <= i < front.len() && (#[trigger] front[i]).0 == name) || last.0 == name) by {
            if exists|i: int| 0 <= i < more.len() && (#[trigger] more[i]).0 == name {
                let i = choose|i: int| 0 <= i < more.len() && (#[trigger] more[i]).0 == name;
                if i < front.len() {
                    assert(front[i].0 == name);
                }
            }
            if exists|i: int| 0 <= i < front.len() && (#[trigger] front[i]).0 == name {
                let i = choose|i: int| 0 <= i < front.len() && (#[trigger] front[i]).0 == name;
                assert(more[i].0 == name);
            }
        }
        assert((exists|i: int|
            0 <= i < more.len() && (#[trigger] more[i]).0 == name && cond_holds(more[i].1, on))
            <==> (exists|i: int|
            0 <= i < front.len() && (#[trigger] front[i]).0 == name && cond_holds(front[i].1, on))
            || (last.0 == name && cond_holds(last.1, on))) by {
            if exists|i: int|
                0 <= i < more.len() && (#[trigger] more[i]).0 == name && cond_holds(more[i].1, on) {
                let i = choose|i: int|
                    0 <= i < more.len() && (#[trigger] more[i]).0 == name && cond_holds(
                        more[i].1,
                        on,
                    );
                if i < front.len() {
                    assert(front[i].0 == name);
                }
            }
            if exists|i: int|
                0 <= i < front.len() && (#[trigger] front[i]).0 == name && cond_holds(
                    front[i].1,
                    on,
                ) {
                let i = choose|i: int|
                    0 <= i < front.len() && (#[trigger] front[i]).0 == name && cond_holds(
                        front[i].1,
                        on,
                    );
                assert(more[i].0 == name);
            }
        }
        assert(with_files(files, more) == with_file(before, last.0, last.1));
        if last.0 == name && before.contains_key(name) {
            lemma_truth_of_parts(before[name], last.1, seq![], on);
        }
    }
}

/// A Makefile puts nothing into the build where its directory is not entered: a file or directory
/// that is in the build after it, where `c` does not hold, was so before.
pub proof fn lemma_nothing_below_unentered(
    files: Map<Seq<char>, Cond>,
    pending: Map<Seq<char>, Cond>,
    rules: Seq<RuleView>,
    dir: Seq<char>,
    c: Cond,
    name: Seq<char>,
    on: Set<Seq<char>>,
)
    requires
        !cond_holds(c, on),
    ensures
        ({
            let after = with_files(files, built_files(rules, dir, c, rules.len()));
            after.contains_key(name) && cond_holds(after[name], on) ==> files.contains_key(name)
                && cond_holds(files[name], on)
        }),
        ({
            let after = with_files(pending, built_directories(rules, dir, c, rules.len()));
            after.contains_key(name) && cond_holds(after[name], on) ==> pending.contains_key(name)
                && cond_holds(pending[name], on)
        }),
{
    let more = built_files(rules, dir, c, rules.len());
    lemma_places_are_alternatives(files, more, name, on);
    if exists|i: int|
        0 <= i < more.len() && (#[trigger] more[i]).0 == name && cond_holds(more[i].1, on) {
        let i = choose|i: int|
            0 <= i < more.len() && (#[trigger] more[i]).0 == name && cond_holds(more[i].1, on);
        let _ = lemma_compiled_only_where_entered(rules, dir, c, rules.len(), i);
    }
    let dirs = built_directories(rules, dir, c, rules.len());
    lemma_places_are_alternatives(pending, dirs, name, on);
    if exists|i: int|
        0 <= i < dirs.len() && (#[trigger] dirs[i]).0 == name && cond_holds(dirs[i].1, on) {
        let i = choose|i: int|
            0 <= i < dirs.len() && (#[trigger] dirs[i]).0 == name && cond_holds(dirs[i].1, on);
        let _ = lemma_directory_only_where_entered(rules, dir, c, rules.len(), i);
    }
}

/// A directory that a rule names is entered wherever the directory with the Makefile is, and the
/// symbol of the rule, if any, is enabled; and what was in the build stays in it.
pub proof fn lemma_directory_is_entered(
    pending: Map<Seq<char>, Cond>,
    rules: Seq<RuleView>,
    dir: Seq<char>,
    c: Cond,
    r: int,
    q: int,
    on: Set<Seq<char>>,
)
    requires
        0 <= r < rules.len(),
        0 <= q < rules[r].items.len(),
        leads_down(rules[r].items[q]),
        cond_holds(c, on),
        guard_holds(rules[r].guard, on),
    ensures
        ({
            let after = with_files(pending, built_directories(rules, dir, c, rules.len()));
            after.contains_key(dir + rules[r].items[q]) && cond_holds(
                after[dir + rules[r].items[q]],
                on,
            )
        }),
{
    let name = dir + rules[r].items[q];
    let dirs = built_directories(rules, dir, c, rules.len());
    lemma_places_are_alternatives(pending, dirs, name, on);
    let i = lemma_every_directory_is_built(rules, dir, c, rules.len(), r, q);
    assert(dirs[i].0 == name && cond_holds(dirs[i].1, on));
}

/// The source of an object that is compiled for one that an `obj` or `lib` rule names is compiled
/// wherever the directory is entered and the symbols that the rule and the part stand behind, if any,
/// are enabled.
pub proof fn lemma_file_is_compiled(
    files: Map<Seq<char>, Cond>,
    rules: Seq<RuleView>,
    dir: Seq<char>,
    c: Cond,
    r: int,
    name: Seq<char>,
    part: Seq<char>,
    guard: Option<Seq<char>>,
    on: Set<Seq<char>>,
)
    requires
        0 <= r < rules.len(),
        rules[r].stem == "obj"@ || rules[r].stem == "lib"@,
        rules[r].items.contains(name + ".o"@),
        compiled_for(rules, name).contains((part, guard)),
        source_path(dir, part) is Some,
        cond_holds(c, on),
        guard_holds(rules[r].guard, on),
        guard_holds(guard, on),
    ensures
        ({
            let after = with_files(files, built_files(rules, dir, c, rules.len()));
            let path = source_path(dir, part)->0;
            after.contains_key(path) && cond_holds(after[path], on)
        }),
{
    let path = source_path(dir, part)->0;
    let more = built_files(rules, dir, c, rules.len());
    lemma_places_are_alternatives(files, more, path, on);
    let i = lemma_every_object_is_compiled(rules, dir, c, rules.len(), r, name, part, guard);
    assert(more[i].0 == path && cond_holds(more[i].1, on));
}

// ── Modules ───────────────────────────────────────────────────────────────────

/// A module bears the name of its object, with underscores for dashes, and without the directories
/// in front of it.
pub proof fn lemma_kernel_names(name: Seq<char>)
    ensures
        kernel_name(name).len() == pieces(name, '/').last().len(),
        forall|i: int|
            0 <= i < kernel_name(name).len() ==> #[trigger] kernel_name(name)[i] == (if pieces(
                name,
                '/',
            ).last()[i] == '-' {
                '_'
            } else {
                pieces(name, '/').last()[i]
            }),
{
}

/// Every object that an `obj` rule with a symbol names is a module, built by that symbol; its files
/// are the sources of the objects that are compiled for it, whatever symbols those stand behind.
pub proof fn lemma_every_guarded_object_is_a_module(
    rules: Seq<RuleView>,
    dir: Seq<char>,
    k: nat,
    r: int,
    name: Seq<char>,
    path: Seq<char>,
) -> (i: int)
    requires
        0 <= r < k <= rules.len(),
        rules[r].stem == "obj"@,
        rules[r].guard is Some,
        rules[r].items.contains(name + ".o"@),
    ensures
        0 <= i < built_modules(rules, dir, k).len(),
        built_modules(rules, dir, k)[i].name == kernel_name(name),
        built_modules(rules, dir, k)[i].config == rules[r].guard->0,
        built_modules(rules, dir, k)[i].files.contains(path) <==> exists|
            part: Seq<char>,
            guard: Option<Seq<char>>,
        | #[trigger]
            compiled_for(rules, name).contains((part, guard)) && source_path(dir, part) == Some(
                path,
            ),
    decreases k,
{
    let front = built_modules(rules, dir, (k - 1) as nat);
    if r == k - 1 {
        let names = objects(rules[r].items);
        lemma_objects_end_in_o(rules[r].items, name);
        let q = choose|q: int| 0 <= q < names.len() && names[q] == name;
        lemma_module_files(rules, dir, rules[r].guard->0, name, path);
        front.len() + q
    } else {
        lemma_every_guarded_object_is_a_module(rules, dir, (k - 1) as nat, r, name, path)
    }
}

proof fn lemma_module_files(
    rules: Seq<RuleView>,
    dir: Seq<char>,
    config: Seq<char>,
    name: Seq<char>,
    path: Seq<char>,
)
    ensures
        module_of(rules, dir, config, name).files.contains(path) <==> exists|
            part: Seq<char>,
            guard: Option<Seq<char>>,
        | #[trigger]
            compiled_for(rules, name).contains((part, guard)) && source_path(dir, part) == Some(
                path,
            ),
{
    let parts = compiled_for(rules, name);
    let pairs = target_files(rules, dir, Cond::Always, name);
    let files = module_of(rules, dir, config, name).files;
    if files.contains(path) {
        let j = choose|j: int| 0 <= j < files.len() && files[j] == path;
        let p = lemma_source_from(dir, Cond::Always, parts, j);
        assert(parts.contains((parts[p].0, parts[p].1)));
    }
    if exists|part: Seq<char>, guard: Option<Seq<char>>| #[trigger]
        parts.contains((part, guard)) && source_path(dir, part) == Some(path) {
        let (part, guard) = choose|part: Seq<char>, guard: Option<Seq<char>>| #[trigger]
            parts.contains((part, guard)) && source_path(dir, part) == Some(path);
        let p = choose|p: int| 0 <= p < parts.len() && parts[p] == (part, guard);
        let j = lemma_source_listed(dir, Cond::Always, parts, p);
        assert(pairs[j].0 == path);
        assert(files[j] == path);
    }
}

/// A module comes only from an object that an `obj` rule with a symbol names.
pub proof fn lemma_modules_come_from_rules(
    rules: Seq<RuleView>,
    dir: Seq<char>,
    k: nat,
    i: int,
) -> (place: (int, Seq<char>))
    requires
        k <= rules.len(),
        0 <= i < built_modules(rules, dir, k).len(),
    ensures
        0 <= place.0 < k,
        rules[place.0].stem == "obj"@,
        rules[place.0].guard == Some(built_modules(rules, dir, k)[i].config),
        rules[place.0].items.contains(place.1 + ".o"@),
        built_modules(rules, dir, k)[i].name == kernel_name(place.1),
    decreases k,
{
    let front = built_modules(rules, dir, (k - 1) as nat);
    if i < front.len() {
        lemma_modules_come_from_rules(rules, dir, (k - 1) as nat, i)
    } else {
        let names = objects(rules[k - 1].items);
        let name = names[i - front.len()];
        assert(names.contains(name));
        lemma_objects_end_in_o(rules[k - 1].items, name);
        (k - 1, name)
    }
}

/// Modules are known by their names: the one that comes last under a name counts, and those with
/// other names stay.
pub proof fn lemma_modules_by_name(
    modules: Map<Seq<char>, ModuleView>,
    more: Seq<ModuleView>,
    n: Seq<char>,
)
    ensures
        forall|i: int|
            0 <= i < more.len() && (#[trigger] more[i]).name == n && (forall|j: int|
                i < j < more.len() ==> (#[trigger] more[j]).name != n) ==> with_modules(
                modules,
                more,
            ).contains_key(n) && with_modules(modules, more)[n] == more[i],
        (forall|i: int| 0 <= i < more.len() ==> (#[trigger] more[i]).name != n) ==> (with_modules(
            modules,
            more,
        ).contains_key(n) <==> modules.contains_key(n)) && (modules.contains_key(n)
            ==> with_modules(modules, more)[n] == modules[n]),
    decreases more.len(),
{
    if more.len() > 0 {
        let front = more.drop_last();
        let last = more.last();
        lemma_modules_by_name(modules, front, n);
        assert(more[more.len() - 1] == last);
        assert forall|i: int|
            0 <= i < more.len() && (#[trigger] more[i]).name == n && (forall|j: int|
                i < j < more.len() ==> (#[trigger] more[j]).name != n) implies with_modules(
            modules,
            more,
        ).contains_key(n) && with_modules(modules, more)[n] == more[i] by {
            if i < more.len() - 1 {
                assert(more[more.len() - 1].name != n);
                assert(front[i].name == n);
                assert forall|j: int| i < j < front.len() implies (#[trigger] front[j]).name != n by {
                    assert(more[j].name != n);
                }
            }
        }
        if forall|i: int| 0 <= i < more.len() ==> (#[trigger] more[i]).name != n {
            assert forall|i: int| 0 <= i < front.len() implies (#[trigger] front[i]).name != n by {
                assert(more[i].name != n);
            }
            assert(more[more.len() - 1].name != n);
        }
    }
}

// ── Lines ─────────────────────────────────────────────────────────────────────

/// Whether `s` can stand in the name that a rule assigns to: it is one word, and has none of the
/// signs that end such a name.
pub open spec fn is_name_part(s: Seq<char>) -> bool {
    &&& is_solid(s)
    &&& is_free_of(s, '$')
    &&& is_free_of(s, '#')
    &&& is_free_of(s, '=')
    &&& is_free_of(s, '+')
    &&& is_free_of(s, ':')
}

/// What an assignment to `name` says, where `sign` is `+` or `:`.
proof fn lemma_assignment(name: Seq<char>, sign: char, items: Seq<char>)
    requires
        is_solid(name),
        is_free_of(name, '#'),
        is_free_of(name, '='),
        name[0] != '+',
        name[0] != ':',
        sign == '+' || sign == ':',
        is_free_of(items, '#'),
    ensures
        rule_of(name + seq![' ', sign, '=', ' '] + items) == match stem_and_guard(name) {
            Some((stem, guard)) => Some(RuleView { stem, guard, items: words(items) }),
            None => None,
        },
{
    let line = name + seq![' ', sign, '=', ' '] + items;
    let left = name + seq![' ', sign];
    let right = seq![' '] + items;
    assert(is_free_of(line, '#')) by {
        assert forall|i: int| 0 <= i < line.len() implies #[trigger] line[i] != '#' by {
            if i < name.len() {
                assert(name[i] != '#');
            } else if i >= name.len() + 4 {
                assert(items[i - name.len() - 4] != '#');
            }
        }
    }
    lemma_cut_at_first(line, '#', seq![]);
    assert(is_free_of(left, '=')) by {
        assert forall|i: int| 0 <= i < left.len() implies #[trigger] left[i] != '=' by {
            if i < name.len() {
                assert(name[i] != '=');
            }
        }
    }
    assert(line =~= left + seq!['='] + right);
    lemma_cut_at_first(left, '=', right);
    assert(!is_space(name[0]) && !is_space(name[name.len() - 1]));
    assert(is_trim(left));
    lemma_trim_idle(left);
    let spaced = name + seq![' '];
    assert(left =~= spaced + seq![sign]);
    assert(spaced[0] == name[0] && spaced.last() == ' ');
    lemma_stripped(spaced, sign);
    if sign == '+' {
        assert(without_trailing(left, '+') == spaced);
        assert(without_trailing(spaced, ':') == spaced);
    } else {
        assert(without_trailing(left, '+') == left);
        assert(without_trailing(left, ':') == spaced);
    }
    assert(is_trim(name));
    assert(all_space(seq![' '])) by {
        assert forall|i: int| 0 <= i < seq![' '].len() implies is_space(#[trigger] seq![' '][i]) by {
        }
    }
    assert(spaced =~= Seq::<char>::empty() + name + seq![' ']);
    lemma_trim(Seq::empty(), name, seq![' ']);
    assert(right.drop_first() =~= items);
    assert(words(right) == words(items));
}

/// A rule behind a symbol gives back its stem, its symbol and its items.
pub proof fn lemma_guarded_rule_reads_back(
    stem: Seq<char>,
    symbol: Seq<char>,
    sign: char,
    items: Seq<char>,
)
    requires
        is_name_part(stem),
        is_name_part(symbol),
        sign == '+' || sign == ':',
        is_free_of(items, '#'),
    ensures
        rule_of(stem + "-$(CONFIG_"@ + symbol + ")"@ + seq![' ', sign, '=', ' '] + items) == Some(
            RuleView { stem, guard: Some(symbol), items: words(items) },
        ),
{
    reveal_strlit("-$(CONFIG_");
    reveal_strlit(")");
    let mark = "-$(CONFIG_"@;
    let name = stem + mark + symbol + ")"@;
    let n = stem.len() as int;
    let m = mark.len() as int;
    assert forall|i: int| 0 <= i < name.len() implies !is_space(#[trigger] name[i]) && name[i] != '#'
        && name[i] != '=' by {
        if i < n {
            assert(!is_space(stem[i]) && stem[i] != '#' && stem[i] != '=');
        } else if i < n + m {
            assert(name[i] == mark[i - n]);
        } else if i < n + m + symbol.len() {
            assert(name[i] == symbol[i - n - m]);
        } else {
            assert(name[i] == ')');
        }
    }
    assert(stem[0] != '+' && stem[0] != ':' && name[0] == stem[0]);
    lemma_assignment(name, sign, items);
    assert(stands_at(name, mark, n)) by {
        assert(name.subrange(n, n + m) =~= mark);
    }
    assert forall|i: int| 0 <= i < n implies !stands_at(name, mark, i) by {
        if stands_at(name, mark, i) {
            assert(name.subrange(i, i + m)[1] == '$');
            assert(name[i + 1] == '$');
            if i + 1 < n {
                assert(stem[i + 1] != '$');
            } else {
                assert(name[n] == mark[0]);
            }
        }
    }
    lemma_before_part(name, mark, n);
    assert(name.take(n) =~= stem);
    assert(")"@.is_suffix_of(name)) by {
        assert(name.subrange(name.len() - 1, name.len() as int) =~= ")"@);
    }
    assert(name.subrange(n + m, name.len() - 1) =~= symbol);
    assert(stem_and_guard(name) == Some((stem, Some(symbol))));
}

/// A rule without a symbol gives back its stem and its items.
pub proof fn lemma_plain_rule_reads_back(
    stem: Seq<char>,
    ending: Seq<char>,
    sign: char,
    items: Seq<char>,
)
    requires
        is_name_part(stem),
        ending == "-y"@ || ending == "-m"@ || ending == "-objs"@,
        sign == '+' || sign == ':',
        is_free_of(items, '#'),
    ensures
        rule_of(stem + ending + seq![' ', sign, '=', ' '] + items) == Some(
            RuleView { stem, guard: None, items: words(items) },
        ),
{
    reveal_strlit("-$(CONFIG_");
    reveal_strlit("-y");
    reveal_strlit("-m");
    reveal_strlit("-objs");
    let mark = "-$(CONFIG_"@;
    let name = stem + ending;
    assert forall|i: int| 0 <= i < name.len() implies !is_space(#[trigger] name[i]) && name[i] != '#'
        && name[i] != '=' && name[i] != '$' by {
        if i < stem.len() {
            assert(!is_space(stem[i]) && stem[i] != '#' && stem[i] != '=' && stem[i] != '$');
        } else {
            assert(name[i] == ending[i - stem.len()]);
        }
    }
    assert(stem[0] != '+' && stem[0] != ':' && name[0] == stem[0]);
    lemma_assignment(name, sign, items);
    assert(!has_part(name, mark)) by {
        if has_part(name, mark) {
            let at = choose|at: int| stands_at(name, mark, at);
            assert(name.subrange(at, at + mark.len())[1] == '$');
            assert(name[at + 1] == '$');
        }
    }
    lemma_affixes(seq![], stem, ending);
    let last = name[name.len() - 1];
    assert(last == ending.last());
    assert("-y"@.last() == 'y' && "-m"@.last() == 'm' && "-objs"@.last() == 's');
    if "-y"@.is_suffix_of(name) {
        assert(name.subrange(name.len() - 2, name.len() as int)[1] == last);
        assert(last == 'y');
    }
    if "-m"@.is_suffix_of(name) {
        assert(name.subrange(name.len() - 2, name.len() as int)[1] == last);
        assert(last == 'm');
    }
}

/// Every line of a Makefile is read, in its order.
pub proof fn lemma_rules_add_up(a: Seq<Seq<char>>, b: Seq<Seq<char>>, line: Seq<char>)
    ensures
        rules_of(a + b) == rules_of(a) + rules_of(b),
        rule_of(line) is Some ==> rules_of(seq![line]) == seq![rule_of(line)->0],
        rule_of(line) is None ==> rules_of(seq![line]) == Seq::<RuleView>::empty(),
    decreases b.len(),
{
    assert(seq![line].drop_last() =~= Seq::<Seq<char>>::empty());
    assert(rules_of(seq![line].drop_last()) =~= seq![]);
    assert(seq![line].last() == line);
    if rule_of(line) is Some {
        assert(rules_of(seq![line]) =~= seq![rule_of(line)->0]);
    }
    if b.len() == 0 {
        assert(a + b =~= a);
        assert(rules_of(a) + rules_of(b) =~= rules_of(a));
    } else {
        assert((a + b).drop_last() =~= a + b.drop_last());
        lemma_rules_add_up(a, b.drop_last(), line);
        assert(rules_of(a + b) =~= rules_of(a) + rules_of(b));
    }
}

/// A comment says nothing.
pub proof fn lemma_comments_are_idle(line: Seq<char>, comment: Seq<char>)
    requires
        is_free_of(line, '#'),
    ensures
        rule_of(line + seq!['#'] + comment) == rule_of(line),
{
    lemma_cut_at_first(line, '#', comment);
}

/// A directory is entered only if its name ends in a slash, begins with none, and has no step that
/// stays or leads up.
pub proof fn lemma_directories_lead_down(item: Seq<char>, i: int)
    requires
        leads_down(item),
    ensures
        item.len() > 0,
        item.last() == '/',
        item[0] != '/',
        0 <= i < pieces(item, '/').len() ==> pieces(item, '/')[i] != "."@ && pieces(item, '/')[i]
            != ".."@,
{
    reveal_strlit("/");
    reveal_strlit("");
    let steps = pieces(item, '/');
    assert("/"@.is_suffix_of(item));
    assert(item.subrange(item.len() - 1, item.len() as int)[0] == item.last());
    if item[0] == '/' {
        assert(crate::split::until_char(item, '/') == 0);
        assert(steps[0] =~= ""@);
    }
    if 0 <= i < steps.len() {
        assert(steps.contains(steps[i]));
    }
}

/// An assignment with a bare equals sign says what one with a plus or a colon in front of it says.
pub proof fn lemma_signs_of_assignments(name: Seq<char>, sign: char, items: Seq<char>)
    requires
        is_solid(name),
        is_free_of(name, '#'),
        is_free_of(name, '='),
        name[0] != '+' && name.last() != '+',
        name[0] != ':' && name.last() != ':',
        sign == '+' || sign == ':',
        is_free_of(items, '#'),
    ensures
        rule_of(name + seq![' ', '=', ' '] + items) == rule_of(
            name + seq![' ', sign, '=', ' '] + items,
        ),
{
    lemma_assignment(name, sign, items);
    let line = name + seq![' ', '=', ' '] + items;
    let left = name + seq![' '];
    let right = seq![' '] + items;
    assert(is_free_of(line, '#')) by {
        assert forall|i: int| 0 <= i < line.len() implies #[trigger] line[i] != '#' by {
            if i < name.len() {
                assert(name[i] != '#');
            } else if i >= name.len() + 3 {
                assert(items[i - name.len() - 3] != '#');
            }
        }
    }
    lemma_cut_at_first(line, '#', seq![]);
    assert(is_free_of(left, '=')) by {
        assert forall|i: int| 0 <= i < left.len() implies #[trigger] left[i] != '=' by {
            if i < name.len() {
                assert(name[i] != '=');
            }
        }
    }
    assert(line =~= left + seq!['='] + right);
    lemma_cut_at_first(left, '=', right);
    assert(!is_space(name[0]) && !is_space(name[name.len() - 1]));
    assert(is_trim(name));
    assert(all_space(seq![' '])) by {
        assert forall|i: int| 0 <= i < seq![' '].len() implies is_space(#[trigger] seq![' '][i]) by {
        }
    }
    assert(left =~= Seq::<char>::empty() + name + seq![' ']);
    lemma_trim(Seq::empty(), name, seq![' ']);
    lemma_stripped(name, '+');
    lemma_stripped(name, ':');
    lemma_trim_idle(name);
    assert(right.drop_first() =~= items);
    assert(words(right) == words(items));
}

} // verus!
