//! The report on how one module can be kept out of the build.
use crate::kbuild::maps::{KernelModule, ModuleView};
use crate::kconfig::expr::value_texts;
use crate::kconfig::graph::{is_conflict, KconfigGraph};
use crate::kminimize::report::{
    add_line, add_lines, comma_list, join_comma, no_lines, plural, plural_end, wrap_each, wrapped,
};
use crate::kminimize::variants::DisableVariant;
use crate::names::{NameMap, NameSet};
use crate::number::{decimal, to_decimal};
use crate::paths::lists::{drop_repeated, path_list, path_sorted, sort_paths, unrepeated};
use crate::text::texts;
use vstd::prelude::*;

verus! {

/// How many files are listed where not all are asked for.
pub const TRUNCATE: usize = 10;

/// How many variants are shown.
pub const SHOWN: usize = 5;

/// How many known modules are listed where one is unknown.
pub const KNOWN: usize = 20;

/// The first `n` names, or all where there are fewer.
pub open spec fn first_names(names: Seq<Seq<char>>, n: nat) -> Seq<Seq<char>> {
    if names.len() <= n {
        names
    } else {
        names.take(n as int)
    }
}

/// An owned copy of the first `n` names.
pub fn take_names(names: &Vec<String>, n: usize) -> (first: Vec<String>)
    ensures
        texts(first@) == first_names(texts(names@), n as nat),
{
    let ghost all = texts(names@);
    let mut first: Vec<String> = Vec::new();
    let mut i: usize = 0;
    assert(texts(first@) =~= all.take(0));
    while i < names.len() && i < n
        invariant
            i <= names@.len(),
            i <= n,
            all == texts(names@),
            texts(first@) == all.take(i as int),
        decreases names@.len() - i,
    {
        let ghost before = texts(first@);
        first.push(names[i].clone());
        assert(texts(first@) =~= before.push(all[i as int]));
        assert(all.take(i + 1) =~= before.push(all[i as int]));
        i += 1;
    }
    assert(texts(first@) =~= first_names(all, n as nat));
    first
}

// ── One variant ───────────────────────────────────────────────────────────────

/// The headline of a variant.
pub open spec fn variant_head(rank: nat, files: nat, cascade: nat) -> Seq<char> {
    "Variant "@ + decimal(rank + 1) + (if rank == 0 {
        " ★ best"@
    } else {
        ""@
    }) + "  ["@ + decimal(files) + " collateral file"@ + plural(files) + ", "@ + decimal(cascade)
        + " cascade config"@ + plural(cascade) + "]"@
}

/// The lines on the files that a variant takes along.
pub open spec fn files_lines(files: Seq<Seq<char>>, verbose: bool) -> Seq<Seq<char>> {
    if files.len() == 0 {
        seq!["  Collateral files   : none"@]
    } else if verbose || files.len() <= TRUNCATE {
        seq!["  Collateral files:"@] + wrapped("    "@, files, ""@)
    } else {
        seq!["  Collateral files:"@] + wrapped("    "@, files.take(TRUNCATE as int), ""@) + seq![
            "    ... ("@ + decimal((files.len() - TRUNCATE) as nat)
                + " more, use --verbose to list all)"@,
        ]
    }
}

/// The line on a symbol that selects the changed one without a condition.
pub open spec fn unconditional_line(name: Seq<char>, change: Seq<char>) -> Seq<char> {
    "    CONFIG_"@ + name + "=n  (unconditional: "@ + name + " selects "@ + change + ")"@
}

/// The line on a symbol that selects the changed one under a condition that holds.
pub open spec fn active_line(name: Seq<char>, change: Seq<char>) -> Seq<char> {
    "    CONFIG_"@ + name + "=n  (active select: "@ + name + " selects "@ + change
        + " if <cond>, currently true)"@
}

/// The lines on the symbols that a variant takes along.
pub open spec fn cascade_lines(
    unconditional: Seq<Seq<char>>,
    active: Seq<Seq<char>>,
    change: Seq<char>,
) -> Seq<Seq<char>> {
    if unconditional.len() + active.len() == 0 {
        seq!["  Cascade configs    : none"@]
    } else {
        seq![
            "  Cascade configs (must also disable — would re-enable CONFIG_"@ + change
                + " via `select`):"@,
        ] + Seq::new(
            unconditional.len(),
            |i: int| unconditional_line(unconditional[i], change),
        ) + Seq::new(active.len(), |i: int| active_line(active[i], change))
    }
}

/// The lines on the modules that a variant takes along.
pub open spec fn modules_lines(modules: Seq<Seq<char>>) -> Seq<Seq<char>> {
    if modules.len() == 0 {
        seq![]
    } else {
        seq![
            "  ⚠ Collateral modules (will also be disabled — depends-on chain): "@
                + decimal(modules.len()),
        ] + wrapped("    "@, modules, ""@)
    }
}

/// The lines on a variant.
pub open spec fn variant_lines(rank: nat, v: DisableVariant, verbose: bool) -> Seq<Seq<char>> {
    seq![
        variant_head(rank, v.side_effect_files.names().len(), v.cascade_count()),
        "  CONFIG_"@ + v.change.0@ + "=n"@,
    ] + files_lines(path_sorted(v.side_effect_files.names()), verbose) + cascade_lines(
        v.cascade_unconditional.names(),
        v.cascade_active.names(),
        v.change.0@,
    ) + modules_lines(texts(v.collateral_modules@)) + seq![""@]
}

fn write_head(rank: usize, files: u128, cascade: u128) -> (line: String)
    ensures
        line@ == variant_head(rank as nat, files as nat, cascade as nat),
{
    let mut line = "Variant ".to_owned();
    line.append(to_decimal(rank as u128 + 1).as_str());
    line.append(
        if rank == 0 {
            " ★ best"
        } else {
            ""
        },
    );
    line.append("  [");
    line.append(to_decimal(files).as_str());
    line.append(" collateral file");
    line.append(plural_end(files));
    line.append(", ");
    line.append(to_decimal(cascade).as_str());
    line.append(" cascade config");
    line.append(plural_end(cascade));
    line.append("]");
    line
}

fn write_files(files: &Vec<String>, verbose: bool) -> (lines: Vec<String>)
    ensures
        texts(lines@) == files_lines(texts(files@), verbose),
{
    let ghost all = texts(files@);
    let mut lines = no_lines();
    if files.len() == 0 {
        add_line(&mut lines, "  Collateral files   : none".to_owned());
    } else {
        add_line(&mut lines, "  Collateral files:".to_owned());
        if verbose || files.len() <= TRUNCATE {
            add_lines(&mut lines, wrap_each("    ", files, ""));
        } else {
            let first = take_names(files, TRUNCATE);
            add_lines(&mut lines, wrap_each("    ", &first, ""));
            let mut more = "    ... (".to_owned();
            more.append(to_decimal((files.len() - TRUNCATE) as u128).as_str());
            more.append(" more, use --verbose to list all)");
            add_line(&mut lines, more);
        }
    }
    assert(texts(lines@) =~= files_lines(all, verbose));
    lines
}

fn write_unconditional(names: &Vec<String>, change: &str) -> (lines: Vec<String>)
    ensures
        texts(lines@) == Seq::new(
            names@.len(),
            |i: int| unconditional_line(texts(names@)[i], change@),
        ),
{
    let mut lines: Vec<String> = Vec::new();
    for i in 0..names.len()
        invariant
            lines@.len() == i,
            forall|k: int|
                0 <= k < i ==> (#[trigger] lines@[k])@ == unconditional_line(names@[k]@, change@),
    {
        let mut line = "    CONFIG_".to_owned();
        line.append(names[i].as_str());
        line.append("=n  (unconditional: ");
        line.append(names[i].as_str());
        line.append(" selects ");
        line.append(change);
        line.append(")");
        lines.push(line);
    }
    assert(texts(lines@) =~= Seq::new(
        names@.len(),
        |i: int| unconditional_line(texts(names@)[i], change@),
    ));
    lines
}

fn write_active(names: &Vec<String>, change: &str) -> (lines: Vec<String>)
    ensures
        texts(lines@) == Seq::new(names@.len(), |i: int| active_line(texts(names@)[i], change@)),
{
    let mut lines: Vec<String> = Vec::new();
    for i in 0..names.len()
        invariant
            lines@.len() == i,
            forall|k: int|
                0 <= k < i ==> (#[trigger] lines@[k])@ == active_line(names@[k]@, change@),
    {
        let mut line = "    CONFIG_".to_owned();
        line.append(names[i].as_str());
        line.append("=n  (active select: ");
        line.append(names[i].as_str());
        line.append(" selects ");
        line.append(change);
        line.append(" if <cond>, currently true)");
        lines.push(line);
    }
    assert(texts(lines@) =~= Seq::new(names@.len(), |i: int| active_line(texts(names@)[i], change@)));
    lines
}

fn write_cascade(v: &DisableVariant) -> (lines: Vec<String>)
    ensures
        texts(lines@) == cascade_lines(
            v.cascade_unconditional.names(),
            v.cascade_active.names(),
            v.change.0@,
        ),
{
    let unconditional = v.cascade_unconditional.to_vec();
    let active = v.cascade_active.to_vec();
    let change = v.change.0.as_str();
    let ghost u = texts(unconditional@);
    let ghost a = texts(active@);
    let mut lines = no_lines();
    if unconditional.len() == 0 && active.len() == 0 {
        add_line(&mut lines, "  Cascade configs    : none".to_owned());
    } else {
        let mut head =
            "  Cascade configs (must also disable — would re-enable CONFIG_".to_owned();
        head.append(change);
        head.append(" via `select`):");
        add_line(&mut lines, head);
        add_lines(&mut lines, write_unconditional(&unconditional, change));
        add_lines(&mut lines, write_active(&active, change));
    }
    assert(texts(lines@) =~= cascade_lines(u, a, change@));
    lines
}

fn write_modules(modules: &Vec<String>) -> (lines: Vec<String>)
    ensures
        texts(lines@) == modules_lines(texts(modules@)),
{
    let mut lines = no_lines();
    if modules.len() > 0 {
        let mut head =
            "  ⚠ Collateral modules (will also be disabled — depends-on chain): ".to_owned();
        head.append(to_decimal(modules.len() as u128).as_str());
        add_line(&mut lines, head);
        add_lines(&mut lines, wrap_each("    ", modules, ""));
    }
    assert(texts(lines@) =~= modules_lines(texts(modules@)));
    lines
}

/// Writes the lines on a variant.
pub fn print_variant(rank: usize, v: &DisableVariant, verbose: bool) -> (lines: Vec<String>)
    ensures
        texts(lines@) == variant_lines(rank as nat, *v, verbose),
{
    let mut lines = no_lines();
    add_line(
        &mut lines,
        write_head(rank, v.side_effect_files.len() as u128, v.cascade_len()),
    );
    let mut change = "  CONFIG_".to_owned();
    change.append(v.change.0.as_str());
    change.append("=n");
    add_line(&mut lines, change);
    add_lines(&mut lines, write_files(&path_list(&v.side_effect_files), verbose));
    add_lines(&mut lines, write_cascade(v));
    add_lines(&mut lines, write_modules(&v.collateral_modules));
    add_line(&mut lines, "".to_owned());
    assert(texts(lines@) =~= variant_lines(rank as nat, *v, verbose));
    lines
}

// ── The whole report ──────────────────────────────────────────────────────────

/// What is said of a module that is not known, where `known` are those that are.
pub open spec fn unknown_module_text(name: Seq<char>, known: Seq<Seq<char>>) -> Seq<char> {
    "module '"@ + name + "' not found in kbuild maps; known modules: "@ + comma_list(
        first_names(known, KNOWN as nat),
    )
}

/// Says that a module is not known.
pub fn unknown_module(name: &str, modules: &NameMap<KernelModule>) -> (text: String)
    ensures
        text@ == unknown_module_text(name@, modules.keys()),
{
    let mut known: Vec<String> = Vec::new();
    let count: usize = modules.len();
    for i in 0..count
        invariant
            count == modules.keys().len(),
            known@.len() == i,
            forall|k: int| 0 <= k < i ==> (#[trigger] known@[k])@ == modules.keys()[k],
    {
        known.push(modules.key_at(i).clone());
    }
    assert(texts(known@) =~= modules.keys());
    let mut text = "module '".to_owned();
    text.append(name);
    text.append("' not found in kbuild maps; known modules: ");
    text.append(join_comma(&take_names(&known, KNOWN)).as_str());
    text
}

/// The lines on a module: its files are listed in the order of directories, each once.
pub open spec fn module_lines(module: ModuleView) -> Seq<Seq<char>> {
    seq![
        ""@,
        "Disabling module '"@ + module.name + "'  (module_config: "@ + module.config + ", "@
            + decimal(module.files.len()) + " source files)"@,
    ] + wrapped("  "@, unrepeated(path_sorted(module.files)), ""@) + seq![""@]
}

/// Writes the lines on a module.
pub fn report_module(module: &KernelModule) -> (lines: Vec<String>)
    ensures
        texts(lines@) == module_lines(module@),
{
    let files = drop_repeated(&sort_paths(&module.files));
    let mut lines = no_lines();
    add_line(&mut lines, "".to_owned());
    let mut head = "Disabling module '".to_owned();
    head.append(module.name.as_str());
    head.append("'  (module_config: ");
    head.append(module.module_config.as_str());
    head.append(", ");
    head.append(to_decimal(module.files.len() as u128).as_str());
    head.append(" source files)");
    add_line(&mut lines, head);
    add_lines(&mut lines, wrap_each("  ", &files, ""));
    add_line(&mut lines, "".to_owned());
    assert(texts(lines@) =~= module_lines(module@));
    lines
}

/// How many of `n` variants are shown.
pub open spec fn shown_of(n: nat) -> nat {
    if n < SHOWN {
        n
    } else {
        SHOWN as nat
    }
}

/// The lines on the first `k` variants.
pub open spec fn shown_lines(variants: Seq<DisableVariant>, k: nat, verbose: bool) -> Seq<Seq<char>>
    decreases k,
{
    if k == 0 {
        seq![]
    } else {
        shown_lines(variants, (k - 1) as nat, verbose) + variant_lines(
            (k - 1) as nat,
            variants[k - 1],
            verbose,
        )
    }
}

/// The lines on variants.
pub open spec fn variants_lines(variants: Seq<DisableVariant>, verbose: bool) -> Seq<Seq<char>> {
    if variants.len() == 0 {
        seq![
            "No single-symbol variant found that silences this module."@,
            "The module may already be disabled, or requires multi-symbol changes."@,
        ]
    } else {
        seq![
            "Found "@ + decimal(variants.len()) + " variant(s), showing top "@ + decimal(
                shown_of(variants.len()),
            ) + " by fewest side effects."@,
            ""@,
        ] + shown_lines(variants, shown_of(variants.len()), verbose)
    }
}

/// Writes the lines on variants.
pub fn report_variants(variants: &Vec<DisableVariant>, verbose: bool) -> (lines: Vec<String>)
    ensures
        texts(lines@) == variants_lines(variants@, verbose),
{
    let mut lines = no_lines();
    if variants.len() == 0 {
        add_line(
            &mut lines,
            "No single-symbol variant found that silences this module.".to_owned(),
        );
        add_line(
            &mut lines,
            "The module may already be disabled, or requires multi-symbol changes.".to_owned(),
        );
        assert(texts(lines@) =~= variants_lines(variants@, verbose));
        return lines;
    }
    let show: usize = if variants.len() < SHOWN {
        variants.len()
    } else {
        SHOWN
    };
    let mut head = "Found ".to_owned();
    head.append(to_decimal(variants.len() as u128).as_str());
    head.append(" variant(s), showing top ");
    head.append(to_decimal(show as u128).as_str());
    head.append(" by fewest side effects.");
    add_line(&mut lines, head);
    add_line(&mut lines, "".to_owned());
    let ghost first = texts(lines@);
    assert(first + shown_lines(variants@, 0, verbose) =~= first);
    for i in 0..show
        invariant
            show <= variants@.len(),
            texts(lines@) == first + shown_lines(variants@, i as nat, verbose),
    {
        let ghost before = shown_lines(variants@, i as nat, verbose);
        let part = print_variant(i, &variants[i], verbose);
        let ghost p = texts(part@);
        add_lines(&mut lines, part);
        assert(first + before + p =~= first + (before + p));
    }
    assert(texts(lines@) =~= variants_lines(variants@, verbose));
    lines
}

/// The symbols that would still be turned on again after the best variant has been applied.
pub fn best_conflicts(
    variants: &Vec<DisableVariant>,
    graph: &KconfigGraph,
    values: &NameMap<String>,
) -> (conflicts: NameSet)
    ensures
        forall|t: Seq<char>| #[trigger]
            conflicts@.contains(t) <==> variants@.len() > 0 && is_conflict(
                graph@,
                value_texts(values@),
                variants@[0].cascade_unconditional@.union(variants@[0].cascade_active@).insert(
                    variants@[0].change.0@,
                ),
                t,
            ),
{
    if variants.len() == 0 {
        return NameSet::new();
    }
    graph.validate_disabled(&variants[0].disabled(), values)
}

/// The lines on symbols that would still be turned on again.
pub open spec fn conflicts_lines(conflicts: Seq<Seq<char>>, change: Seq<char>) -> Seq<Seq<char>> {
    if conflicts.len() == 0 {
        seq![]
    } else {
        seq![
            "Warning: the following symbol(s) would STILL re-enable CONFIG_"@ + change
                + " after applying the best variant. Their select condition involves symbols outside the proposed disable set — a single-symbol change may be insufficient:"@,
        ] + wrapped("  CONFIG_"@, conflicts, ""@) + seq![""@]
    }
}

/// Writes the lines on symbols that would still be turned on again.
pub fn report_conflicts(conflicts: &NameSet, change: &str) -> (lines: Vec<String>)
    ensures
        texts(lines@) == conflicts_lines(conflicts.names(), change@),
{
    let names = conflicts.to_vec();
    let mut lines = no_lines();
    assert(names@.len() == conflicts.names().len());
    if names.len() > 0 {
        let mut head =
            "Warning: the following symbol(s) would STILL re-enable CONFIG_".to_owned();
        head.append(change);
        head.append(
            " after applying the best variant. Their select condition involves symbols outside the proposed disable set — a single-symbol change may be insufficient:",
        );
        add_line(&mut lines, head);
        add_lines(&mut lines, wrap_each("  CONFIG_", &names, ""));
        add_line(&mut lines, "".to_owned());
    }
    assert(texts(lines@) =~= conflicts_lines(conflicts.names(), change@));
    lines
}

} // verus!
