use kminimize::gather::{ModuleEntry, ModuleList, ModuleSnapshot, ModuleState};
use kminimize::kbuild::expr::ConfigExpr as BuildExpr;
use kminimize::kbuild::maps::{KbuildMaps, KernelModule};
use kminimize::kconfig::expr::ConfigExpr;
use kminimize::kconfig::graph::{KconfigGraph, Symbol, SymbolKind};
use kminimize::kconfig::parse::parse_expr;
use kminimize::kminimize::compare::{
    changes_of, clone_args, compare_builds, compiler_args, driven_modules, report_counts,
    report_side_effects, report_verdict, skips_directory, source_name, write_best, write_extra,
};
use kminimize::kminimize::dotconfig::{config_diff_disabled, parse_dotconfig, write_dotconfig};
use kminimize::kminimize::plan::{
    best_conflicts, print_variant, report_conflicts, report_module, report_variants, take_names,
    unknown_module,
};
use kminimize::kminimize::reduce::{plan_reduction, reduce_config, to_bare, to_full};
use kminimize::kminimize::report::{
    align_left, align_right, join_comma, plural_end, report_candidates, report_reduction, wrap_each,
};
use kminimize::kminimize::selftest::{
    check_new_kernel, kernel_image, next_patch, only_kernel, select_git_tag, KernelFault, PatchStep,
};
use kminimize::kminimize::snapshots::{
    count_active, is_over, next_wait, peak_snapshot, print_snapshot, sum_use,
};
use kminimize::kminimize::variants::{generate_disable_variants, DisableVariant};
use kminimize::names::{NameMap, NameSet};
use kminimize::paths::lists::{drop_repeated, path_list, sort_paths};
use kminimize::paths::sets::{distinct_paths, path_difference, path_intersection, path_union};
use kminimize::paths::steps::to_plain;

fn names(list: &[&str]) -> NameSet {
    let mut set = NameSet::new();
    for n in list {
        set.insert((*n).to_owned());
    }
    set
}

fn strings(list: &[&str]) -> Vec<String> {
    list.iter().map(|s| (*s).to_owned()).collect()
}

fn vals(pairs: &[(&str, &str)]) -> NameMap<String> {
    let mut map = NameMap::new();
    for (k, v) in pairs {
        map.insert((*k).to_owned(), (*v).to_owned());
    }
    map
}

fn entry(name: &str, use_count: u32, used_by: &[&str]) -> ModuleEntry {
    ModuleEntry {
        name: name.to_owned(),
        use_count,
        used_by: strings(used_by),
        state: ModuleState::Live,
        is_out_of_tree: false,
    }
}

fn list_of(modules: Vec<ModuleEntry>) -> ModuleList {
    ModuleList {
        snapshots: vec![ModuleSnapshot { timestamp_secs: 1, modules }],
        ..Default::default()
    }
}

fn module(name: &str, config: &str, files: &[&str]) -> KernelModule {
    KernelModule {
        name: name.to_owned(),
        module_config: config.to_owned(),
        files: strings(files),
    }
}

fn modules(list: Vec<KernelModule>) -> NameMap<KernelModule> {
    let mut map = NameMap::new();
    for m in list {
        map.insert(m.name.clone(), m);
    }
    map
}

fn sym(name: &str, selects: &[(&str, &str)]) -> Symbol {
    Symbol {
        name: name.to_owned(),
        kind: SymbolKind::Tristate,
        depends_on: None,
        selects: selects
            .iter()
            .map(|(t, c)| {
                let cond = if c.is_empty() { ConfigExpr::Always } else { parse_expr(c) };
                ((*t).to_owned(), cond)
            })
            .collect(),
        implies: vec![],
        choice_group: None,
    }
}

fn graph(symbols: Vec<Symbol>) -> KconfigGraph {
    let mut map = NameMap::new();
    for s in symbols {
        map.insert(s.name.clone(), s);
    }
    KconfigGraph::for_test(map)
}

// ── .config files ─────────────────────────────────────────────────────────────

#[test]
fn writing_disables_and_appends() {
    let out = write_dotconfig(
        "# header\nCONFIG_A=y\nCONFIG_B=m\n# CONFIG_C is not set\nCONFIG_D=\"x=y\"\n",
        &names(&["CONFIG_B", "CONFIG_Z", "CONFIG_C", "CONFIG_D"]),
    );
    assert_eq!(
        out,
        "# header\nCONFIG_A=y\n# CONFIG_B is not set\n# CONFIG_C is not set\n\
         # CONFIG_D is not set\n# CONFIG_Z is not set\n"
    );
}

#[test]
fn writing_twice_changes_nothing_more() {
    let off = names(&["CONFIG_A", "CONFIG_B", "CONFIG_Z"]);
    let once = write_dotconfig("CONFIG_A=y\r\n# CONFIG_B is not set\nCONFIG_C=m", &off);
    assert_eq!(
        once,
        "# CONFIG_A is not set\n# CONFIG_B is not set\nCONFIG_C=m\n# CONFIG_Z is not set\n"
    );
    assert_eq!(write_dotconfig(&once, &off), once);
    let rewritten = write_dotconfig("CONFIG_A=y\r\r\nCONFIG_B=m\r\r\r\nCONFIG_C=m\r\n", &off);
    assert_eq!(
        rewritten,
        "# CONFIG_A is not set\n# CONFIG_B is not set\nCONFIG_C=m\n# CONFIG_Z is not set\n"
    );
    assert_eq!(write_dotconfig(&rewritten, &off), rewritten);
}

#[test]
fn writing_nothing_keeps_the_lines() {
    assert_eq!(write_dotconfig("A\r\n\nB", &NameSet::new()), "A\n\nB\n");
    assert_eq!(write_dotconfig("", &names(&["CONFIG_A"])), "# CONFIG_A is not set\n");
}

#[test]
fn what_was_disabled_reads_as_n() {
    let text = "CONFIG_A=y\nCONFIG_B=m\nCONFIG_A=m\n";
    let off = names(&["CONFIG_A", "CONFIG_NEW"]);
    let values = parse_dotconfig(&write_dotconfig(text, &off));
    assert_eq!(values.get("A").unwrap(), "n");
    assert_eq!(values.get("NEW").unwrap(), "n");
    assert_eq!(values.get("B").unwrap(), "m");
    let indented = write_dotconfig("CONFIG_A=m\n CONFIG_A=y\n", &names(&["CONFIG_A"]));
    assert_eq!(parse_dotconfig(&indented).get("A").unwrap(), "n");
}

#[test]
fn what_was_not_disabled_reads_as_before() {
    let text = "CONFIG_A=y\n# CONFIG_B is not set\nCONFIG_C=\"x\"\r\n\nCONFIG_C=5\n";
    let before = parse_dotconfig(text);
    let after = parse_dotconfig(&write_dotconfig(text, &names(&["CONFIG_A", "CONFIG_D"])));
    for name in ["B", "C", "E"] {
        assert_eq!(before.get(name), after.get(name));
    }
    assert_eq!(after.get("C").unwrap(), "5");
    assert_eq!(after.get("A").unwrap(), "n");
}

#[test]
fn reading_values() {
    let v = parse_dotconfig(
        "# CONFIG_OFF is not set\nCONFIG_A=y\nCONFIG_S=\"some text\"\nCONFIG_N=0x10\n\
         # a comment\nOTHER=1\nCONFIG_A=n\nCONFIG_E\n",
    );
    assert_eq!(v.len(), 4);
    assert_eq!(v.get("OFF").unwrap(), "n");
    assert_eq!(v.get("A").unwrap(), "n");
    assert_eq!(v.get("S").unwrap(), "some text");
    assert_eq!(v.get("N").unwrap(), "0x10");
}

#[test]
fn what_went_off() {
    let before = vals(&[("A", "y"), ("B", "m"), ("C", "y"), ("D", "n"), ("E", "5"), ("F", "m")]);
    let after = vals(&[("A", "y"), ("B", "n"), ("F", "y"), ("D", "n")]);
    assert_eq!(config_diff_disabled(&before, &after).to_vec(), vec!["B", "C"]);
}

// ── Reducing ──────────────────────────────────────────────────────────────────

#[test]
fn names_of_symbols() {
    assert_eq!(to_bare("CONFIG_FOO"), "FOO");
    assert_eq!(to_bare("FOO"), "FOO");
    assert_eq!(to_full("FOO"), "CONFIG_FOO");
}

#[test]
fn candidates_of_both_categories() {
    let mut list = list_of(vec![
        entry("busy", 1, &[]),
        entry("idle", 0, &[]),
        entry("builtin", 0, &[]),
        entry("off", 0, &[]),
        entry("alien", 0, &[]),
        entry("pinned", 0, &[]),
    ]);
    list.pinned_configs = strings(&["PINNED"]);
    let known = modules(vec![
        module("busy", "BUSY", &[]),
        module("idle", "IDLE", &[]),
        module("builtin", "BUILTIN", &[]),
        module("off", "OFF", &[]),
        module("pinned", "PINNED", &[]),
        module("unseen", "UNSEEN", &[]),
        module("unseen_y", "UNSEEN_Y", &[]),
    ]);
    let values = vals(&[
        ("BUSY", "m"),
        ("IDLE", "m"),
        ("BUILTIN", "y"),
        ("OFF", "n"),
        ("PINNED", "m"),
        ("UNSEEN", "m"),
        ("UNSEEN_Y", "y"),
    ]);
    let c = plan_reduction(&list, &known, &values);
    assert_eq!(c.idle.to_vec(), vec!["CONFIG_BUILTIN", "CONFIG_IDLE"]);
    assert_eq!(c.never_loaded.to_vec(), vec!["CONFIG_UNSEEN"]);
    assert_eq!(c.skipped, vec!["alien"]);
    assert_eq!(c.clusters.len(), 5);

    let g = graph(vec![sym("BUSY", &[("IDLE", "")]), sym("IDLE", &[])]);
    let r = reduce_config(&c, &g, &values);
    assert_eq!(r.idle.to_vec(), vec!["CONFIG_BUILTIN"]);
    assert_eq!(r.idle_forced.to_vec(), vec!["CONFIG_IDLE"]);
    assert_eq!(r.never_loaded.to_vec(), vec!["CONFIG_UNSEEN"]);
    assert_eq!(r.never_loaded_candidates, 1);
    assert_eq!(r.to_disable().to_vec(), vec!["CONFIG_BUILTIN", "CONFIG_UNSEEN"]);
    assert_eq!(
        report_reduction(&r),
        vec![
            "Skipping 1 loaded-but-idle symbol — `select`ed by a still-enabled symbol (make oldconfig would restore them):",
            "  CONFIG_IDLE",
            "  (use 'module-plan' to find a variant that also disables the selector)",
            "",
            "Disabling 1 loaded-but-idle CONFIG symbol:",
            "  CONFIG_BUILTIN=n",
            "",
            "Never-loaded modules: 1 built but never observed — disabling 1",
            "",
        ]
    );
}

#[test]
fn what_is_kept_keeps_what_it_selects() {
    // KEEP selects A, A selects B: both stay, and nothing is turned on again.
    let list = list_of(vec![entry("a", 0, &[]), entry("b", 0, &[]), entry("c", 0, &[])]);
    let known =
        modules(vec![module("a", "A", &[]), module("b", "B", &[]), module("c", "C", &[])]);
    let values = vals(&[("A", "m"), ("B", "m"), ("C", "m"), ("KEEP", "y")]);
    let g = graph(vec![
        sym("KEEP", &[("A", "")]),
        sym("A", &[("B", "")]),
        sym("B", &[]),
        sym("C", &[("B", "")]),
    ]);
    let c = plan_reduction(&list, &known, &values);
    let r = reduce_config(&c, &g, &values);
    assert_eq!(r.to_disable().to_vec(), vec!["CONFIG_C"]);
    assert_eq!(r.idle_forced.to_vec(), vec!["CONFIG_A", "CONFIG_B"]);
    let bare = names(&["C"]);
    assert!(g.validate_disabled(&bare, &values).is_empty());
}

#[test]
fn reports_on_nothing() {
    let c = plan_reduction(&ModuleList::new(), &modules(vec![]), &vals(&[]));
    assert_eq!(
        report_candidates(&c),
        vec![
            "Safe to disable — 0 modules in 0 clusters",
            "",
            "Nothing to disable — all candidate modules are already off.",
        ]
    );
    let r = reduce_config(&c, &graph(vec![]), &vals(&[]));
    assert_eq!(
        report_reduction(&r),
        vec!["Nothing left to disable after filtering selected symbols."]
    );
}

#[test]
fn report_on_candidates() {
    let list = list_of(vec![entry("p", 0, &["q"]), entry("q", 0, &[]), entry("r", 0, &[])]);
    let c = plan_reduction(&list, &modules(vec![module("r", "R", &[])]), &vals(&[("R", "m")]));
    assert_eq!(
        report_candidates(&c),
        vec![
            "Safe to disable — 3 modules in 2 clusters",
            "  [  2]  p, q",
            "  [  1]  r",
            "",
            "Modules not found in kernel source (skipped): p, q",
            "",
        ]
    );
}

#[test]
fn note_on_skipped_ones() {
    let known = modules(vec![module("u", "U", &[]), module("v", "V", &[])]);
    let values = vals(&[("U", "m"), ("V", "m"), ("S", "y")]);
    let c = plan_reduction(&ModuleList::new(), &known, &values);
    let r = reduce_config(&c, &graph(vec![sym("S", &[("U", "")])]), &values);
    assert_eq!(
        report_reduction(&r),
        vec![
            "Never-loaded modules: 2 built but never observed — disabling 1, 1 skipped: forced on by select",
            "",
        ]
    );
}

#[test]
fn pieces_of_reports() {
    assert_eq!(join_comma(&strings(&["a", "b", "c"])), "a, b, c");
    assert_eq!(join_comma(&vec![]), "");
    assert_eq!(plural_end(1), "");
    assert_eq!(plural_end(0), "s");
    assert_eq!(align_right("7", 3), "  7");
    assert_eq!(align_right("1234", 3), "1234");
    assert_eq!(align_left("é", 3), "é  ");
    assert_eq!(wrap_each("<", &strings(&["a", "b"]), ">"), vec!["<a>", "<b>"]);
    assert_eq!(take_names(&strings(&["a", "b"]), 1), vec!["a"]);
    assert_eq!(take_names(&strings(&["a", "b"]), 5), vec!["a", "b"]);
}

#[test]
fn paths_stand_in_the_order_of_directories() {
    let all = [
        "a/z.c", "a-b/x.c", "a.c", "a/b/c.c", "b.c", "a/b.c", "../a.c", "-b.c", "./c.c", "/d.c",
        "a/../e.c", "a/./f.c", "a//g.c", ".h.c", "..i.c", "é.c", "", "/", ".", "a/j/",
    ];
    let list = path_list(&names(&all));
    let mut paths: Vec<std::path::PathBuf> = all.iter().map(Into::into).collect();
    paths.sort();
    let want: Vec<String> = paths.iter().map(|p| p.display().to_string()).collect();
    assert_eq!(list, want);
}

#[test]
fn spellings_of_one_path() {
    for (path, plain) in [
        ("a//b.c", "a/b.c"),
        ("a/./b.c", "a/b.c"),
        ("a/b.c/", "a/b.c"),
        ("a/b.c/.", "a/b.c"),
        ("./a", "./a"),
        (".//a/.", "./a"),
        ("a/../b", "a/../b"),
        ("//a", "/a"),
        ("/./a", "/a"),
        ("/", "/"),
        ("///", "/"),
        (".", "."),
        ("", ""),
    ] {
        assert_eq!(to_plain(path), plain);
        assert_eq!(std::path::Path::new(path), std::path::Path::new(plain));
    }
    let all = ["a//b", "a/b", "a/b/", "./a/b", "/a/b", "//a/b", "a/../b", "b", "", ".", "a.b", "..", "/"];
    for a in all {
        for b in all {
            assert_eq!(
                to_plain(a) == to_plain(b),
                std::path::Path::new(a) == std::path::Path::new(b),
                "{a} {b}"
            );
        }
    }
}

#[test]
fn lists_name_each_path_once() {
    let all = ["b.c", "a/c//d.c", "a//b.c", "x", "a/b.c", "a/c/d.c", "a/./b.c", "x/", "b.c"];
    let mut paths: Vec<std::path::PathBuf> = all.iter().map(Into::into).collect();
    paths.sort();
    let sorted = sort_paths(&strings(&all));
    assert_eq!(sorted, paths.iter().map(|p| p.display().to_string()).collect::<Vec<String>>());
    paths.dedup();
    let once = drop_repeated(&sorted);
    assert_eq!(once, paths.iter().map(|p| p.display().to_string()).collect::<Vec<String>>());
    assert_eq!(once, vec!["a//b.c", "a/c//d.c", "b.c", "x"]);
}

#[test]
fn sets_compare_paths() {
    let a = names(&["a//b", "a/b", "c", "d/"]);
    let b = names(&["a/./b", "d", "e"]);
    assert_eq!(distinct_paths(&a).to_vec(), vec!["a//b", "c", "d/"]);
    assert_eq!(path_difference(&a, &b).to_vec(), vec!["c"]);
    assert_eq!(path_intersection(&a, &b).to_vec(), vec!["a//b", "a/b", "d/"]);
    assert_eq!(path_union(&b, &a).to_vec(), vec!["a/./b", "c", "d", "e"]);
}

// ── Variants ──────────────────────────────────────────────────────────────────

fn build(s: &str) -> BuildExpr {
    BuildExpr::Symbol(s.to_owned())
}

fn kernel() -> (KbuildMaps, KconfigGraph, NameMap<String>) {
    let mut files = NameMap::new();
    let both = |a, b| BuildExpr::And(Box::new(a), Box::new(b));
    files.insert("fs/nfsd/a.c".to_owned(), both(build("NFS_FS"), build("NFSD")));
    files.insert("fs/nfsd/b.c".to_owned(), both(build("NFS_FS"), build("NFSD")));
    files.insert("fs/nfs/c.c".to_owned(), build("NFS_FS"));
    let known = modules(vec![
        module("nfsd", "NFSD", &["fs/nfsd/a.c", "fs/nfsd/b.c"]),
        module("nfs", "NFS_FS", &["fs/nfs/c.c"]),
        module("extra", "EXTRA", &[]),
    ]);
    let mut extra = sym("EXTRA", &[]);
    extra.depends_on = Some(parse_expr("NFSD"));
    let g = graph(vec![
        sym("NFSD", &[]),
        sym("NFS_FS", &[]),
        sym("USER", &[("NFSD", "")]),
        sym("MAYBE", &[("NFSD", "COND")]),
        extra,
    ]);
    let values = vals(&[
        ("NFSD", "m"),
        ("NFS_FS", "m"),
        ("USER", "y"),
        ("MAYBE", "y"),
        ("COND", "y"),
        ("EXTRA", "m"),
    ]);
    (KbuildMaps::from_files(files, known), g, values)
}

#[test]
fn variants_by_side_effects() {
    let (maps, g, values) = kernel();
    let m = maps.module("nfsd").unwrap();
    let v = generate_disable_variants(&maps, &g, m, &values);
    assert_eq!(v.len(), 2);
    assert_eq!(v[0].change, ("NFSD".to_owned(), "n".to_owned()));
    assert!(v[0].side_effect_files.is_empty());
    assert_eq!(v[0].cascade_unconditional.to_vec(), vec!["USER"]);
    assert_eq!(v[0].cascade_active.to_vec(), vec!["MAYBE"]);
    assert_eq!(v[0].collateral_modules, vec!["extra"]);
    assert_eq!(v[0].cascade_len(), 2);
    assert_eq!(v[0].cascade_configs(), vec!["USER", "MAYBE"]);
    assert_eq!(v[0].disabled().to_vec(), vec!["MAYBE", "NFSD", "USER"]);
    assert_eq!(v[1].change.0, "NFS_FS");
    assert_eq!(v[1].side_effect_files.to_vec(), vec!["fs/nfs/c.c"]);
    assert!(best_conflicts(&v, &g, &values).is_empty());
}

#[test]
fn no_variant_for_what_is_not_built() {
    let (maps, g, _) = kernel();
    let m = maps.module("nfsd").unwrap();
    assert!(generate_disable_variants(&maps, &g, m, &vals(&[("NFSD", "m")])).is_empty());
    assert!(generate_disable_variants(&maps, &g, maps.module("extra").unwrap(), &vals(&[("EXTRA", "m")]))
        .is_empty());
}

#[test]
fn report_on_a_variant() {
    let (maps, g, values) = kernel();
    let v = generate_disable_variants(&maps, &g, maps.module("nfsd").unwrap(), &values);
    assert_eq!(
        print_variant(0, &v[0], false),
        vec![
            "Variant 1 ★ best  [0 collateral files, 2 cascade configs]",
            "  CONFIG_NFSD=n",
            "  Collateral files   : none",
            "  Cascade configs (must also disable — would re-enable CONFIG_NFSD via `select`):",
            "    CONFIG_USER=n  (unconditional: USER selects NFSD)",
            "    CONFIG_MAYBE=n  (active select: MAYBE selects NFSD if <cond>, currently true)",
            "  ⚠ Collateral modules (will also be disabled — depends-on chain): 1",
            "    extra",
            "",
        ]
    );
    assert_eq!(
        print_variant(1, &v[1], false),
        vec![
            "Variant 2  [1 collateral file, 0 cascade configs]",
            "  CONFIG_NFS_FS=n",
            "  Collateral files:",
            "    fs/nfs/c.c",
            "  Cascade configs    : none",
            "",
        ]
    );
}

fn variant(files: usize) -> DisableVariant {
    let mut set = NameSet::new();
    for i in 0..files {
        set.insert(format!("f{i:02}.c"));
    }
    DisableVariant {
        change: ("X".to_owned(), "n".to_owned()),
        side_effect_files: set,
        cascade_unconditional: names(&["A"]),
        cascade_active: names(&["B"]),
        collateral_modules: vec![],
    }
}

#[test]
fn long_lists_are_cut() {
    let short = print_variant(2, &variant(10), false);
    assert_eq!(short.len(), 2 + 11 + 3 + 1);
    let cut = print_variant(2, &variant(12), false);
    assert_eq!(cut[12], "    f09.c");
    assert_eq!(cut[13], "    ... (2 more, use --verbose to list all)");
    let full = print_variant(2, &variant(12), true);
    assert_eq!(full[14], "    f11.c");
}

#[test]
fn reports_of_a_plan() {
    let none: Vec<DisableVariant> = vec![];
    assert_eq!(
        report_variants(&none, false),
        vec![
            "No single-symbol variant found that silences this module.",
            "The module may already be disabled, or requires multi-symbol changes.",
        ]
    );
    let six: Vec<DisableVariant> = (0..6).map(|_| variant(0)).collect();
    let lines = report_variants(&six, false);
    assert_eq!(lines[0], "Found 6 variant(s), showing top 5 by fewest side effects.");
    assert_eq!(lines.iter().filter(|l| l.starts_with("Variant ")).count(), 5);
    assert_eq!(
        report_module(&module("nfsd", "NFSD", &["b.c", "a.c", "b.c"])),
        vec!["", "Disabling module 'nfsd'  (module_config: NFSD, 3 source files)", "  a.c", "  b.c", ""]
    );
    assert_eq!(
        report_module(&module("m", "M", &["z.c", "a//b.c", "a/b.c"])),
        vec!["", "Disabling module 'm'  (module_config: M, 3 source files)", "  a//b.c", "  z.c", ""]
    );
    assert_eq!(report_module(&module("m", "M", &["a/b.c", "a//b.c"]))[2..], ["  a/b.c", ""]);
    assert!(report_conflicts(&NameSet::new(), "X").is_empty());
    let lines = report_conflicts(&names(&["T"]), "X");
    assert_eq!(lines.len(), 3);
    assert!(lines[0].starts_with("Warning: the following symbol(s) would STILL re-enable CONFIG_X "));
    assert_eq!(lines[1], "  CONFIG_T");
    let known: Vec<KernelModule> = (0..25).map(|i| module(&format!("m{i:02}"), "X", &[])).collect();
    let text = unknown_module("gone", &modules(known));
    assert!(text.starts_with("module 'gone' not found in kbuild maps; known modules: m00, m01, "));
    assert!(text.ends_with(", m19"));
}

#[test]
fn conflicts_of_the_best_variant() {
    let g = graph(vec![sym("STAYS", &[("X", "")])]);
    let v = vec![variant(0)];
    assert_eq!(best_conflicts(&v, &g, &vals(&[("STAYS", "y")])).to_vec(), vec!["X"]);
    assert!(best_conflicts(&vec![], &g, &vals(&[("STAYS", "y")])).is_empty());
}

// ── Comparing builds ──────────────────────────────────────────────────────────

#[test]
fn arguments_for_git_and_make() {
    assert_eq!(
        clone_args("https://x", "v6", "/tmp/d"),
        vec!["clone", "--depth=1", "--branch", "v6", "https://x", "/tmp/d"]
    );
    assert_eq!(clone_args("git://x", "v6", "d").len(), 6);
    assert_eq!(clone_args("http://x", "v6", "d").len(), 6);
    assert_eq!(
        clone_args("/src/linux", "v6", "/tmp/d"),
        vec!["clone", "--branch", "v6", "/src/linux", "/tmp/d"]
    );
    assert_eq!(compiler_args(Some("gcc-8")), vec!["CC=gcc-8", "HOSTCC=gcc-8"]);
    assert!(compiler_args(None).is_empty());
    assert_eq!(changes_of(&variant(0)), vec!["CONFIG_X=n", "CONFIG_A=n", "CONFIG_B=n"]);
}

#[test]
fn what_counts_as_built() {
    assert!(skips_directory(".git") && skips_directory("Documentation") && skips_directory("tools"));
    assert!(!skips_directory("drivers"));
    assert_eq!(source_name("usb.o").as_deref(), Some("usb.c"));
    assert_eq!(source_name(".o"), None);
    assert_eq!(source_name("usb.ko"), None);
}

#[test]
fn predictions_and_reality() {
    let mut c2f = NameMap::new();
    c2f.insert("EXTRA".to_owned(), names(&["x.c", "m.c"]));
    c2f.insert("OTHER".to_owned(), names(&["o.c"]));
    let before = names(&["m.c", "a.c", "b.c", "x.c", "k.c", "o.c"]);
    let after = names(&["k.c", "b.c", "o.c"]);
    let c = compare_builds(
        &before,
        &after,
        &names(&["m.c", "n.c"]),
        &names(&["a.c", "b.c"]),
        &names(&["EXTRA"]),
        &c2f,
    );
    assert_eq!(c.removed_module.to_vec(), vec!["m.c"]);
    assert_eq!(c.removed_collateral.to_vec(), vec!["a.c", "x.c"]);
    assert_eq!(c.extra_files.to_vec(), vec!["x.c"]);
    assert_eq!(c.expected.to_vec(), vec!["a.c", "b.c", "x.c"]);
    assert_eq!(c.false_positives.to_vec(), vec!["b.c"]);
    assert!(c.missed.is_empty());
    assert!(!c.passed());
    assert_eq!(
        report_counts(&c, 2, 2),
        vec![
            "── Self-test results ─────────────────────────────────────────────────────",
            "  Module files removed from build : 1/2",
            "  Collateral files removed         : 2",
            "  Collateral files predicted        : 3 (2 static + 1 from olddefconfig)",
        ]
    );
    assert_eq!(
        report_verdict(&c),
        vec![
            "",
            "  FALSE POSITIVES (predicted but build did not remove, 1):",
            "    b.c",
            "",
            "  FAIL",
        ]
    );
    let exact = compare_builds(
        &before,
        &after,
        &names(&["m.c"]),
        &names(&["a.c"]),
        &names(&["EXTRA"]),
        &c2f,
    );
    assert!(exact.passed());
    assert_eq!(report_verdict(&exact), vec!["", "  PASS: predictions match reality exactly"]);
    let missed =
        compare_builds(&before, &after, &names(&["m.c"]), &names(&[]), &names(&[]), &c2f);
    assert_eq!(missed.missed.to_vec(), vec!["a.c", "x.c"]);
    assert_eq!(report_verdict(&missed)[1], "  MISSED (build removed but not predicted, 2):");
}

#[test]
fn predictions_in_other_spellings() {
    let mut c2f = NameMap::new();
    c2f.insert("X".to_owned(), names(&["d//x.c", "./m.c"]));
    c2f.insert("Y".to_owned(), names(&["d/x.c", "d/m.c"]));
    let c = compare_builds(
        &names(&["d/m.c", "d//a.c", "d/a.c", "d/x.c", "d//k.c"]),
        &names(&["d/k.c"]),
        &names(&["d//m.c", "m.c"]),
        &names(&["d/./a.c"]),
        &names(&["X", "Y"]),
        &c2f,
    );
    assert_eq!(c.removed_module.to_vec(), vec!["d/m.c"]);
    assert_eq!(c.removed_collateral.to_vec(), vec!["d//a.c", "d/x.c"]);
    assert_eq!(c.extra_files.to_vec(), vec!["./m.c", "d//x.c"]);
    assert_eq!(c.expected.to_vec(), vec!["./m.c", "d/./a.c", "d//x.c"]);
    assert_eq!(c.false_positives.to_vec(), vec!["./m.c"]);
    assert!(c.missed.is_empty());
    let exact = compare_builds(
        &names(&["d/a.c", "d/x.c", "m.c"]),
        &names(&[]),
        &names(&["m.c"]),
        &names(&["d//a.c", "d/x.c/"]),
        &names(&[]),
        &c2f,
    );
    assert!(exact.passed());
    assert_eq!(exact.expected.len(), 2);
}

#[test]
fn modules_driven_by_a_symbol() {
    let known = modules(vec![
        module("b", "X", &[]),
        module("a", "X", &[]),
        module("c", "Y", &[]),
        module("self", "X", &[]),
    ]);
    let driven = driven_modules(&known, "X", "self");
    assert_eq!(driven, vec!["a", "b"]);
    assert_eq!(write_extra("X", &driven), "    CONFIG_X=n  ⚠ also disables module(s): a, b");
    assert_eq!(write_extra("Z", &vec![]), "    CONFIG_Z=n");
}

#[test]
fn side_effects_of_a_change() {
    let known = modules(vec![module("b", "X", &[]), module("nfsd", "X", &[]), module("c", "Y", &[])]);
    assert!(report_side_effects(&known, "nfsd", &names(&[]), &names(&["f.c"])).is_empty());
    assert_eq!(
        report_side_effects(&known, "nfsd", &names(&["Z", "X"]), &names(&["f.c", "g.c"])),
        vec![
            "── make olddefconfig side effects ──────────────────────────────────────────",
            "  Symbols additionally disabled by make olddefconfig: 2",
            "    CONFIG_X=n  ⚠ also disables module(s): b",
            "    CONFIG_Z=n",
            "  Files additionally removed (included in expected collateral): 2",
            "",
        ]
    );
    assert_eq!(
        write_best(&variant(3)),
        "Using best variant: CONFIG_X=n  (3 collateral files, 2 cascade configs, 0 collateral modules)"
    );
}

// ── The end-to-end test ───────────────────────────────────────────────────────

#[test]
fn tags() {
    let out = "aaa\trefs/tags/v6.8-rc1\nbbb\trefs/tags/v6.8-rc1^{}\nccc\trefs/tags/v6.8.1\n\
               ddd\trefs/tags/v6.8\neee\trefs/heads/v6.7\nnotab\n";
    assert_eq!(select_git_tag(out, "6.8").as_deref(), Some("v6.8"));
    assert_eq!(select_git_tag(out, "6.8-rc").as_deref(), Some("v6.8-rc1"));
    assert_eq!(select_git_tag(out, "6.8.1").as_deref(), Some("v6.8.1"));
    assert_eq!(select_git_tag(out, "6.7"), None);
    assert_eq!(select_git_tag("", "6.7"), None);
}

#[test]
fn images() {
    assert_eq!(
        kernel_image("Kernel: arch/x86/boot/bzImage is ready  (#1)").as_deref(),
        Some("arch/x86/boot/bzImage")
    );
    assert_eq!(kernel_image("  Kernel: x  ").as_deref(), Some("x"));
    assert_eq!(kernel_image("  CC      init/main.o"), None);
}

#[test]
fn patches_are_tried_until_one_applies() {
    assert_eq!(next_patch(&vec![], 2), PatchStep::Try(0));
    assert_eq!(next_patch(&vec![false], 2), PatchStep::Try(1));
    assert_eq!(next_patch(&vec![false, true], 2), PatchStep::Applied);
    assert_eq!(next_patch(&vec![false, false], 2), PatchStep::Exhausted);
    assert_eq!(next_patch(&vec![], 0), PatchStep::Exhausted);
}

#[test]
fn kernels() {
    let one = strings(&["6.1"]);
    let two = strings(&["6.1", "6.8"]);
    assert_eq!(check_new_kernel(&one, &two, "6.8"), Ok(()));
    assert_eq!(check_new_kernel(&one, &two, "6.9"), Err(KernelFault::NotListed));
    assert_eq!(check_new_kernel(&two, &two, "6.8"), Err(KernelFault::NotOneMore));
    assert_eq!(check_new_kernel(&two, &one, "6.1"), Err(KernelFault::NotOneMore));
    assert_eq!(only_kernel(&one).map(String::as_str), Some("6.1"));
    assert_eq!(only_kernel(&two), None);
}

// ── Snapshots ─────────────────────────────────────────────────────────────────

#[test]
fn waiting() {
    assert!(!is_over(9, Some(10)));
    assert!(is_over(10, Some(10)));
    assert!(is_over(11, Some(10)));
    assert!(!is_over(u128::MAX, None));
    assert_eq!(next_wait(0, 10, 3), Some(3));
    assert_eq!(next_wait(8, 10, 3), Some(2));
    assert_eq!(next_wait(10, 10, 3), None);
    assert_eq!(next_wait(11, 10, 3), None);
}

fn snapshot(modules: Vec<ModuleEntry>) -> ModuleSnapshot {
    ModuleSnapshot { timestamp_secs: 99, modules }
}

#[test]
fn the_last_peak_counts() {
    let mut loading = entry("l", 100, &[]);
    loading.state = ModuleState::Loading;
    let s = vec![
        snapshot(vec![entry("a", 2, &[]), entry("b", 3, &[])]),
        snapshot(vec![entry("a", 5, &[])]),
        snapshot(vec![entry("a", 4, &[]), loading]),
    ];
    assert_eq!(sum_use(&s[0]), 5);
    assert_eq!(sum_use(&s[2]), 4);
    assert_eq!(peak_snapshot(&s), Some(1));
    assert_eq!(peak_snapshot(&vec![]), None);
    assert_eq!(count_active(&s[2]), 1);
}

#[test]
fn report_on_a_snapshot() {
    let mut loading = entry("new", 0, &[]);
    loading.state = ModuleState::Loading;
    let mut oot = entry("oot", 3, &["x", "y"]);
    oot.is_out_of_tree = true;
    let s = snapshot(vec![
        entry("zero", 0, &[]),
        entry("bbb", 3, &[]),
        loading,
        oot,
        entry("most", 12, &["bbb"]),
    ]);
    let lines = print_snapshot(&s);
    assert_eq!(
        lines,
        vec![
            "  timestamp : 99 (Unix seconds)".to_owned(),
            "  modules   : 5 loaded, 3 active (use_count > 0), total use_count = 18".to_owned(),
            "".to_owned(),
            format!("{:<36} {:>9}  {}", "module", "use_count", "used_by"),
            "-".repeat(72),
            format!("{:<36} {:>9}  {}", "most", 12, "bbb"),
            format!("{:<36} {:>9}  {}", "bbb", 3, "-"),
            format!("{:<36} {:>9}  {}", "oot", 3, "x, y  (out-of-tree)"),
            format!("{:<36} {:>9}  {}", "zero", 0, "-"),
            "".to_owned(),
            "  Transitional modules (1):".to_owned(),
            "    Loading  new".to_owned(),
        ]
    );
}
