use kminimize::gather::alias::{
    glob_bytes, glob_match, parse_device_aliases, parse_modules_alias, pinned_configs_for_system,
};
use kminimize::gather::cli::{modules_alias_path, parse_kgather_args, parse_ktinify_args};
use kminimize::gather::proc_modules::{
    disableable_clusters, parse_proc_modules, snapshot_at, snapshot_from_content, unknown_state,
    Error,
};
use kminimize::gather::{Evidence, ModuleEntry, ModuleList, ModuleSnapshot, ModuleState};

// ── parse_proc_modules ────────────────────────────────────────────────────────

const SAMPLE: &str = "\
rpcrdma 483328 2 - Live 0x0000000000000000
rdma_cm 159744 1 rpcrdma, Live 0x0000000000000000
ib_core 573440 4 rpcrdma,rdma_cm,iw_cm,ib_cm, Live 0x0000000000000000
tcp_diag 20480 0 - Live 0x0000000000000000
zenpower 20480 0 - Live 0x0000000000000000 (OE)
vboxdrv 696320 2 vboxnetadp,vboxnetflt, Live 0x0000000000000000 (OE)
";

#[test]
fn parse_no_deps() {
    let entries = parse_proc_modules("rpcrdma 483328 2 - Live 0x0000000000000000").unwrap();
    assert_eq!(entries.len(), 1);
    let e = &entries[0];
    assert_eq!(e.name, "rpcrdma");
    assert_eq!(e.use_count, 2);
    assert!(e.used_by.is_empty());
    assert_eq!(e.state, ModuleState::Live);
    assert!(!e.is_out_of_tree);
}

#[test]
fn parse_single_dep() {
    let entries = parse_proc_modules("rdma_cm 159744 1 rpcrdma, Live 0x0000000000000000").unwrap();
    let e = &entries[0];
    assert_eq!(e.used_by, vec!["rpcrdma"]);
    assert_eq!(e.use_count, 1);
}

#[test]
fn parse_multiple_deps() {
    let entries = parse_proc_modules(
        "ib_core 573440 4 rpcrdma,rdma_cm,iw_cm,ib_cm, Live 0x0000000000000000",
    )
    .unwrap();
    let e = &entries[0];
    assert_eq!(e.used_by, vec!["rpcrdma", "rdma_cm", "iw_cm", "ib_cm"]);
}

#[test]
fn parse_out_of_tree_flag() {
    let entries = parse_proc_modules("zenpower 20480 0 - Live 0x0000000000000000 (OE)").unwrap();
    assert!(entries[0].is_out_of_tree);

    let entries = parse_proc_modules("tcp_diag 20480 0 - Live 0x0000000000000000").unwrap();
    assert!(!entries[0].is_out_of_tree);
}

#[test]
fn parse_states() {
    let entries = parse_proc_modules("foo 4096 0 - Loading 0x0000000000000000").unwrap();
    assert_eq!(entries[0].state, ModuleState::Loading);

    let entries = parse_proc_modules("bar 4096 0 - Unloading 0x0000000000000000").unwrap();
    assert_eq!(entries[0].state, ModuleState::Unloading);
}

#[test]
fn parse_empty_lines_ignored() {
    let entries = parse_proc_modules("\n\nrpcrdma 483328 2 - Live 0x0\n\n").unwrap();
    assert_eq!(entries.len(), 1);
}

#[test]
fn parse_error_bad_use_count() {
    let result = parse_proc_modules("bad 4096 notanumber - Live 0x0");
    assert!(matches!(result, Err(Error::ProcModules { .. })));
}

#[test]
fn parse_full_sample() {
    let entries = parse_proc_modules(SAMPLE).unwrap();
    assert_eq!(entries.len(), 6);
}

fn fault(content: &str) -> (usize, String, String) {
    match parse_proc_modules(content) {
        Err(Error::ProcModules { line_no, reason, line }) => (line_no, reason, line),
        _ => panic!("no fault in {content}"),
    }
}

#[test]
fn every_fault_has_its_reason() {
    assert_eq!(fault("foo").1, "missing size");
    assert_eq!(fault("foo 1").1, "missing use_count");
    assert_eq!(fault("foo 1 x").1, "use_count is not a u32");
    assert_eq!(fault("foo 1 4294967296 - Live").1, "use_count is not a u32");
    assert_eq!(fault("foo 1 2").1, "missing used_by column");
    assert_eq!(fault("foo 1 2 -").1, "missing state");
    assert_eq!(fault("foo 1 2 - Dead").1, "unknown state \"Dead\"");
    assert_eq!(unknown_state("\"Dead\""), "unknown state \"Dead\"");
}

#[test]
fn a_fault_names_its_line() {
    let (line_no, reason, line) = fault("\nfoo 1 2 - Live 0x0\n   bar 1  \nfoo\n");
    assert_eq!(line_no, 3);
    assert_eq!(reason, "missing use_count");
    assert_eq!(line, "bar 1");
}

#[test]
fn messages_of_errors() {
    let e = parse_proc_modules("a \"quoted\" name").err().unwrap();
    assert_eq!(
        e.message(),
        "failed to parse /proc/modules line 1: use_count is not a u32\n  line: \"a \\\"quoted\\\" name\""
    );
    assert_eq!(Error::Io("gone".to_owned()).message(), "I/O error: gone");
    assert_eq!(Error::Serde("bad".to_owned()).message(), "serialization error: bad");
}

#[test]
fn largest_use_count_and_sign() {
    assert_eq!(parse_proc_modules("m 1 4294967295 - Live").unwrap()[0].use_count, u32::MAX);
    assert_eq!(parse_proc_modules("m 1 +7 - Live").unwrap()[0].use_count, 7);
}

#[test]
fn blank_users_are_dropped() {
    let e = &parse_proc_modules("m 1 1 ,a,,b, Live 0x0").unwrap()[0];
    assert_eq!(e.used_by, vec!["a", "b"]);
    let dash = &parse_proc_modules("m 1 1 -,a Live 0x0").unwrap()[0];
    assert_eq!(dash.used_by, vec!["-", "a"]);
}

#[test]
fn the_flag_is_sought_behind_the_state_only() {
    let e = &parse_proc_modules("(OE) 1 1 (OE), Live").unwrap()[0];
    assert!(!e.is_out_of_tree);
}

#[test]
fn snapshots_bear_their_time() {
    let s = snapshot_at("m 1 1 - Live 0x0", 42).unwrap();
    assert_eq!(s.timestamp_secs, 42);
    assert_eq!(s.modules.len(), 1);
    let now = snapshot_from_content("m 1 1 - Live 0x0\n").unwrap();
    assert!(now.timestamp_secs > 1_600_000_000);
    assert_eq!(now.modules[0].name, "m");
    assert!(snapshot_from_content("m").is_err());
}

// ── ModuleList::ever_used ─────────────────────────────────────────────────────

fn make_entry(name: &str, use_count: u32, oot: bool) -> ModuleEntry {
    ModuleEntry {
        name: name.to_owned(),
        use_count,
        used_by: vec![],
        state: ModuleState::Live,
        is_out_of_tree: oot,
    }
}

fn make_entry_state(name: &str, use_count: u32, state: ModuleState) -> ModuleEntry {
    ModuleEntry {
        name: name.to_owned(),
        use_count,
        used_by: vec![],
        state,
        is_out_of_tree: false,
    }
}

fn snap(ts: u64, modules: Vec<ModuleEntry>) -> ModuleSnapshot {
    ModuleSnapshot { timestamp_secs: ts, modules }
}

#[test]
fn ever_used_includes_nonzero_use_count() {
    let list = ModuleList {
        snapshots: vec![snap(1, vec![make_entry("foo", 1, false)])],
        ..Default::default()
    };
    assert!(list.ever_used().contains("foo"));
}

#[test]
fn ever_used_excludes_zero_use_count() {
    let list = ModuleList {
        snapshots: vec![snap(1, vec![make_entry("foo", 0, false)])],
        ..Default::default()
    };
    assert!(!list.ever_used().contains("foo"));
}

#[test]
fn ever_used_excludes_out_of_tree() {
    let list = ModuleList {
        snapshots: vec![snap(1, vec![make_entry("vboxdrv", 2, true)])],
        ..Default::default()
    };
    assert!(!list.ever_used().contains("vboxdrv"));
}

#[test]
fn ever_used_excludes_transitional_states() {
    let list = ModuleList {
        snapshots: vec![snap(
            1,
            vec![
                make_entry_state("loading_mod", 1, ModuleState::Loading),
                make_entry_state("unloading_mod", 1, ModuleState::Unloading),
            ],
        )],
        ..Default::default()
    };
    assert!(!list.ever_used().contains("loading_mod"));
    assert!(!list.ever_used().contains("unloading_mod"));
}

#[test]
fn ever_used_sufficient_in_one_snapshot() {
    // Module is zero in snapshot 1, nonzero in snapshot 2: counts as used.
    let list = ModuleList {
        snapshots: vec![
            snap(1, vec![make_entry("foo", 0, false)]),
            snap(2, vec![make_entry("foo", 3, false)]),
        ],
        ..Default::default()
    };
    assert!(list.ever_used().contains("foo"));
}

// ── ModuleList::never_used ────────────────────────────────────────────────────

#[test]
fn never_used_excludes_ever_used_module() {
    let list = ModuleList {
        snapshots: vec![snap(1, vec![make_entry("foo", 1, false)])],
        ..Default::default()
    };
    assert!(!list.never_used().contains("foo"));
}

#[test]
fn never_used_includes_always_zero() {
    let list = ModuleList {
        snapshots: vec![
            snap(1, vec![make_entry("idle", 0, false)]),
            snap(2, vec![make_entry("idle", 0, false)]),
        ],
        ..Default::default()
    };
    assert!(list.never_used().contains("idle"));
}

#[test]
fn never_used_excludes_out_of_tree() {
    let list = ModuleList {
        snapshots: vec![snap(1, vec![make_entry("zenpower", 0, true)])],
        ..Default::default()
    };
    assert!(!list.never_used().contains("zenpower"));
}

// ── ModuleList::disable_cascade ───────────────────────────────────────────────

fn make_entry_deps(name: &str, used_by: Vec<&str>) -> ModuleEntry {
    ModuleEntry {
        name: name.to_owned(),
        use_count: 0,
        used_by: used_by.into_iter().map(str::to_owned).collect(),
        state: ModuleState::Live,
        is_out_of_tree: false,
    }
}

#[test]
fn disable_cascade_direct_dependents() {
    // rdma_cm and iw_cm both depend on ib_core.
    // Disabling ib_core must also pull in rdma_cm and iw_cm.
    let list = ModuleList {
        snapshots: vec![snap(
            1,
            vec![
                make_entry_deps("ib_core", vec![]),
                make_entry_deps("rdma_cm", vec!["ib_core"]),
                make_entry_deps("iw_cm", vec!["ib_core"]),
                make_entry_deps("unrelated", vec![]),
            ],
        )],
        ..Default::default()
    };
    let cascade = list.disable_cascade("ib_core");
    assert!(cascade.contains("rdma_cm"));
    assert!(cascade.contains("iw_cm"));
    assert!(!cascade.contains("ib_core")); // not the module itself
    assert!(!cascade.contains("unrelated"));
}

#[test]
fn disable_cascade_transitive() {
    // A <- B <- C: disabling A must cascade through B to C.
    let list = ModuleList {
        snapshots: vec![snap(
            1,
            vec![
                make_entry_deps("a", vec![]),
                make_entry_deps("b", vec!["a"]),
                make_entry_deps("c", vec!["b"]),
            ],
        )],
        ..Default::default()
    };
    let cascade = list.disable_cascade("a");
    assert!(cascade.contains("b"));
    assert!(cascade.contains("c"));
}

#[test]
fn disable_cascade_no_dependents() {
    let list = ModuleList {
        snapshots: vec![snap(1, vec![make_entry_deps("leaf", vec![])])],
        ..Default::default()
    };
    assert!(list.disable_cascade("leaf").is_empty());
}

#[test]
fn disable_cascade_ignores_out_of_tree() {
    let mut oot = make_entry_deps("oot_mod", vec!["ib_core"]);
    oot.is_out_of_tree = true;
    let list = ModuleList {
        snapshots: vec![snap(1, vec![make_entry_deps("ib_core", vec![]), oot])],
        ..Default::default()
    };
    // oot_mod depends on ib_core, but it's out-of-tree: should not appear in cascade.
    assert!(!list.disable_cascade("ib_core").contains("oot_mod"));
}

#[test]
fn disable_cascade_unions_across_snapshots() {
    // dep only shows up in snapshot 2, not snapshot 1: should still be captured.
    let list = ModuleList {
        snapshots: vec![
            snap(1, vec![make_entry_deps("base", vec![])]),
            snap(
                2,
                vec![
                    make_entry_deps("base", vec![]),
                    make_entry_deps("late_dep", vec!["base"]),
                ],
            ),
        ],
        ..Default::default()
    };
    assert!(list.disable_cascade("base").contains("late_dep"));
}

#[test]
fn a_cycle_leaves_the_start_out_of_its_cascade() {
    let list = ModuleList {
        snapshots: vec![snap(
            1,
            vec![make_entry_deps("a", vec!["b"]), make_entry_deps("b", vec!["a"])],
        )],
        ..Default::default()
    };
    let cascade = list.disable_cascade("a");
    assert_eq!(cascade.to_vec(), vec!["b"]);
}

#[test]
fn cascades_nest() {
    let list = ModuleList {
        snapshots: vec![snap(
            1,
            vec![
                make_entry_deps("b", vec!["a"]),
                make_entry_deps("c", vec!["b"]),
                make_entry_deps("d", vec!["b"]),
            ],
        )],
        ..Default::default()
    };
    let outer = list.disable_cascade("a");
    assert_eq!(outer.to_vec(), vec!["b", "c", "d"]);
    for name in list.disable_cascade("b").to_vec() {
        assert!(outer.contains(&name));
    }
}

// ── ModuleList::ever_depended_on_by ──────────────────────────────────────────

#[test]
fn ever_depended_on_by_basic() {
    // ib_core is used by rpcrdma and rdma_cm (they depend on it).
    // rdma_cm is also used by rpcrdma.  rpcrdma has no users.
    let list = ModuleList {
        snapshots: vec![snap(
            1,
            vec![
                make_entry_deps("ib_core", vec!["rpcrdma", "rdma_cm"]),
                make_entry_deps("rdma_cm", vec!["rpcrdma"]),
                make_entry_deps("rpcrdma", vec![]),
            ],
        )],
        ..Default::default()
    };
    let map = list.ever_depended_on_by();
    // ib_core is depended on by rpcrdma and rdma_cm
    let ib = map.get("ib_core").unwrap();
    assert!(ib.contains("rpcrdma"));
    assert!(ib.contains("rdma_cm"));
    // rdma_cm is depended on by rpcrdma
    let rdma = map.get("rdma_cm").unwrap();
    assert!(rdma.contains("rpcrdma"));
    // rpcrdma has no dependents
    assert!(!map.contains_key("rpcrdma"));
}

#[test]
fn ever_depended_on_by_holds_no_out_of_tree_module() {
    let list = ModuleList {
        snapshots: vec![snap(
            1,
            vec![
                make_entry_deps("core", vec!["oot"]),
                make_entry_deps("base", vec!["oot", "core", "unseen"]),
                ModuleEntry { is_out_of_tree: true, ..make_entry_deps("oot", vec![]) },
            ],
        )],
        ..Default::default()
    };
    let map = list.ever_depended_on_by();
    assert!(!map.contains_key("core"));
    assert_eq!(map.get("base").unwrap().to_vec(), vec!["core", "unseen"]);
    // A module with an in-tree entry too still counts.
    let both = ModuleList {
        snapshots: vec![snap(
            1,
            vec![
                make_entry_deps("core", vec!["oot"]),
                make_entry_deps("oot", vec![]),
                ModuleEntry { is_out_of_tree: true, ..make_entry_deps("oot", vec![]) },
            ],
        )],
        ..Default::default()
    };
    assert_eq!(both.ever_depended_on_by().get("core").unwrap().to_vec(), vec!["oot"]);
}

// ── ModuleList::safely_disableable_clusters ───────────────────────────────────

fn make_entry_uc(name: &str, use_count: u32, used_by: Vec<&str>) -> ModuleEntry {
    ModuleEntry {
        name: name.to_owned(),
        use_count,
        used_by: used_by.into_iter().map(str::to_owned).collect(),
        state: ModuleState::Live,
        is_out_of_tree: false,
    }
}

#[test]
fn directly_active_module_not_disableable() {
    // "active" has use_count=1, used_by=[]: directly active.
    let list = ModuleList {
        snapshots: vec![snap(1, vec![make_entry_uc("active", 1, vec![])])],
        ..Default::default()
    };
    let clusters = list.safely_disableable_clusters();
    let all: Vec<&str> = clusters.iter().flat_map(|c| c.iter().map(String::as_str)).collect();
    assert!(!all.contains(&"active"));
}

#[test]
fn dependency_of_active_not_disableable() {
    // "dep" is depended on by "active"; "active" is directly active.
    // dep must stay even though it has no direct use itself.
    let list = ModuleList {
        snapshots: vec![snap(
            1,
            vec![
                make_entry_uc("active", 2, vec!["dep"]), // active depends on dep; use_count=2 > used_by=1
                make_entry_uc("dep", 1, vec![]), // dep has use_count=1 from active loading it
            ],
        )],
        ..Default::default()
    };
    let clusters = list.safely_disableable_clusters();
    let all: Vec<&str> = clusters.iter().flat_map(|c| c.iter().map(String::as_str)).collect();
    assert!(!all.contains(&"active"), "active should not be disableable");
    assert!(!all.contains(&"dep"), "dep is required by active, should not be disableable");
}

#[test]
fn idle_module_is_own_cluster() {
    // Module with use_count=0, no deps, not depended on: isolated cluster.
    let list = ModuleList {
        snapshots: vec![snap(1, vec![make_entry_uc("idle", 0, vec![])])],
        ..Default::default()
    };
    let clusters = list.safely_disableable_clusters();
    assert_eq!(clusters.len(), 1);
    assert_eq!(clusters[0], vec!["idle"]);
}

#[test]
fn chain_forms_cluster() {
    // Two inactive modules in a chain, no active module needs them.
    // P (inactive) depends on Q (inactive): both disableable, same cluster.
    // active (active) depends on X: X must-keep, active must-keep.
    let list = ModuleList {
        snapshots: vec![snap(
            1,
            vec![
                make_entry_uc("active", 2, vec!["x"]),
                make_entry_uc("x", 1, vec![]),
                make_entry_uc("p", 0, vec!["q"]), // p depends on q
                make_entry_uc("q", 0, vec![]),
            ],
        )],
        ..Default::default()
    };
    let clusters = list.safely_disableable_clusters();
    let all_names: Vec<&str> =
        clusters.iter().flat_map(|c| c.iter().map(String::as_str)).collect();
    assert!(!all_names.contains(&"active"));
    assert!(!all_names.contains(&"x"));
    assert!(all_names.contains(&"p"));
    assert!(all_names.contains(&"q"));
    // p and q must be in the same cluster
    let pq_cluster = clusters.iter().find(|c| c.contains(&"p".to_owned())).unwrap();
    assert!(pq_cluster.contains(&"q".to_owned()), "p and q should be in the same cluster");
}

#[test]
fn disconnected_chains_are_separate_clusters() {
    // Two independent inactive chains: (p, q) and (r, s). Each is its own cluster.
    let list = ModuleList {
        snapshots: vec![snap(
            1,
            vec![
                make_entry_uc("p", 0, vec!["q"]),
                make_entry_uc("q", 0, vec![]),
                make_entry_uc("r", 0, vec!["s"]),
                make_entry_uc("s", 0, vec![]),
            ],
        )],
        ..Default::default()
    };
    let clusters = list.safely_disableable_clusters();
    assert_eq!(clusters.len(), 2);
    let names: Vec<Vec<&str>> =
        clusters.iter().map(|c| c.iter().map(String::as_str).collect()).collect();
    // One cluster contains p and q, the other r and s
    assert!(names.iter().any(|c| c.contains(&"p") && c.contains(&"q")));
    assert!(names.iter().any(|c| c.contains(&"r") && c.contains(&"s")));
}

#[test]
fn larger_clusters_come_first_then_smaller_names() {
    let list = ModuleList {
        snapshots: vec![snap(
            1,
            vec![
                make_entry_uc("a", 0, vec![]),
                make_entry_uc("z", 0, vec!["y", "x"]),
                make_entry_uc("y", 0, vec![]),
                make_entry_uc("x", 0, vec![]),
                make_entry_uc("n", 0, vec!["m"]),
                make_entry_uc("m", 0, vec![]),
                make_entry_uc("c", 0, vec!["b"]),
                make_entry_uc("b", 0, vec![]),
            ],
        )],
        ..Default::default()
    };
    let clusters = list.safely_disableable_clusters();
    assert_eq!(clusters, vec![vec!["x", "y", "z"], vec!["b", "c"], vec!["m", "n"], vec!["a"]]);
}

#[test]
fn what_the_active_one_depends_on_stays() {
    // user (in direct use) depends on lib, lib depends on base.
    let list = ModuleList {
        snapshots: vec![snap(
            1,
            vec![
                make_entry_uc("user", 1, vec![]),
                make_entry_uc("lib", 1, vec!["user"]),
                make_entry_uc("base", 1, vec!["lib"]),
                make_entry_uc("spare", 0, vec![]),
            ],
        )],
        ..Default::default()
    };
    assert_eq!(list.safely_disableable_clusters(), vec![vec!["spare"]]);
}

#[test]
fn drivers_of_present_devices_stay_with_their_dependencies() {
    let mut list = ModuleList {
        snapshots: vec![snap(
            1,
            vec![
                make_entry_uc("e1000e", 0, vec![]),
                make_entry_uc("ptp", 1, vec!["e1000e"]),
                make_entry_uc("spare", 0, vec![]),
            ],
        )],
        ..Default::default()
    };
    list.device_aliases = vec!["pci:v00008086d000015B7sv".to_owned()];
    list.modules_alias = vec![
        ("pci:v00008086d000015B7sv*".to_owned(), "e1000e".to_owned()),
        ("usb:*".to_owned(), "spare".to_owned()),
    ];
    assert_eq!(list.device_required_modules().to_vec(), vec!["e1000e"]);
    assert_eq!(list.safely_disableable_clusters(), vec![vec!["spare"]]);
}

#[test]
fn clusters_of_a_loaded_list() {
    let list = ModuleList {
        snapshots: vec![snap(1, vec![make_entry_uc("idle", 0, vec![])])],
        ..Default::default()
    };
    assert_eq!(disableable_clusters(Ok(list)).unwrap(), vec![vec!["idle"]]);
    let failed = disableable_clusters(Err(Error::Io("gone".to_owned())));
    assert_eq!(failed.err().unwrap().message(), "I/O error: gone");
}

// ── ModuleList::usage_report ──────────────────────────────────────────────────

#[test]
fn the_report_groups_and_counts() {
    let list = ModuleList {
        snapshots: vec![
            snap(
                1,
                vec![
                    make_entry_uc("direct", 3, vec!["x"]),
                    make_entry_uc("infra", 1, vec!["direct"]),
                    make_entry_uc("idle", 0, vec![]),
                ],
            ),
            snap(
                2,
                vec![
                    make_entry_uc("direct", 1, vec!["x"]),
                    make_entry_uc("infra", 2, vec!["direct", "other"]),
                    make_entry_state("idle", 9, ModuleState::Loading),
                    make_entry("oot", 1, true),
                ],
            ),
            snap(3, vec![make_entry_uc("infra", 0, vec![])]),
        ],
        ..Default::default()
    };
    let r = list.usage_report();
    assert_eq!(r.snapshots, 3);
    assert_eq!(r.directly_active.len(), 1);
    let d = &r.directly_active[0];
    assert_eq!((d.name.as_str(), d.total, d.active, d.max_use), ("direct", 2, 2, 3));
    assert_eq!(r.infrastructure.len(), 1);
    let (i, deps) = &r.infrastructure[0];
    assert_eq!((i.name.as_str(), i.total, i.active, i.max_use), ("infra", 3, 2, 2));
    assert_eq!(*deps, vec!["direct", "other"]);
    assert_eq!(r.idle.len(), 1);
    let n = &r.idle[0];
    assert_eq!((n.name.as_str(), n.total, n.active, n.max_use), ("idle", 1, 0, 0));
}

#[test]
fn totals_count_snapshots() {
    // Two entries for one module in one snapshot count once.
    let list = ModuleList {
        snapshots: vec![snap(1, vec![make_entry("m", 1, false), make_entry("m", 2, false)])],
        ..Default::default()
    };
    let r = list.usage_report();
    assert_eq!(r.directly_active[0].total, 1);
    assert_eq!(r.directly_active[0].active, 1);
    assert_eq!(r.directly_active[0].max_use, 2);
}

#[test]
fn the_report_partitions_the_loaded_modules() {
    let list = ModuleList {
        snapshots: vec![snap(0, parse_proc_modules(SAMPLE).unwrap())],
        ..Default::default()
    };
    let r = list.usage_report();
    let mut names: Vec<String> = r.directly_active.iter().map(|s| s.name.clone()).collect();
    names.extend(r.infrastructure.iter().map(|(s, _)| s.name.clone()));
    names.extend(r.idle.iter().map(|s| s.name.clone()));
    names.sort();
    assert_eq!(names, list.names_with(Evidence::Live).to_vec());
    assert_eq!(names, vec!["ib_core", "rdma_cm", "rpcrdma", "tcp_diag"]);
}

#[test]
fn used_and_never_used_make_up_the_known_ones() {
    let list = ModuleList {
        snapshots: vec![snap(0, parse_proc_modules(SAMPLE).unwrap())],
        ..Default::default()
    };
    assert_eq!(list.ever_used().to_vec(), vec!["ib_core", "rdma_cm", "rpcrdma"]);
    assert_eq!(list.never_used().to_vec(), vec!["tcp_diag"]);
}

#[test]
fn a_new_list_is_empty() {
    let list = ModuleList::new();
    assert!(list.snapshots.is_empty() && list.device_aliases.is_empty());
    assert!(list.modules_alias.is_empty() && list.pinned_configs.is_empty());
    assert!(list.safely_disableable_clusters().is_empty());
    assert_eq!(list.usage_report().snapshots, 0);
}

// ── Aliases ───────────────────────────────────────────────────────────────────

#[test]
fn globs() {
    assert!(glob_match("abc", "abc"));
    assert!(!glob_match("abc", "abd"));
    assert!(!glob_match("abc", "ab"));
    assert!(glob_match("a?c", "axc"));
    assert!(!glob_match("a?c", "ac"));
    assert!(glob_match("*", ""));
    assert!(glob_match("a*c", "abbbc"));
    assert!(glob_match("a*b*c", "axbxbxc"));
    assert!(!glob_match("a*c", "ab"));
    assert!(!glob_match("", "a"));
    assert!(glob_match("", ""));
    // A question mark stands for one byte.
    assert!(!glob_match("?", "é"));
    assert!(glob_match("??", "é"));
    assert!(glob_bytes(b"pci:v*d?", b"pci:v0001d2"));
}

#[test]
fn device_aliases_are_sorted_and_unique() {
    assert_eq!(
        parse_device_aliases("usb:b\n  pci:a  \n\nusb:b\n"),
        vec!["pci:a", "usb:b"]
    );
    assert!(parse_device_aliases("\n \n").is_empty());
}

#[test]
fn the_alias_map() {
    let pairs = parse_modules_alias(
        "# comment\nalias pci:v1* mod_a\n\n  alias usb:* mod_b  \nalias lonely\nsoftdep x\n",
    );
    assert_eq!(
        pairs,
        vec![
            ("pci:v1*".to_owned(), "mod_a".to_owned()),
            ("usb:*".to_owned(), "mod_b".to_owned()),
        ]
    );
}

#[test]
fn pins() {
    assert_eq!(pinned_configs_for_system(true), vec!["CRYPTO_LZ4", "CRYPTO_LZ4HC"]);
    assert!(pinned_configs_for_system(false).is_empty());
}

// ── Command lines ─────────────────────────────────────────────────────────────

fn args(words: &[&str]) -> Vec<String> {
    words.iter().map(|w| (*w).to_owned()).collect()
}

#[test]
fn kgather_command_lines() {
    assert!(parse_kgather_args(&args(&["kgather"])).is_none());
    let a = parse_kgather_args(&args(&["kgather", "out.json"])).unwrap();
    assert_eq!((a.output.as_str(), a.interval_secs, a.duration_secs), ("out.json", 10, None));
    let a = parse_kgather_args(&args(&["kgather", "o", "3", "--duration", "15"])).unwrap();
    assert_eq!((a.interval_secs, a.duration_secs), (3, Some(15)));
    let a = parse_kgather_args(&args(&["kgather", "o", "--duration", "15"])).unwrap();
    assert_eq!((a.interval_secs, a.duration_secs), (10, Some(15)));
    let a = parse_kgather_args(&args(&["kgather", "o", "x", "--duration"])).unwrap();
    assert_eq!((a.interval_secs, a.duration_secs), (10, None));
    let a = parse_kgather_args(&args(&["k", "o", "--duration", "x", "--duration", "2"])).unwrap();
    assert_eq!(a.duration_secs, None);
}

#[test]
fn ktinify_command_lines() {
    assert!(parse_ktinify_args(&args(&["k"])).is_none());
    let a = parse_ktinify_args(&args(&["k", "o", "7", "--duration", "15"])).unwrap();
    assert_eq!((a.interval_secs, a.duration_secs), (7, None));
}

#[test]
fn path_of_the_alias_map() {
    assert_eq!(modules_alias_path("6.8.12\n"), "/lib/modules/6.8.12/modules.alias");
}
