use kminimize::gcov::{
    covered_files, detect_kernel_root_in_gcov, has_coverage, is_kernel_root, source_file,
    CoverageFile, FormatFault, Listing,
};
use kminimize::kbuild::expr::ConfigExpr;
use kminimize::kbuild::makefile::KbuildLoader;
use kminimize::kbuild::maps::KbuildMaps;
use kminimize::names::{NameMap, NameSet};

fn names(list: &[&str]) -> NameSet {
    let mut set = NameSet::new();
    for n in list {
        set.insert((*n).to_owned());
    }
    set
}

fn symbol(name: &str) -> ConfigExpr {
    ConfigExpr::Symbol(name.to_owned())
}

fn and(a: ConfigExpr, b: ConfigExpr) -> ConfigExpr {
    ConfigExpr::And(Box::new(a), Box::new(b))
}

fn or(a: ConfigExpr, b: ConfigExpr) -> ConfigExpr {
    ConfigExpr::Or(Box::new(a), Box::new(b))
}

// ── Conditions ────────────────────────────────────────────────────────────────

#[test]
fn config_expr_eval_symbol() {
    let e = symbol("FOO");
    assert!(e.eval(&names(&["FOO"])));
    assert!(!e.eval(&names(&["BAR"])));
    assert!(ConfigExpr::Always.eval(&names(&[])));
    assert!(ConfigExpr::Not(Box::new(symbol("FOO"))).eval(&names(&[])));
}

#[test]
fn config_expr_eval_and() {
    let e = and(symbol("A"), symbol("B"));
    assert!(e.eval(&names(&["A", "B"])));
    assert!(!e.eval(&names(&["A"])));
    let o = or(symbol("A"), symbol("B"));
    assert!(o.eval(&names(&["B"])));
    assert!(!o.eval(&names(&[])));
}

#[test]
fn symbols_of_conditions() {
    let e = and(or(symbol("B"), ConfigExpr::Always), ConfigExpr::Not(Box::new(symbol("A"))));
    assert_eq!(e.symbols().to_vec(), vec!["A", "B"]);
}

#[test]
fn control_is_more_than_mention() {
    assert!(and(symbol("A"), symbol("B")).is_controlled_by("A"));
    assert!(or(symbol("A"), symbol("B")).is_controlled_by("A"));
    assert!(!or(symbol("A"), ConfigExpr::Always).is_controlled_by("A"));
    assert!(!or(symbol("A"), and(symbol("A"), symbol("B"))).is_controlled_by("B"));
    assert!(!ConfigExpr::Not(Box::new(symbol("A"))).is_controlled_by("A"));
    assert!(!symbol("A").is_controlled_by("B"));
}

fn maps(files: Vec<(&str, ConfigExpr)>) -> KbuildMaps {
    let mut map = NameMap::new();
    for (f, e) in files {
        map.insert(f.to_owned(), e);
    }
    KbuildMaps::from_files(map, NameMap::new())
}

#[test]
fn configs_safe_to_disable_respects_shared_files() {
    let m = maps(vec![
        ("foo.c", symbol("FOO")),
        ("shared.c", or(symbol("FOO"), symbol("BAR"))),
        ("bar.c", symbol("BAR")),
        ("lone.c", symbol("LONE")),
        ("core.c", ConfigExpr::Always),
    ]);
    // FOO also controls shared.c, which is covered.
    assert_eq!(
        m.configs_safe_to_disable(&names(&["foo.c", "bar.c", "lone.c"])).to_vec(),
        vec!["LONE"]
    );
    assert_eq!(
        m.configs_safe_to_disable(&names(&["foo.c", "shared.c", "core.c"])).to_vec(),
        vec!["FOO"]
    );
    assert!(m.configs_safe_to_disable(&names(&["core.c"])).is_empty());
    let nested = maps(vec![("d/a.c", symbol("A")), ("d/b.c", symbol("B"))]);
    assert_eq!(nested.configs_safe_to_disable(&names(&["d//a.c"])).to_vec(), vec!["A"]);
}

#[test]
fn a_safe_config_keeps_the_covered_files() {
    let m = maps(vec![("a.c", and(symbol("A"), symbol("B"))), ("b.c", symbol("B"))]);
    let safe = m.configs_safe_to_disable(&names(&["a.c"]));
    assert_eq!(safe.to_vec(), vec!["A"]);
    assert!(m.file_to_expr().get("b.c").unwrap().eval(&names(&["B"])));
}

#[test]
fn files_by_config() {
    let m = maps(vec![
        ("a.c", and(symbol("A"), symbol("B"))),
        ("b.c", symbol("B")),
        ("c.c", ConfigExpr::Always),
    ]);
    assert_eq!(m.config_to_files().get("B").unwrap().to_vec(), vec!["a.c", "b.c"]);
    assert_eq!(m.config_to_files().get("A").unwrap().to_vec(), vec!["a.c"]);
    assert_eq!(m.config_to_files().len(), 2);
    assert_eq!(m.file_to_expr().len(), 3);
}

// ── Makefiles ─────────────────────────────────────────────────────────────────

fn load(files: &[(&str, &str)]) -> (KbuildMaps, Vec<String>) {
    let mut loader = KbuildLoader::new();
    let mut dirs = Vec::new();
    while let Some((dir, cond)) = loader.next_dir() {
        if let Some((_, text)) = files.iter().find(|f| f.0 == dir) {
            loader.add_makefile(&dir, &cond, text);
        }
        dirs.push(dir);
    }
    (KbuildMaps::load(loader), dirs)
}

#[test]
fn a_tree_of_makefiles() {
    let (m, dirs) = load(&[
        ("", "obj-y += init/\nobj-$(CONFIG_NET) += net/ # the network\n"),
        ("init/", "obj-y := main.o \\\n  version.o\n"),
        (
            "net/",
            "obj-$(CONFIG_NFSD) += nfsd.o\nnfsd-y := a.o\nnfsd-$(CONFIG_NFSD_V4) += b-4.o\n\
             obj-m += plain.o\nobj-$(CONFIG_NET) += snd-hda.o ../net/\nccflags-y := -Iinc\n",
        ),
    ]);
    assert_eq!(dirs, vec!["", "init/", "net/"]);
    let cond = |f: &str| m.file_to_expr().get(f).unwrap().clone();
    assert_eq!(cond("init/main.c"), ConfigExpr::Always);
    assert_eq!(cond("init/version.c"), ConfigExpr::Always);
    assert_eq!(cond("net/a.c"), and(symbol("NET"), symbol("NFSD")));
    assert_eq!(
        cond("net/b-4.c"),
        and(and(symbol("NET"), symbol("NFSD")), symbol("NFSD_V4"))
    );
    assert_eq!(cond("net/plain.c"), symbol("NET"));
    assert!(m.file_to_expr().get("net/nfsd.c").is_none());
    let nfsd = m.module("nfsd").unwrap();
    assert_eq!(nfsd.module_config, "NFSD");
    assert_eq!(nfsd.files, vec!["net/a.c", "net/b-4.c"]);
    assert_eq!(m.module("snd_hda").unwrap().files, vec!["net/snd-hda.c"]);
    assert!(m.module("plain").is_none());
    assert_eq!(m.modules().len(), 2);
}

#[test]
fn a_directory_in_two_places() {
    let (m, dirs) = load(&[
        ("", "obj-$(CONFIG_USB) += drivers/usb/\nobj-y += drivers/\n"),
        ("drivers/", "obj-$(CONFIG_PHY) += usb/\nobj-$(CONFIG_SUPPORT) += usb/ ./ /abs/ a/../b/\n"),
        ("drivers/usb/", "obj-y += core.o\n"),
    ]);
    assert_eq!(dirs, vec!["", "drivers/", "drivers/usb/"]);
    assert_eq!(
        *m.file_to_expr().get("drivers/usb/core.c").unwrap(),
        or(or(symbol("USB"), symbol("PHY")), symbol("SUPPORT"))
    );
    assert_eq!(m.config_to_files().len(), 3);
}

#[test]
fn control_is_found_among_many_symbols() {
    let mut any = symbol("S00");
    for i in 1..40 {
        any = or(any, symbol(&format!("S{i:02}")));
    }
    let both = and(any.clone(), symbol("T"));
    assert!(both.is_controlled_by("S20"));
    assert!(both.is_controlled_by("T"));
    assert!(!or(both, symbol("T")).is_controlled_by("S20"));
}

#[test]
fn source_files_stay_in_the_tree() {
    let (m, _) = load(&[
        ("", "obj-y += /x.o ../y.o a/ ./z.o\n"),
        (
            "a/",
            "obj-$(CONFIG_KVM) += kvm.o\nkvm-y := ../virt/main.o own.o ../../out.o /abs.o\n\
             obj-$(CONFIG_S) += sub/drv-x.o\n",
        ),
    ]);
    let mut files = Vec::new();
    for i in 0..m.file_to_expr().len() {
        files.push(m.file_to_expr().key_at(i).as_str());
    }
    assert_eq!(files, vec!["a/own.c", "a/sub/drv-x.c", "virt/main.c", "z.c"]);
    assert_eq!(m.module("kvm").unwrap().files, vec!["virt/main.c", "a/own.c"]);
    assert_eq!(m.module("drv_x").unwrap().files, vec!["a/sub/drv-x.c"]);
    assert_eq!(m.config_to_files().get("KVM").unwrap().to_vec(), vec!["a/own.c", "virt/main.c"]);
}

#[test]
fn a_file_in_two_places() {
    let (m, _) = load(&[("", "obj-$(CONFIG_A) += x.o\nobj-$(CONFIG_B) += x.o\nlib-y += y.o\n")]);
    assert_eq!(*m.file_to_expr().get("x.c").unwrap(), or(symbol("A"), symbol("B")));
    assert_eq!(*m.file_to_expr().get("y.c").unwrap(), ConfigExpr::Always);
}

// ── Coverage files ────────────────────────────────────────────────────────────

fn words(list: &[u32], little: bool) -> Vec<u8> {
    let mut out = Vec::new();
    for w in list {
        let b = if little { w.to_le_bytes() } else { w.to_be_bytes() };
        out.extend_from_slice(&b);
    }
    out
}

const MAGIC: u32 = 0x67636461;
const OLD: u32 = 0x41393452; // A94R
const NEW: u32 = 0x42323252; // B22R
const FUNCTION: u32 = 0x01000000;
const ARCS: u32 = 0x01a10000;

#[test]
fn has_coverage_zero_counters() {
    let old = [MAGIC, OLD, 7, FUNCTION, 3, 1, 2, 3, ARCS, 4, 0, 0, 0, 0, 0];
    assert_eq!(has_coverage(&words(&old, true)), Ok(false));
    assert_eq!(has_coverage(&words(&old, false)), Ok(false));
    let new = [MAGIC, NEW, 7, 9, FUNCTION, 12, 1, 2, 3, ARCS, 8, 0, 0];
    assert_eq!(has_coverage(&words(&new, true)), Ok(false));
    // A negative length stands for counters that are all zero.
    let none = [MAGIC, NEW, 7, 9, ARCS, 0u32.wrapping_sub(16), ARCS, 8, 0, 0];
    assert_eq!(has_coverage(&words(&none, true)), Ok(false));
}

#[test]
fn has_coverage_nonzero_counters() {
    let old = [MAGIC, OLD, 7, FUNCTION, 3, 1, 2, 3, ARCS, 4, 0, 0, 5, 0];
    assert_eq!(has_coverage(&words(&old, true)), Ok(true));
    assert_eq!(has_coverage(&words(&old, false)), Ok(true));
    let new = [MAGIC, NEW, 7, 9, FUNCTION, 12, 1, 2, 3, ARCS, 8, 0, 1];
    assert_eq!(has_coverage(&words(&new, true)), Ok(true));
}

#[test]
fn files_that_are_no_coverage_files() {
    assert_eq!(has_coverage(b"gc"), Err(FormatFault::NoMagic));
    assert_eq!(has_coverage(b"gcno0000"), Err(FormatFault::NoMagic));
    assert_eq!(has_coverage(&words(&[MAGIC, OLD], true)), Err(FormatFault::Truncated));
    assert_eq!(has_coverage(&words(&[MAGIC, NEW, 7], true)), Err(FormatFault::Truncated));
    assert_eq!(has_coverage(&words(&[MAGIC, OLD, 7, ARCS], true)), Err(FormatFault::Truncated));
    assert_eq!(
        has_coverage(&words(&[MAGIC, OLD, 7, ARCS, 2, 0], true)),
        Err(FormatFault::Truncated)
    );
    let mut odd = words(&[MAGIC, OLD, 7], true);
    odd.push(1);
    assert_eq!(has_coverage(&odd), Err(FormatFault::Truncated));
    assert_eq!(has_coverage(&words(&[MAGIC, OLD, 7], true)), Ok(false));
    assert_eq!(FormatFault::NoMagic.reason(), "bad magic number");
    assert_eq!(FormatFault::Truncated.reason(), "unexpected end of file");
}

fn listing(path: &str, files: &[&str], dirs: &[&str]) -> Listing {
    Listing { path: path.to_owned(), files: names(files), dirs: names(dirs) }
}

#[test]
fn detect_kernel_root_finds_correct_subtree() {
    let walk = vec![
        listing("/g", &[], &["home"]),
        listing("/g/home", &["Makefile"], &["drivers", "include"]),
        listing("/g/home/linux", &["Makefile"], &["arch", "drivers", "include", "net"]),
        listing("/g/home/linux/copy", &["Makefile"], &["arch", "drivers", "include"]),
    ];
    assert_eq!(detect_kernel_root_in_gcov(&walk), Some(2));
    assert!(is_kernel_root(&walk[3]));
    assert_eq!(detect_kernel_root_in_gcov(&walk[..2].iter().map(|l| listing(&l.path, &[], &[])).collect()), None);
}

#[test]
fn sources_of_coverage_files() {
    assert_eq!(
        source_file("/g/linux", "/g/linux/drivers/usb/core/usb.gcda").as_deref(),
        Some("drivers/usb/core/usb.c")
    );
    assert_eq!(source_file("x/", "x/a.gcda").as_deref(), Some("a.c"));
    assert_eq!(source_file("/", "/a.gcda").as_deref(), Some("a.c"));
    assert_eq!(source_file("x/", "xa.gcda"), None);
    assert_eq!(source_file("/g/linux", "/g/linux/a.gcno"), None);
    assert_eq!(source_file("/g/linux", "/g/linux2/a.gcda"), None);
    let files = vec![
        CoverageFile { path: "/r/a.gcda".to_owned(), fired: true },
        CoverageFile { path: "/r/b.gcda".to_owned(), fired: false },
        CoverageFile { path: "/x/c.gcda".to_owned(), fired: true },
        CoverageFile { path: "/r/d/e.gcda".to_owned(), fired: true },
    ];
    assert_eq!(covered_files("/r", &files).to_vec(), vec!["a.c", "d/e.c"]);
    assert_eq!(covered_files("/r/", &files).to_vec(), vec!["a.c", "d/e.c"]);
    let spelled = vec![
        CoverageFile { path: "/r//d/e.gcda".to_owned(), fired: true },
        CoverageFile { path: "/r/d//e.gcda".to_owned(), fired: true },
        CoverageFile { path: "//r/./d/e.gcda".to_owned(), fired: true },
    ];
    assert_eq!(covered_files("/./r//", &spelled).to_vec(), vec!["d/e.c"]);
}
