//! Holding the predictions for a variant against two builds of the kernel.
use crate::kbuild::maps::KernelModule;
use crate::kminimize::report::{
    add_line, add_lines, comma_list, join_comma, no_lines, wrap_each, wrapped,
};
use crate::kminimize::variants::DisableVariant;
use crate::names::{ascending, NameMap, NameSet};
use crate::number::{decimal, to_decimal};
use crate::paths::lists::{path_list, path_sorted};
use crate::paths::sets::{
    distinct_paths, each_once, has_path, lemma_each_once_kept, lemma_minus_paths, lemma_once_is_once,
    lemma_once_keeps_paths, lemma_union_paths, lemma_within_paths, path_difference,
    path_intersection, path_union, paths_minus, paths_once, paths_union, paths_within,
};
use crate::paths::steps::same_path;
use crate::reach::related;
use crate::text::{chars_of, same_text, starts_with, string_of, strip_suffix, texts, without_suffix};
use vstd::prelude::*;

verus! {

// ── Preparing the builds ──────────────────────────────────────────────────────

/// Whether a source is fetched over a network, and need not be fetched with its history.
pub open spec fn is_remote(url: Seq<char>) -> bool {
    "http://"@.is_prefix_of(url) || "https://"@.is_prefix_of(url) || "git://"@.is_prefix_of(url)
}

/// The arguments for git that clone the tag `ver` of `url` into `dest`.
pub open spec fn clone_arguments(url: Seq<char>, ver: Seq<char>, dest: Seq<char>) -> Seq<
    Seq<char>,
> {
    if is_remote(url) {
        seq!["clone"@, "--depth=1"@, "--branch"@, ver, url, dest]
    } else {
        seq!["clone"@, "--branch"@, ver, url, dest]
    }
}

/// Makes the arguments for git that clone the tag `ver` of `url` into `dest`.
pub fn clone_args(url: &str, ver: &str, dest: &str) -> (args: Vec<String>)
    ensures
        texts(args@) == clone_arguments(url@, ver@, dest@),
{
    let chars = chars_of(url);
    let u = chars.as_slice();
    let mut args = no_lines();
    add_line(&mut args, "clone".to_owned());
    if starts_with(u, "http://") || starts_with(u, "https://") || starts_with(u, "git://") {
        add_line(&mut args, "--depth=1".to_owned());
    }
    add_line(&mut args, "--branch".to_owned());
    add_line(&mut args, ver.to_owned());
    add_line(&mut args, url.to_owned());
    add_line(&mut args, dest.to_owned());
    assert(texts(args@) =~= clone_arguments(url@, ver@, dest@));
    args
}

/// The arguments for make that set the compiler.
pub open spec fn compiler_arguments(cc: Option<Seq<char>>) -> Seq<Seq<char>> {
    match cc {
        Some(c) => seq!["CC="@ + c, "HOSTCC="@ + c],
        None => seq![],
    }
}

/// Makes the arguments for make that set the compiler.
pub fn compiler_args(cc: Option<&str>) -> (args: Vec<String>)
    ensures
        texts(args@) == compiler_arguments(
            match cc {
                Some(c) => Some(c@),
                None => None,
            },
        ),
{
    let mut args = no_lines();
    if let Some(c) = cc {
        let mut target = "CC=".to_owned();
        target.append(c);
        add_line(&mut args, target);
        let mut host = "HOSTCC=".to_owned();
        host.append(c);
        add_line(&mut args, host);
        assert(texts(args@) =~= compiler_arguments(Some(c@)));
    }
    args
}

/// The lines that apply a variant to a `.config` file: the change, then `n` for every symbol that
/// must be disabled along with it.
pub open spec fn change_lines(v: DisableVariant) -> Seq<Seq<char>> {
    seq!["CONFIG_"@ + v.change.0@ + "="@ + v.change.1@] + wrapped(
        "CONFIG_"@,
        v.cascade_unconditional.names() + v.cascade_active.names(),
        "=n"@,
    )
}

/// Makes the lines that apply a variant to a `.config` file.
pub fn changes_of(v: &DisableVariant) -> (lines: Vec<String>)
    ensures
        texts(lines@) == change_lines(*v),
{
    let mut line = "CONFIG_".to_owned();
    line.append(v.change.0.as_str());
    line.append("=");
    line.append(v.change.1.as_str());
    let mut lines = no_lines();
    add_line(&mut lines, line);
    add_lines(&mut lines, wrap_each("CONFIG_", &v.cascade_configs(), "=n"));
    assert(texts(lines@) =~= change_lines(*v));
    lines
}

// ── What was built ────────────────────────────────────────────────────────────

/// Whether a directory holds no sources that are built.
pub open spec fn is_skipped_directory(name: Seq<char>) -> bool {
    name == ".git"@ || name == "Documentation"@ || name == "tools"@
}

/// Tests whether a directory holds no sources that are built.
pub fn skips_directory(name: &str) -> (yes: bool)
    ensures
        yes == is_skipped_directory(name@),
{
    same_text(name, ".git") || same_text(name, "Documentation") || same_text(name, "tools")
}

/// The name of the source file that the object file `name` is compiled from; nothing where `name`
/// is not an object file.
pub open spec fn source_of_object(name: Seq<char>) -> Option<Seq<char>> {
    match without_suffix(name, ".o"@) {
        Some(stem) => if stem.len() > 0 {
            Some(stem + ".c"@)
        } else {
            None
        },
        None => None,
    }
}

/// Gives the name of the source file that the object file `name` is compiled from.
pub fn source_name(name: &str) -> (source: Option<String>)
    ensures
        match source {
            Some(s) => source_of_object(name@) == Some(s@),
            None => source_of_object(name@) is None,
        },
{
    let chars = chars_of(name);
    match strip_suffix(chars.as_slice(), ".o") {
        Some(stem) => {
            if stem.len() == 0 {
                return None;
            }
            let mut source = string_of(stem);
            source.append(".c");
            Some(source)
        },
        None => None,
    }
}

// ── Comparing ─────────────────────────────────────────────────────────────────

/// What became of the predictions.
pub struct Comparison {
    /// Files of the module that are no longer compiled.
    pub removed_module: NameSet,
    /// Other files that are no longer compiled.
    pub removed_collateral: NameSet,
    /// Other files that are controlled by symbols which `make olddefconfig` disabled in addition.
    pub extra_files: NameSet,
    /// Other files that were expected to be no longer compiled.
    pub expected: NameSet,
    /// Files that were expected to go and stayed.
    pub false_positives: NameSet,
    /// Files that went and were not expected to.
    pub missed: NameSet,
}

/// Whether `file` is controlled by one of `symbols`.
pub open spec fn is_controlled(
    config_to_files: Map<Seq<char>, NameSet>,
    symbols: Set<Seq<char>>,
    file: Seq<char>,
) -> bool {
    exists|s: Seq<char>| #[trigger] symbols.contains(s) && related(config_to_files, s, file)
}

/// The files that are controlled by one of `symbols`.
pub open spec fn controlled(
    config_to_files: Map<Seq<char>, NameSet>,
    symbols: Set<Seq<char>>,
) -> Set<Seq<char>> {
    Set::new(|f: Seq<char>| is_controlled(config_to_files, symbols, f))
}

impl Comparison {
    /// Whether this is what the builds `before` and `after` show for a module with the files
    /// `module_files`, where `predicted` and the files of `extra_disabled` were expected to go. The
    /// spellings of one path stand for one file.
    pub open spec fn of(
        self,
        before: Set<Seq<char>>,
        after: Set<Seq<char>>,
        module_files: Set<Seq<char>>,
        predicted: Set<Seq<char>>,
        extra_disabled: Set<Seq<char>>,
        config_to_files: Map<Seq<char>, NameSet>,
    ) -> bool {
        let removed = paths_minus(paths_once(before), after);
        let extra = paths_once(controlled(config_to_files, extra_disabled));
        &&& self.removed_module@ == paths_within(removed, module_files)
        &&& self.removed_collateral@ == paths_minus(removed, module_files)
        &&& self.extra_files@ == paths_minus(extra, module_files)
        &&& self.expected@ == paths_union(paths_once(predicted), self.extra_files@)
        &&& self.false_positives@ == paths_minus(self.expected@, self.removed_collateral@)
        &&& self.missed@ == paths_minus(self.removed_collateral@, self.expected@)
    }

    /// Whether the predictions match reality exactly.
    pub fn passed(&self) -> (yes: bool)
        ensures
            yes == (self.false_positives@ == Set::<Seq<char>>::empty() && self.missed@ == Set::<
                Seq<char>,
            >::empty()),
    {
        self.false_positives.is_empty() && self.missed.is_empty()
    }
}

/// The files that the symbols control.
fn controlled_files(config_to_files: &NameMap<NameSet>, symbols: &NameSet) -> (files: NameSet)
    ensures
        files@ == controlled(config_to_files@, symbols@),
{
    let mut files = NameSet::new();
    let count: usize = symbols.len();
    let mut i: usize = 0;
    while i < count
        invariant
            i <= count,
            count == symbols.names().len(),
            forall|f: Seq<char>| #[trigger]
                files@.contains(f) ==> is_controlled(config_to_files@, symbols@, f),
            forall|k: int, f: Seq<char>|
                0 <= k < i && #[trigger] related(config_to_files@, symbols.names()[k], f)
                    ==> files@.contains(f),
        decreases count - i,
    {
        let symbol = symbols.get(i);
        match config_to_files.get(symbol.as_str()) {
            Some(more) => {
                files.insert_all(more);
            },
            None => {},
        }
        i += 1;
    }
    assert forall|f: Seq<char>| #[trigger] files@.contains(f) <==> is_controlled(
        config_to_files@,
        symbols@,
        f,
    ) by {
        if is_controlled(config_to_files@, symbols@, f) {
            let s = choose|s: Seq<char>| #[trigger]
                symbols@.contains(s) && related(config_to_files@, s, f);
            assert(symbols.names().contains(s));
            let k = choose|k: int| 0 <= k < symbols.names().len() && symbols.names()[k] == s;
            assert(related(config_to_files@, symbols.names()[k], f));
        }
    }
    assert(files@ =~= controlled(config_to_files@, symbols@));
    files
}

/// Holds the predictions against two builds.
pub fn compare_builds(
    before: &NameSet,
    after: &NameSet,
    module_files: &NameSet,
    predicted: &NameSet,
    extra_disabled: &NameSet,
    config_to_files: &NameMap<NameSet>,
) -> (c: Comparison)
    ensures
        c.of(
            before@,
            after@,
            module_files@,
            predicted@,
            extra_disabled@,
            config_to_files@,
        ),
{
    let removed = path_difference(&distinct_paths(before), after);
    let removed_module = path_intersection(&removed, module_files);
    let removed_collateral = path_difference(&removed, module_files);
    let extra = distinct_paths(&controlled_files(config_to_files, extra_disabled));
    let extra_files = path_difference(&extra, module_files);
    let expected = path_union(&distinct_paths(predicted), &extra_files);
    let false_positives = path_difference(&expected, &removed_collateral);
    let missed = path_difference(&removed_collateral, &expected);
    Comparison {
        removed_module,
        removed_collateral,
        extra_files,
        expected,
        false_positives,
        missed,
    }
}

/// The predictions match reality exactly just where the paths that were expected to go are those
/// that went, those of the module aside.
pub proof fn lemma_pass_is_exact(
    c: Comparison,
    before: Set<Seq<char>>,
    after: Set<Seq<char>>,
    module_files: Set<Seq<char>>,
    predicted: Set<Seq<char>>,
    extra_disabled: Set<Seq<char>>,
    config_to_files: Map<Seq<char>, NameSet>,
)
    requires
        before.finite(),
        c.of(before, after, module_files, predicted, extra_disabled, config_to_files),
    ensures
        (c.false_positives@ == Set::<Seq<char>>::empty() && c.missed@ == Set::<Seq<char>>::empty())
            <==> (forall|p: Seq<char>| #[trigger]
            has_path(c.expected@, p) <==> has_path(before, p) && !has_path(after, p) && !has_path(
                module_files,
                p,
            )),
{
    let gone = c.removed_collateral@;
    let removed = paths_minus(paths_once(before), after);
    assert forall|p: Seq<char>| #[trigger] has_path(gone, p) <==> has_path(before, p) && !has_path(
        after,
        p,
    ) && !has_path(module_files, p) by {
        lemma_minus_paths(removed, module_files, p);
        lemma_minus_paths(paths_once(before), after, p);
        lemma_once_keeps_paths(before, p);
    }
    if c.false_positives@ == Set::<Seq<char>>::empty() && c.missed@ == Set::<Seq<char>>::empty() {
        assert forall|p: Seq<char>| has_path(c.expected@, p) <==> has_path(gone, p) by {
            lemma_minus_paths(c.expected@, gone, p);
            lemma_minus_paths(gone, c.expected@, p);
        }
    }
    if forall|p: Seq<char>| #[trigger] has_path(c.expected@, p) <==> has_path(gone, p) {
        assert forall|f: Seq<char>| !c.false_positives@.contains(f) && !c.missed@.contains(f) by {
            if c.expected@.contains(f) {
                assert(has_path(c.expected@, f));
            }
            if gone.contains(f) {
                assert(has_path(gone, f));
            }
        }
        assert(c.false_positives@ =~= Set::<Seq<char>>::empty());
        assert(c.missed@ =~= Set::<Seq<char>>::empty());
    }
}

/// No set of a comparison holds a path in two spellings, so that what is counted are files.
pub proof fn lemma_files_count_once(
    c: Comparison,
    before: Set<Seq<char>>,
    after: Set<Seq<char>>,
    module_files: Set<Seq<char>>,
    predicted: Set<Seq<char>>,
    extra_disabled: Set<Seq<char>>,
    config_to_files: Map<Seq<char>, NameSet>,
)
    requires
        c.of(before, after, module_files, predicted, extra_disabled, config_to_files),
    ensures
        each_once(c.removed_module@),
        each_once(c.removed_collateral@),
        each_once(c.extra_files@),
        each_once(c.expected@),
        each_once(c.false_positives@),
        each_once(c.missed@),
{
    let removed = paths_minus(paths_once(before), after);
    let extra = controlled(config_to_files, extra_disabled);
    lemma_once_is_once(before);
    lemma_each_once_kept(paths_once(before), after);
    lemma_each_once_kept(removed, module_files);
    lemma_once_is_once(extra);
    lemma_each_once_kept(paths_once(extra), module_files);
    lemma_once_is_once(predicted);
    lemma_each_once_kept(paths_once(predicted), c.extra_files@);
    lemma_each_once_kept(c.expected@, c.removed_collateral@);
    lemma_each_once_kept(c.removed_collateral@, c.expected@);
}

// ── Reporting ─────────────────────────────────────────────────────────────────

/// The modules other than `except` that the symbol decides on.
pub open spec fn is_driven(
    modules: Map<Seq<char>, KernelModule>,
    symbol: Seq<char>,
    except: Seq<char>,
    n: Seq<char>,
) -> bool {
    modules.contains_key(n) && n != except && modules[n].module_config@ == symbol
}

/// Lists the modules other than `except` that the symbol decides on, by name.
pub fn driven_modules(modules: &NameMap<KernelModule>, symbol: &str, except: &str) -> (names: Vec<
    String,
>)
    ensures
        ascending(texts(names@)),
        forall|n: Seq<char>| #[trigger]
            texts(names@).contains(n) <==> is_driven(modules@, symbol@, except@, n),
{
    let mut set = NameSet::new();
    let count: usize = modules.len();
    let mut i: usize = 0;
    while i < count
        invariant
            i <= count,
            count == modules.keys().len(),
            forall|n: Seq<char>| #[trigger]
                set@.contains(n) ==> is_driven(modules@, symbol@, except@, n),
            forall|k: int|
                0 <= k < i && is_driven(modules@, symbol@, except@, #[trigger] modules.keys()[k])
                    ==> set@.contains(modules.keys()[k]),
        decreases count - i,
    {
        let name = modules.key_at(i);
        let m = modules.value_at(i);
        if !same_text(name.as_str(), except) && same_text(m.module_config.as_str(), symbol) {
            set.insert(name.clone());
        }
        i += 1;
    }
    let names = set.to_vec();
    assert forall|n: Seq<char>| #[trigger] texts(names@).contains(n) <==> is_driven(
        modules@,
        symbol@,
        except@,
        n,
    ) by {
        assert(set@.contains(n) <==> texts(names@).contains(n));
        if is_driven(modules@, symbol@, except@, n) {
            assert(modules.keys().contains(n));
        }
    }
    names
}

/// The line on a symbol that `make olddefconfig` disabled in addition, where `driven` are the other
/// modules that it decides on.
pub open spec fn extra_line(symbol: Seq<char>, driven: Seq<Seq<char>>) -> Seq<char> {
    if driven.len() == 0 {
        "    CONFIG_"@ + symbol + "=n"@
    } else {
        "    CONFIG_"@ + symbol + "=n  ⚠ also disables module(s): "@ + comma_list(driven)
    }
}

/// Writes the line on a symbol that `make olddefconfig` disabled in addition.
pub fn write_extra(symbol: &str, driven: &Vec<String>) -> (line: String)
    ensures
        line@ == extra_line(symbol@, texts(driven@)),
{
    let mut line = "    CONFIG_".to_owned();
    line.append(symbol);
    if driven.len() == 0 {
        line.append("=n");
    } else {
        line.append("=n  ⚠ also disables module(s): ");
        line.append(join_comma(driven).as_str());
    }
    line
}

/// Whether `line` is the line on `symbol`.
pub open spec fn is_extra_line(
    modules: Map<Seq<char>, KernelModule>,
    except: Seq<char>,
    symbol: Seq<char>,
    line: Seq<char>,
) -> bool {
    exists|driven: Seq<Seq<char>>|
        lists_driven(modules, symbol, except, driven) && line == #[trigger] extra_line(
            symbol,
            driven,
        )
}

/// Whether `names` lists the modules other than `except` that the symbol decides on, by name.
pub open spec fn lists_driven(
    modules: Map<Seq<char>, KernelModule>,
    symbol: Seq<char>,
    except: Seq<char>,
    names: Seq<Seq<char>>,
) -> bool {
    &&& ascending(names)
    &&& forall|n: Seq<char>| #[trigger]
        names.contains(n) <==> is_driven(modules, symbol, except, n)
}

/// Whether `lines` are the lines on the symbols that `make olddefconfig` disabled in addition, and on
/// the number of files that went with them.
pub open spec fn are_side_effect_lines(
    modules: Map<Seq<char>, KernelModule>,
    except: Seq<char>,
    symbols: Seq<Seq<char>>,
    files: nat,
    lines: Seq<Seq<char>>,
) -> bool {
    let n = symbols.len();
    if n == 0 {
        lines == Seq::<Seq<char>>::empty()
    } else {
        &&& lines.len() == n + 4
        &&& lines[0]
            == "── make olddefconfig side effects ──────────────────────────────────────────"@
        &&& lines[1] == "  Symbols additionally disabled by make olddefconfig: "@ + decimal(n)
        &&& forall|i: int|
            0 <= i < n ==> is_extra_line(modules, except, #[trigger] symbols[i], lines[i + 2])
        &&& lines[n as int + 2] == "  Files additionally removed (included in expected collateral): "@
            + decimal(files)
        &&& lines[n as int + 3] == ""@
    }
}

/// Writes the lines on the symbols that `make olddefconfig` disabled in addition to what was asked
/// for, where `except` is the module that was to be disabled.
pub fn report_side_effects(
    modules: &NameMap<KernelModule>,
    except: &str,
    extra_disabled: &NameSet,
    extra_files: &NameSet,
) -> (lines: Vec<String>)
    ensures
        are_side_effect_lines(
            modules@,
            except@,
            extra_disabled.names(),
            extra_files@.len(),
            texts(lines@),
        ),
{
    let ghost symbols = extra_disabled.names();
    let mut lines = no_lines();
    let count: usize = extra_disabled.len();
    if count == 0 {
        assert(texts(lines@) =~= seq![]);
        return lines;
    }
    add_line(
        &mut lines,
        "── make olddefconfig side effects ──────────────────────────────────────────".to_owned(),
    );
    let mut head = "  Symbols additionally disabled by make olddefconfig: ".to_owned();
    head.append(to_decimal(count as u128).as_str());
    let ghost first =
        "── make olddefconfig side effects ──────────────────────────────────────────"@;
    let ghost second = head@;
    add_line(&mut lines, head);
    let mut i: usize = 0;
    while i < count
        invariant
            i <= count,
            count == symbols.len(),
            symbols == extra_disabled.names(),
            texts(lines@).len() == i + 2,
            texts(lines@)[0] == first,
            texts(lines@)[1] == second,
            forall|k: int|
                0 <= k < i ==> is_extra_line(
                    modules@,
                    except@,
                    #[trigger] symbols[k],
                    texts(lines@)[k + 2],
                ),
        decreases count - i,
    {
        let symbol = extra_disabled.get(i);
        let driven = driven_modules(modules, symbol.as_str(), except);
        let line = write_extra(symbol.as_str(), &driven);
        let ghost before = texts(lines@);
        proof {
            assert(lists_driven(modules@, symbol@, except@, texts(driven@)));
            assert(is_extra_line(modules@, except@, symbol@, line@));
        }
        let ghost l = line@;
        add_line(&mut lines, line);
        assert(texts(lines@) =~= before.push(l));
        i += 1;
    }
    let ghost before = texts(lines@);
    let mut tail = "  Files additionally removed (included in expected collateral): ".to_owned();
    tail.append(to_decimal(extra_files.len() as u128).as_str());
    let ghost t = tail@;
    add_line(&mut lines, tail);
    add_line(&mut lines, "".to_owned());
    proof {
        assert(texts(lines@) =~= before.push(t).push(""@));
        assert forall|k: int| 0 <= k < symbols.len() implies is_extra_line(
            modules@,
            except@,
            #[trigger] symbols[k],
            texts(lines@)[k + 2],
        ) by {
            assert(texts(lines@)[k + 2] == before[k + 2]);
        }
    }
    lines
}

/// The line on the variant that is tried out.
pub open spec fn best_line(v: DisableVariant) -> Seq<char> {
    "Using best variant: CONFIG_"@ + v.change.0@ + "=n  ("@ + decimal(v.side_effect_files@.len())
        + " collateral files, "@ + decimal(
        v.cascade_count(),
    ) + " cascade configs, "@ + decimal(v.collateral_modules@.len()) + " collateral modules)"@
}

/// Writes the line on the variant that is tried out.
pub fn write_best(v: &DisableVariant) -> (line: String)
    ensures
        line@ == best_line(*v),
{
    let mut line = "Using best variant: CONFIG_".to_owned();
    line.append(v.change.0.as_str());
    line.append("=n  (");
    line.append(to_decimal(v.side_effect_files.len() as u128).as_str());
    line.append(" collateral files, ");
    line.append(to_decimal(v.cascade_len()).as_str());
    line.append(" cascade configs, ");
    line.append(to_decimal(v.collateral_modules.len() as u128).as_str());
    line.append(" collateral modules)");
    line
}

/// The lines on what was counted: `static_count` is how many files the variant itself predicted.
pub open spec fn count_lines(c: Comparison, module_count: nat, static_count: nat) -> Seq<
    Seq<char>,
> {
    seq![
        "── Self-test results ─────────────────────────────────────────────────────"@,
        "  Module files removed from build : "@ + decimal(c.removed_module@.len()) + "/"@ + decimal(
            module_count,
        ),
        "  Collateral files removed         : "@ + decimal(c.removed_collateral@.len()),
        "  Collateral files predicted        : "@ + decimal(c.expected@.len()) + " ("@ + decimal(
            static_count,
        ) + " static + "@ + decimal(c.extra_files@.len()) + " from olddefconfig)"@,
    ]
}

/// The lines on files that were expected to go and stayed.
pub open spec fn false_positive_lines(files: Seq<Seq<char>>) -> Seq<Seq<char>> {
    if files.len() == 0 {
        seq![]
    } else {
        seq![
            "  FALSE POSITIVES (predicted but build did not remove, "@ + decimal(files.len())
                + "):"@,
        ] + wrapped("    "@, files, ""@)
    }
}

/// The lines on files that went and were not expected to.
pub open spec fn missed_lines(files: Seq<Seq<char>>) -> Seq<Seq<char>> {
    if files.len() == 0 {
        seq![]
    } else {
        seq!["  MISSED (build removed but not predicted, "@ + decimal(files.len()) + "):"@]
            + wrapped("    "@, files, ""@)
    }
}

/// The lines with the verdict.
pub open spec fn verdict_lines(c: Comparison) -> Seq<Seq<char>> {
    let fps = c.false_positives.names();
    let missed = c.missed.names();
    if fps.len() == 0 && missed.len() == 0 {
        seq![""@, "  PASS: predictions match reality exactly"@]
    } else {
        seq![""@] + false_positive_lines(path_sorted(fps)) + missed_lines(path_sorted(missed))
            + seq![""@, "  FAIL"@]
    }
}

/// Writes the lines on what was counted.
pub fn report_counts(c: &Comparison, module_count: usize, static_count: usize) -> (lines: Vec<
    String,
>)
    ensures
        texts(lines@) == count_lines(*c, module_count as nat, static_count as nat),
{
    let mut lines = no_lines();
    add_line(
        &mut lines,
        "── Self-test results ─────────────────────────────────────────────────────".to_owned(),
    );
    let mut removed = "  Module files removed from build : ".to_owned();
    removed.append(to_decimal(c.removed_module.len() as u128).as_str());
    removed.append("/");
    removed.append(to_decimal(module_count as u128).as_str());
    add_line(&mut lines, removed);
    let mut collateral = "  Collateral files removed         : ".to_owned();
    collateral.append(to_decimal(c.removed_collateral.len() as u128).as_str());
    add_line(&mut lines, collateral);
    let mut predicted = "  Collateral files predicted        : ".to_owned();
    predicted.append(to_decimal(c.expected.len() as u128).as_str());
    predicted.append(" (");
    predicted.append(to_decimal(static_count as u128).as_str());
    predicted.append(" static + ");
    predicted.append(to_decimal(c.extra_files.len() as u128).as_str());
    predicted.append(" from olddefconfig)");
    add_line(&mut lines, predicted);
    assert(texts(lines@) =~= count_lines(*c, module_count as nat, static_count as nat));
    lines
}

fn report_false_positives(files: &Vec<String>) -> (lines: Vec<String>)
    ensures
        texts(lines@) == false_positive_lines(texts(files@)),
{
    let mut lines = no_lines();
    if files.len() > 0 {
        let mut head = "  FALSE POSITIVES (predicted but build did not remove, ".to_owned();
        head.append(to_decimal(files.len() as u128).as_str());
        head.append("):");
        add_line(&mut lines, head);
        add_lines(&mut lines, wrap_each("    ", files, ""));
    }
    assert(texts(lines@) =~= false_positive_lines(texts(files@)));
    lines
}

fn report_missed(files: &Vec<String>) -> (lines: Vec<String>)
    ensures
        texts(lines@) == missed_lines(texts(files@)),
{
    let mut lines = no_lines();
    if files.len() > 0 {
        let mut head = "  MISSED (build removed but not predicted, ".to_owned();
        head.append(to_decimal(files.len() as u128).as_str());
        head.append("):");
        add_line(&mut lines, head);
        add_lines(&mut lines, wrap_each("    ", files, ""));
    }
    assert(texts(lines@) =~= missed_lines(texts(files@)));
    lines
}

/// Writes the lines with the verdict.
pub fn report_verdict(c: &Comparison) -> (lines: Vec<String>)
    ensures
        texts(lines@) == verdict_lines(*c),
{
    let mut lines = no_lines();
    add_line(&mut lines, "".to_owned());
    if c.false_positives.is_empty() && c.missed.is_empty() {
        add_line(&mut lines, "  PASS: predictions match reality exactly".to_owned());
    } else {
        add_lines(&mut lines, report_false_positives(&path_list(&c.false_positives)));
        add_lines(&mut lines, report_missed(&path_list(&c.missed)));
        add_line(&mut lines, "".to_owned());
        add_line(&mut lines, "  FAIL".to_owned());
    }
    assert(texts(lines@) =~= verdict_lines(*c));
    lines
}

// ── Laws on the sets ──────────────────────────────────────────────────────────

/// Whether one of the symbols controls a file with the path `p`.
pub open spec fn controls_path(
    config_to_files: Map<Seq<char>, NameSet>,
    symbols: Set<Seq<char>>,
    p: Seq<char>,
) -> bool {
    exists|s: Seq<char>|
        #![trigger config_to_files[s]]
        symbols.contains(s) && config_to_files.contains_key(s) && has_path(config_to_files[s]@, p)
}

proof fn lemma_controlled_is_finite(
    config_to_files: Map<Seq<char>, NameSet>,
    symbols: Set<Seq<char>>,
)
    requires
        symbols.finite(),
    ensures
        controlled(config_to_files, symbols).finite(),
    decreases symbols.len(),
{
    let all = controlled(config_to_files, symbols);
    if symbols.len() == 0 {
        assert(symbols =~= Set::empty());
        assert(all =~= Set::empty());
    } else {
        let s = symbols.choose();
        let rest = symbols.remove(s);
        lemma_controlled_is_finite(config_to_files, rest);
        let own = if config_to_files.contains_key(s) {
            config_to_files[s]@
        } else {
            Set::empty()
        };
        if config_to_files.contains_key(s) {
            vstd::seq_lib::seq_to_set_is_finite(config_to_files[s].names());
        }
        assert forall|f: Seq<char>| all.contains(f) <==> controlled(
            config_to_files,
            rest,
        ).union(own).contains(f) by {
            if all.contains(f) {
                let t = choose|t: Seq<char>| #[trigger]
                    symbols.contains(t) && related(config_to_files, t, f);
                if t != s {
                    assert(rest.contains(t));
                }
            }
            if controlled(config_to_files, rest).contains(f) {
                let t = choose|t: Seq<char>| #[trigger]
                    rest.contains(t) && related(config_to_files, t, f);
                assert(symbols.contains(t));
            }
            if own.contains(f) {
                assert(symbols.contains(s) && related(config_to_files, s, f));
            }
        }
        assert(all =~= controlled(config_to_files, rest).union(own));
    }
}

/// What a comparison says of each path: it went if it was built before and is not after; it was
/// expected to go if it was predicted, or if a symbol that was disabled in addition controls it and
/// it is not the module's; and it is a fault if it went and was not expected to, or the other way
/// round, the paths of the module aside.
pub proof fn lemma_comparison_by_path(
    c: Comparison,
    before: Set<Seq<char>>,
    after: Set<Seq<char>>,
    module_files: Set<Seq<char>>,
    predicted: Set<Seq<char>>,
    extra_disabled: Set<Seq<char>>,
    config_to_files: Map<Seq<char>, NameSet>,
    p: Seq<char>,
)
    requires
        before.finite(),
        predicted.finite(),
        extra_disabled.finite(),
        c.of(before, after, module_files, predicted, extra_disabled, config_to_files),
    ensures
        has_path(c.removed_module@, p) <==> has_path(before, p) && !has_path(after, p) && has_path(
            module_files,
            p,
        ),
        has_path(c.removed_collateral@, p) <==> has_path(before, p) && !has_path(after, p)
            && !has_path(module_files, p),
        has_path(c.extra_files@, p) <==> controls_path(config_to_files, extra_disabled, p)
            && !has_path(module_files, p),
        has_path(c.expected@, p) <==> has_path(predicted, p) || has_path(c.extra_files@, p),
        has_path(c.false_positives@, p) <==> has_path(c.expected@, p) && !has_path(
            c.removed_collateral@,
            p,
        ),
        has_path(c.missed@, p) <==> has_path(c.removed_collateral@, p) && !has_path(
            c.expected@,
            p,
        ),
{
    let removed = paths_minus(paths_once(before), after);
    let all = controlled(config_to_files, extra_disabled);
    lemma_once_keeps_paths(before, p);
    lemma_minus_paths(paths_once(before), after, p);
    lemma_within_paths(removed, module_files, p);
    lemma_minus_paths(removed, module_files, p);
    lemma_controlled_is_finite(config_to_files, extra_disabled);
    lemma_once_keeps_paths(all, p);
    lemma_minus_paths(paths_once(all), module_files, p);
    lemma_once_keeps_paths(predicted, p);
    lemma_union_paths(paths_once(predicted), c.extra_files@, p);
    lemma_minus_paths(c.expected@, c.removed_collateral@, p);
    lemma_minus_paths(c.removed_collateral@, c.expected@, p);
    assert(has_path(all, p) <==> controls_path(config_to_files, extra_disabled, p)) by {
        if has_path(all, p) {
            let f = choose|f: Seq<char>| #[trigger] all.contains(f) && same_path(f, p);
            let s = choose|s: Seq<char>| #[trigger]
                extra_disabled.contains(s) && related(config_to_files, s, f);
            assert(config_to_files[s]@.contains(f));
            assert(has_path(config_to_files[s]@, p));
        }
        if controls_path(config_to_files, extra_disabled, p) {
            let s = choose|s: Seq<char>|
                #![trigger config_to_files[s]]
                extra_disabled.contains(s) && config_to_files.contains_key(s) && has_path(
                    config_to_files[s]@,
                    p,
                );
            let f = choose|f: Seq<char>| #[trigger]
                config_to_files[s]@.contains(f) && same_path(f, p);
            assert(extra_disabled.contains(s) && related(config_to_files, s, f));
            assert(all.contains(f));
        }
    }
}

/// A variant is applied by setting its symbol to what it says, and every symbol that has to be
/// disabled along, of either list, to `n`.
pub proof fn lemma_change_disables_all(v: DisableVariant, n: Seq<char>)
    requires
        v.cascade_unconditional@.contains(n) || v.cascade_active@.contains(n),
    ensures
        change_lines(v)[0] == "CONFIG_"@ + v.change.0@ + "="@ + v.change.1@,
        change_lines(v).contains("CONFIG_"@ + n + "=n"@),
        change_lines(v).len() == 1 + v.cascade_unconditional.names().len()
            + v.cascade_active.names().len(),
{
    let names = v.cascade_unconditional.names() + v.cascade_active.names();
    assert(names.contains(n)) by {
        if v.cascade_unconditional@.contains(n) {
            let i = choose|i: int|
                0 <= i < v.cascade_unconditional.names().len() && v.cascade_unconditional.names()[i]
                    == n;
            assert(names[i] == n);
        } else {
            let i = choose|i: int|
                0 <= i < v.cascade_active.names().len() && v.cascade_active.names()[i] == n;
            assert(names[v.cascade_unconditional.names().len() + i] == n);
        }
    }
    let i = choose|i: int| 0 <= i < names.len() && names[i] == n;
    assert(change_lines(v)[i + 1] == "CONFIG_"@ + n + "=n"@);
}

/// The modules that a symbol decides on are all those that it builds, but for the one left out.
pub proof fn lemma_driven_by_symbol(
    modules: Map<Seq<char>, KernelModule>,
    symbol: Seq<char>,
    except: Seq<char>,
    n: Seq<char>,
)
    requires
        modules.contains_key(n),
        modules[n].module_config@ == symbol,
    ensures
        is_driven(modules, symbol, except, n) <==> n != except,
        !is_driven(modules, symbol, n, n),
{
}

} // verus!
