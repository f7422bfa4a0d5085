//! Which source files are built under which conditions, and which symbols control them.
use crate::kbuild::expr::{
    cond_holds, cond_symbols, controls, lemma_control_is_by_one_symbol, lemma_controlled_mentions,
    lemma_uncontrolled_stays, Cond, ConfigExpr,
};
use crate::names::{NameMap, NameSet};
use crate::paths::sets::{has_path, leave_out, plain_forms};
use crate::paths::steps::plain_form;
use crate::reach::{relate, related};
use crate::text::texts;
use vstd::prelude::*;

verus! {

/// A module that the kernel's Makefiles build.
#[derive(Debug, Clone)]
pub struct KernelModule {
    pub name: String,
    /// The symbol that decides whether the module is built, without its `CONFIG_` prefix.
    pub module_config: String,
    /// The source files of the module, relative to the root of the source tree.
    pub files: Vec<String>,
}

/// What a module is.
pub ghost struct ModuleView {
    pub name: Seq<char>,
    pub config: Seq<char>,
    pub files: Seq<Seq<char>>,
}

impl View for KernelModule {
    type V = ModuleView;

    open spec fn view(&self) -> ModuleView {
        ModuleView {
            name: self.name@,
            config: self.module_config@,
            files: texts(self.files@),
        }
    }
}

/// What several modules are.
pub open spec fn module_views(modules: Map<Seq<char>, KernelModule>) -> Map<Seq<char>, ModuleView> {
    modules.map_values(|m: KernelModule| m@)
}

/// The mappings produced by parsing the kernel Makefile tree.
pub struct KbuildMaps {
    /// CONFIG symbol to the set of source files (relative to kernel root) it controls.
    ///
    /// A CONFIG is in this map only when setting it to `n` would stop at least one file from being
    /// compiled. Files that are `Always` compiled are not reachable from this map.
    config_to_files: NameMap<NameSet>,
    /// Source file (relative to kernel root) to boolean CONFIG expression.
    ///
    /// The expression encodes the conjunction of all `obj-$(CONFIG_X)` and subdirectory conditions
    /// on the path from the root Makefile to this file.
    file_to_expr: NameMap<ConfigExpr>,
    /// The modules, by name.
    modules: NameMap<KernelModule>,
}

/// What the conditions of files say.
pub open spec fn cond_views(files: Map<Seq<char>, ConfigExpr>) -> Map<Seq<char>, Cond> {
    files.map_values(|e: ConfigExpr| e@)
}

/// Whether setting `config` to `n` can stop `file` from being compiled.
pub open spec fn stops(files: Map<Seq<char>, Cond>, config: Seq<char>, file: Seq<char>) -> bool {
    files.contains_key(file) && controls(files[file], config)
}

/// Whether setting `config` to `n` can stop any file from being compiled.
pub open spec fn stops_any(files: Map<Seq<char>, Cond>, config: Seq<char>) -> bool {
    exists|file: Seq<char>| stops(files, config, file)
}

impl View for KbuildMaps {
    type V = Map<Seq<char>, Cond>;

    closed spec fn view(&self) -> Map<Seq<char>, Cond> {
        cond_views(self.file_to_expr@)
    }
}

impl KbuildMaps {
    #[verifier::type_invariant]
    spec fn matches_files(self) -> bool {
        &&& forall|c: Seq<char>, f: Seq<char>| #[trigger]
            related(self.config_to_files@, c, f) <==> stops(cond_views(self.file_to_expr@), c, f)
        &&& forall|c: Seq<char>| #[trigger]
            self.config_to_files@.contains_key(c) <==> stops_any(
                cond_views(self.file_to_expr@),
                c,
            )
    }

    /// The modules.
    pub closed spec fn module_map(self) -> Map<Seq<char>, KernelModule> {
        self.modules@
    }

    /// Builds the maps from the files, their conditions and the modules.
    pub fn from_files(file_to_expr: NameMap<ConfigExpr>, modules: NameMap<KernelModule>) -> (maps:
        KbuildMaps)
        ensures
            maps@ == cond_views(file_to_expr@),
            maps.module_map() == modules@,
    {
        let ghost files = cond_views(file_to_expr@);
        let mut map: NameMap<NameSet> = NameMap::new();
        let count: usize = file_to_expr.len();
        let mut i: usize = 0;
        while i < count
            invariant
                i <= count,
                count == file_to_expr.keys().len(),
                files == cond_views(file_to_expr@),
                forall|c: Seq<char>, f: Seq<char>| #[trigger]
                    related(map@, c, f) ==> stops(files, c, f),
                forall|k: int, c: Seq<char>|
                    0 <= k < i && stops(files, c, file_to_expr.keys()[k]) ==> #[trigger] related(
                        map@,
                        c,
                        file_to_expr.keys()[k],
                    ),
                forall|c: Seq<char>| #[trigger]
                    map@.contains_key(c) ==> exists|f: Seq<char>| related(map@, c, f),
            decreases count - i,
        {
            let file = file_to_expr.key_at(i);
            let expr = file_to_expr.value_at(i);
            let symbols = expr.symbols();
            let n: usize = symbols.len();
            let mut j: usize = 0;
            while j < n
                invariant
                    i < count,
                    j <= n,
                    n == symbols.names().len(),
                    count == file_to_expr.keys().len(),
                    files == cond_views(file_to_expr@),
                    file@ == file_to_expr.keys()[i as int],
                    files.contains_key(file@),
                    files[file@] == expr@,
                    symbols@ == cond_symbols(expr@),
                    forall|c: Seq<char>, f: Seq<char>| #[trigger]
                        related(map@, c, f) ==> stops(files, c, f),
                    forall|k: int, c: Seq<char>|
                        0 <= k < i && stops(files, c, file_to_expr.keys()[k])
                            ==> #[trigger] related(map@, c, file_to_expr.keys()[k]),
                    forall|q: int|
                        0 <= q < j && controls(expr@, #[trigger] symbols.names()[q]) ==> related(
                            map@,
                            symbols.names()[q],
                            file@,
                        ),
                    forall|c: Seq<char>| #[trigger]
                        map@.contains_key(c) ==> exists|f: Seq<char>| related(map@, c, f),
                decreases n - j,
            {
                let symbol = symbols.get(j);
                if expr.is_controlled_by(symbol.as_str()) {
                    let ghost before = map@;
                    relate(&mut map, symbol.as_str(), file.as_str());
                    proof {
                        assert forall|c: Seq<char>| #[trigger] map@.contains_key(c) implies exists|
                            f: Seq<char>,
                        | related(map@, c, f) by {
                            if before.contains_key(c) {
                                let f = choose|f: Seq<char>| related(before, c, f);
                                assert(related(map@, c, f));
                            } else {
                                assert(related(map@, c, file@));
                            }
                        }
                    }
                }
                j += 1;
            }
            proof {
                assert forall|k: int, c: Seq<char>|
                    0 <= k < i + 1 && stops(
                        files,
                        c,
                        file_to_expr.keys()[k],
                    ) implies #[trigger] related(map@, c, file_to_expr.keys()[k]) by {
                    if k == i {
                        lemma_controlled_mentions(expr@, c);
                        assert(symbols.names().contains(c));
                        let q = choose|q: int|
                            0 <= q < symbols.names().len() && symbols.names()[q] == c;
                        assert(controls(expr@, symbols.names()[q]));
                    }
                }
            }
            i += 1;
        }
        proof {
            assert forall|c: Seq<char>, f: Seq<char>| #[trigger]
                related(map@, c, f) <==> stops(files, c, f) by {
                if stops(files, c, f) {
                    assert(file_to_expr.keys().contains(f));
                    let k = choose|k: int|
                        0 <= k < file_to_expr.keys().len() && file_to_expr.keys()[k] == f;
                    assert(stops(files, c, file_to_expr.keys()[k]));
                    assert(related(map@, c, file_to_expr.keys()[k]));
                }
            }
            assert forall|c: Seq<char>| #[trigger] map@.contains_key(c) <==> stops_any(
                files,
                c,
            ) by {
                if map@.contains_key(c) {
                    let f = choose|f: Seq<char>| related(map@, c, f);
                    assert(stops(files, c, f));
                }
                if stops_any(files, c) {
                    let f = choose|f: Seq<char>| stops(files, c, f);
                    assert(related(map@, c, f));
                }
            }
        }
        KbuildMaps { config_to_files: map, file_to_expr, modules }
    }

    /// CONFIG symbol to the set of source files that it controls.
    pub fn config_to_files(&self) -> (map: &NameMap<NameSet>)
        ensures
            forall|c: Seq<char>, f: Seq<char>| #[trigger]
                related(map@, c, f) <==> stops(self@, c, f),
            forall|c: Seq<char>| #[trigger] map@.contains_key(c) <==> stops_any(self@, c),
    {
        proof {
            use_type_invariant(self);
        }
        &self.config_to_files
    }

    /// Source file to boolean CONFIG expression.
    pub fn file_to_expr(&self) -> (map: &NameMap<ConfigExpr>)
        ensures
            cond_views(map@) == self@,
    {
        &self.file_to_expr
    }

    /// The modules, by name.
    pub fn modules(&self) -> (modules: &NameMap<KernelModule>)
        ensures
            modules@ == self.module_map(),
    {
        &self.modules
    }

    /// The module with the given name.
    pub fn module(&self, name: &str) -> (module: Option<&KernelModule>)
        ensures
            match module {
                Some(m) => self.module_map().contains_key(name@) && self.module_map()[name@] == *m,
                None => !self.module_map().contains_key(name@),
            },
    {
        self.modules.get(name)
    }

    /// Returns the set of CONFIG symbols that, when disabled, would stop files in `uncovered` from
    /// compiling without affecting any file outside `uncovered`.
    ///
    /// A CONFIG is safe to disable only if its entire file set is a subset of `uncovered`.
    pub fn configs_safe_to_disable(&self, uncovered: &NameSet) -> (safe: NameSet)
        ensures
            forall|c: Seq<char>| #[trigger]
                safe@.contains(c) <==> is_safe(self@, uncovered@, c),
    {
        let map = self.config_to_files();
        let forms = plain_forms(uncovered);
        let mut safe = NameSet::new();
        let count: usize = map.len();
        let mut i: usize = 0;
        while i < count
            invariant
                i <= count,
                count == map.keys().len(),
                forall|p: Seq<char>|
                    forms@.contains(#[trigger] plain_form(p)) <==> has_path(uncovered@, p),
                forall|c: Seq<char>, f: Seq<char>| #[trigger]
                    related(map@, c, f) <==> stops(self@, c, f),
                forall|c: Seq<char>| #[trigger] map@.contains_key(c) <==> stops_any(self@, c),
                forall|c: Seq<char>| #[trigger]
                    safe@.contains(c) ==> is_safe(self@, uncovered@, c),
                forall|k: int|
                    0 <= k < i && is_safe(self@, uncovered@, #[trigger] map.keys()[k])
                        ==> safe@.contains(map.keys()[k]),
            decreases count - i,
        {
            let config = map.key_at(i);
            let files = map.value_at(i);
            let outside = leave_out(files, &forms);
            if outside.is_empty() {
                proof {
                    assert forall|f: Seq<char>| #[trigger] stops(self@, config@, f) implies
                        has_path(uncovered@, f) by {
                        assert(related(map@, config@, f));
                        assert(forms@.contains(plain_form(f)) <==> has_path(uncovered@, f));
                        assert(!outside@.contains(f));
                    }
                }
                safe.insert(config.clone());
            } else {
                proof {
                    if is_safe(self@, uncovered@, config@) {
                        assert(outside@ =~= Set::empty()) by {
                            assert forall|f: Seq<char>| !outside@.contains(f) by {
                                if outside@.contains(f) {
                                    assert(related(map@, config@, f));
                                    assert(!forms@.contains(plain_form(f)));
                                    assert(stops(self@, config@, f));
                                }
                            }
                        }
                    }
                }
            }
            i += 1;
        }
        assert forall|c: Seq<char>| #[trigger] safe@.contains(c) <==> is_safe(
            self@,
            uncovered@,
            c,
        ) by {
            if is_safe(self@, uncovered@, c) {
                assert(map@.contains_key(c));
                assert(map.keys().contains(c));
            }
        }
        safe
    }
}

/// Whether setting `config` to `n` can stop files from being compiled, and only ones whose path is
/// in `uncovered`.
pub open spec fn is_safe(
    files: Map<Seq<char>, Cond>,
    uncovered: Set<Seq<char>>,
    config: Seq<char>,
) -> bool {
    stops_any(files, config) && forall|f: Seq<char>| #[trigger]
        stops(files, config, f) ==> has_path(uncovered, f)
}

// ── Laws ──────────────────────────────────────────────────────────────────────

/// Disabling a symbol that is safe to disable keeps every file outside `uncovered` that was
/// compiled, whatever else is enabled.
pub proof fn lemma_safe_keeps_covered(
    files: Map<Seq<char>, Cond>,
    uncovered: Set<Seq<char>>,
    config: Seq<char>,
    file: Seq<char>,
    enabled: Set<Seq<char>>,
)
    requires
        is_safe(files, uncovered, config),
        files.contains_key(file),
        !has_path(uncovered, file),
        cond_holds(files[file], enabled),
    ensures
        cond_holds(files[file], enabled.remove(config)),
{
    assert(!stops(files, config, file));
    lemma_uncontrolled_stays(files[file], config, enabled);
}

/// No symbol controls a file that is always compiled.
pub proof fn lemma_always_is_uncontrolled(
    files: Map<Seq<char>, Cond>,
    file: Seq<char>,
    config: Seq<char>,
)
    requires
        files.contains_key(file),
        forall|enabled: Set<Seq<char>>| cond_holds(files[file], enabled),
    ensures
        !stops(files, config, file),
{
    if stops(files, config, file) {
        let enabled = choose|enabled: Set<Seq<char>>|
            crate::kbuild::expr::flips(files[file], config, enabled);
        assert(cond_holds(files[file], enabled.remove(config)));
    }
}

/// A symbol is safe to disable just where disabling it alone stops some file from being compiled in
/// some configuration, and in none stops one whose path is not in `uncovered`.
pub proof fn lemma_safe_stops_uncovered_only(
    files: Map<Seq<char>, Cond>,
    uncovered: Set<Seq<char>>,
    config: Seq<char>,
)
    ensures
        is_safe(files, uncovered, config) <==> {
            &&& exists|f: Seq<char>, on: Set<Seq<char>>| #[trigger] stops_in(files, config, f, on)
            &&& forall|f: Seq<char>, on: Set<Seq<char>>| #[trigger]
                stops_in(files, config, f, on) ==> has_path(uncovered, f)
        },
{
    assert forall|f: Seq<char>| files.contains_key(f) implies (#[trigger] stops(files, config, f)
        <==> exists|on: Set<Seq<char>>| #[trigger] stops_in(files, config, f, on)) by {
        lemma_control_is_by_one_symbol(files[f], config);
        if stops(files, config, f) {
            let on = choose|on: Set<Seq<char>>| #[trigger]
                on.contains(config) && cond_holds(files[f], on) && !cond_holds(
                    files[f],
                    on.remove(config),
                );
            assert(stops_in(files, config, f, on));
        }
    }
    if is_safe(files, uncovered, config) {
        let f = choose|f: Seq<char>| stops(files, config, f);
        assert(files.contains_key(f));
        let on = choose|on: Set<Seq<char>>| #[trigger] stops_in(files, config, f, on);
        assert forall|f: Seq<char>, on: Set<Seq<char>>| #[trigger]
            stops_in(files, config, f, on) implies has_path(uncovered, f) by {
            assert(stops(files, config, f));
        }
    }
    if (exists|f: Seq<char>, on: Set<Seq<char>>| #[trigger] stops_in(files, config, f, on))
        && forall|f: Seq<char>, on: Set<Seq<char>>| #[trigger]
        stops_in(files, config, f, on) ==> has_path(uncovered, f) {
        let (f, on) = choose|f: Seq<char>, on: Set<Seq<char>>| #[trigger]
            stops_in(files, config, f, on);
        assert(stops(files, config, f));
        assert forall|f: Seq<char>| #[trigger] stops(files, config, f) implies has_path(
            uncovered,
            f,
        ) by {
            assert(files.contains_key(f));
            let on = choose|on: Set<Seq<char>>| #[trigger] stops_in(files, config, f, on);
        }
    }
}

/// Whether disabling the symbol alone stops the file from being compiled where `on` is enabled.
pub open spec fn stops_in(
    files: Map<Seq<char>, Cond>,
    config: Seq<char>,
    file: Seq<char>,
    on: Set<Seq<char>>,
) -> bool {
    &&& files.contains_key(file)
    &&& on.contains(config)
    &&& cond_holds(files[file], on)
    &&& !cond_holds(files[file], on.remove(config))
}

} // verus!
