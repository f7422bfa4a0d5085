//! The ways to keep one module out of the build, and what else each of them takes along.
use crate::kbuild::expr::{cond_holds, cond_symbols, Cond};
use crate::kbuild::maps::{cond_views, module_views, KbuildMaps, KernelModule, ModuleView};
use crate::kconfig::expr::{is_enabled, means_on, value_texts};
use crate::kconfig::graph::{
    forced_by, is_settled, rounds, selects_always, selects_under_condition, KconfigGraph, SymbolView,
};
use crate::names::{
    ascending, difference, lemma_order_total, lemma_order_trans, order_texts, precedes, NameMap,
    NameSet, Order,
};
use crate::reach::{leads_to, lemma_leads_to_self};
use crate::text::{same_text, texts};
use vstd::prelude::*;

verus! {

/// One symbol whose disabling keeps a module out of the build, and what it takes along.
pub struct DisableVariant {
    /// The symbol, without its `CONFIG_` prefix, and its new value.
    pub change: (String, String),
    /// Other files that are no longer compiled.
    pub side_effect_files: NameSet,
    /// Symbols that select the changed one without a condition.
    pub cascade_unconditional: NameSet,
    /// Symbols that select the changed one under a condition that holds.
    pub cascade_active: NameSet,
    /// Other modules that lose what they depend on, by name.
    pub collateral_modules: Vec<String>,
}

impl DisableVariant {
    /// How many symbols must be disabled along with the changed one.
    pub open spec fn cascade_count(self) -> nat {
        self.cascade_unconditional@.len() + self.cascade_active@.len()
    }

    /// How many symbols must be disabled along with the changed one.
    pub fn cascade_len(&self) -> (n: u128)
        ensures
            n == self.cascade_count(),
    {
        self.cascade_unconditional.len() as u128 + self.cascade_active.len() as u128
    }

    /// The symbols that must be disabled along with the changed one: those that select it without a
    /// condition, then those that do so under one.
    pub fn cascade_configs(&self) -> (names: Vec<String>)
        ensures
            texts(names@) == self.cascade_unconditional.names() + self.cascade_active.names(),
    {
        let mut names = self.cascade_unconditional.to_vec();
        let ghost first = names@;
        let mut more = self.cascade_active.to_vec();
        let ghost second = more@;
        names.append(&mut more);
        assert(texts(names@) =~= texts(first) + texts(second));
        names
    }

    /// The changed symbol and those that must be disabled along with it.
    pub fn disabled(&self) -> (names: NameSet)
        ensures
            names@ == self.cascade_unconditional@.union(self.cascade_active@).insert(
                self.change.0@,
            ),
    {
        let mut names = self.cascade_unconditional.clone();
        names.insert_all(&self.cascade_active);
        names.insert(self.change.0.clone());
        names
    }
}

// ── What a variant is ─────────────────────────────────────────────────────────

/// What is known of a kernel: its files, its modules, its symbols and their values.
pub ghost struct Kernel {
    pub files: Map<Seq<char>, Cond>,
    pub modules: Map<Seq<char>, ModuleView>,
    pub graph: Map<Seq<char>, SymbolView>,
    pub values: Map<Seq<char>, Seq<char>>,
}

impl Kernel {
    /// The symbols that are enabled.
    pub open spec fn enabled(self) -> Set<Seq<char>> {
        Set::new(|s: Seq<char>| is_enabled(self.values, s))
    }

    /// The symbol and everything that has a select in force for it.
    pub open spec fn disabled_with(self, symbol: Seq<char>) -> Set<Seq<char>> {
        Set::new(|n: Seq<char>| leads_to(forced_by(self.graph, self.values), symbol, n))
    }

    /// What stays enabled when the symbol is disabled.
    pub open spec fn enabled_without(self, symbol: Seq<char>) -> Set<Seq<char>> {
        self.enabled().difference(self.disabled_with(symbol))
    }

    /// Whether `file` is compiled where `on` is enabled.
    pub open spec fn compiles(self, file: Seq<char>, on: Set<Seq<char>>) -> bool {
        self.files.contains_key(file) && cond_holds(self.files[file], on)
    }

    /// Whether any file of `module` is compiled where `on` is enabled.
    pub open spec fn builds(self, module: ModuleView, on: Set<Seq<char>>) -> bool {
        exists|i: int|
            0 <= i < module.files.len() && self.compiles(#[trigger] module.files[i], on)
    }

    /// Whether the symbol has a say in whether files of `module` are compiled.
    pub open spec fn concerns(self, module: ModuleView, symbol: Seq<char>) -> bool {
        symbol == module.config || exists|i: int|
            0 <= i < module.files.len() && self.files.contains_key(#[trigger] module.files[i])
                && cond_symbols(self.files[module.files[i]]).contains(symbol)
    }

    /// Whether disabling the symbol alone, with what that takes along, keeps a module out of the
    /// build that is in it.
    pub open spec fn silences(self, module: ModuleView, symbol: Seq<char>) -> bool {
        &&& self.concerns(module, symbol)
        &&& is_enabled(self.values, symbol)
        &&& self.builds(module, self.enabled())
        &&& !self.builds(module, self.enabled_without(symbol))
    }

    /// Whether `file`, which is not of `module`, is no longer compiled when the symbol is disabled.
    pub open spec fn is_side_effect(
        self,
        module: ModuleView,
        symbol: Seq<char>,
        file: Seq<char>,
    ) -> bool {
        &&& !module.files.contains(file)
        &&& self.compiles(file, self.enabled())
        &&& !self.compiles(file, self.enabled_without(symbol))
    }

    /// Whether the other module `n` is among those that lose what they depend on, where `fallen` are
    /// the symbols that do.
    pub open spec fn is_collateral(
        self,
        module: ModuleView,
        fallen: Set<Seq<char>>,
        n: Seq<char>,
    ) -> bool {
        n != module.name && self.modules.contains_key(n) && fallen.contains(self.modules[n].config)
    }

    /// Whether `v` is the variant that disables `symbol`.
    pub open spec fn is_variant(
        self,
        module: ModuleView,
        symbol: Seq<char>,
        v: DisableVariant,
    ) -> bool {
        &&& v.change.0@ == symbol
        &&& v.change.1@ == "n"@
        &&& forall|f: Seq<char>| #[trigger]
            v.side_effect_files@.contains(f) <==> self.is_side_effect(module, symbol, f)
        &&& forall|n: Seq<char>| #[trigger]
            v.cascade_unconditional@.contains(n) <==> n != symbol && self.disabled_with(
                symbol,
            ).contains(n) && selects_always(self.graph, n, symbol)
        &&& forall|n: Seq<char>| #[trigger]
            v.cascade_active@.contains(n) <==> n != symbol && self.disabled_with(symbol).contains(n)
                && selects_under_condition(self.graph, self.values, n, symbol)
        &&& ascending(texts(v.collateral_modules@))
        &&& exists|k: nat| #[trigger]
            is_settled(self.graph, self.values, self.disabled_with(symbol), k) && forall|
                n: Seq<char>,
            | #[trigger]
                texts(v.collateral_modules@).contains(n) <==> self.is_collateral(
                    module,
                    rounds(self.graph, self.values, self.disabled_with(symbol), k).difference(
                        self.disabled_with(symbol),
                    ),
                    n,
                )
    }
}

/// Whether variant `a` has fewer side effects than `b`: fewer files, or as many and fewer symbols to
/// disable along, or as many and a smaller name.
pub open spec fn ranks_before(a: DisableVariant, b: DisableVariant) -> bool {
    let (fa, fb) = (a.side_effect_files@.len(), b.side_effect_files@.len());
    let (ca, cb) = (a.cascade_count(), b.cascade_count());
    fa < fb || (fa == fb && (ca < cb || (ca == cb && precedes(a.change.0@, b.change.0@))))
}

/// Whether `variants` are all the variants for `module`, those with the fewest side effects first.
pub open spec fn are_variants(
    kernel: Kernel,
    module: ModuleView,
    variants: Seq<DisableVariant>,
) -> bool {
    &&& forall|i: int|
        0 <= i < variants.len() ==> kernel.is_variant(
            module,
            (#[trigger] variants[i]).change.0@,
            variants[i],
        ) && kernel.silences(module, variants[i].change.0@)
    &&& forall|s: Seq<char>| #[trigger] kernel.silences(module, s) ==> has_change(variants, s)
    &&& forall|i: int, j: int|
        0 <= i < j < variants.len() ==> ranks_before(#[trigger] variants[i], #[trigger] variants[j])
}

/// Whether one of `variants` changes the symbol.
pub open spec fn has_change(variants: Seq<DisableVariant>, symbol: Seq<char>) -> bool {
    exists|i: int| 0 <= i < variants.len() && (#[trigger] variants[i]).change.0@ == symbol
}

// ── Finding variants ──────────────────────────────────────────────────────────

/// The symbols that are enabled.
fn enabled_symbols(values: &NameMap<String>) -> (on: NameSet)
    ensures
        forall|s: Seq<char>| #[trigger]
            on@.contains(s) <==> is_enabled(value_texts(values@), s),
{
    let ghost v = value_texts(values@);
    let mut on = NameSet::new();
    let count: usize = values.len();
    let mut i: usize = 0;
    while i < count
        invariant
            i <= count,
            count == values.keys().len(),
            v == value_texts(values@),
            forall|s: Seq<char>| #[trigger] on@.contains(s) ==> is_enabled(v, s),
            forall|k: int|
                0 <= k < i && is_enabled(v, #[trigger] values.keys()[k]) ==> on@.contains(
                    values.keys()[k],
                ),
        decreases count - i,
    {
        let name = values.key_at(i);
        if means_on(values.value_at(i).as_str()) {
            on.insert(name.clone());
        }
        i += 1;
    }
    proof {
        reveal_strlit("n");
        reveal_strlit("y");
        reveal_strlit("m");
        assert("n"@[0] != "y"@[0] && "n"@[0] != "m"@[0]);
        assert forall|s: Seq<char>| #[trigger] on@.contains(s) <==> is_enabled(v, s) by {
            if is_enabled(v, s) {
                assert(values.keys().contains(s));
            }
        }
    }
    on
}

/// Whether any file of the module is compiled where `on` is enabled.
fn is_built(maps: &KbuildMaps, module: &KernelModule, on: &NameSet) -> (yes: bool)
    ensures
        forall|kernel: Kernel|
            kernel.files == maps@ ==> yes == #[trigger] kernel.builds(module@, on@),
{
    let map = maps.file_to_expr();
    let ghost m = module@;
    let mut i: usize = 0;
    while i < module.files.len()
        invariant
            i <= module.files@.len(),
            m == module@,
            cond_views(map@) == maps@,
            forall|k: int|
                0 <= k < i ==> !(maps@.contains_key(#[trigger] m.files[k]) && cond_holds(
                    maps@[m.files[k]],
                    on@,
                )),
        decreases module.files@.len() - i,
    {
        assert(m.files[i as int] == module.files@[i as int]@);
        match map.get(module.files[i].as_str()) {
            Some(e) => {
                if e.eval(on) {
                    proof {
                        assert forall|kernel: Kernel| kernel.files == maps@ implies #[trigger]
                            kernel.builds(m, on@) by {
                            assert(kernel.compiles(m.files[i as int], on@));
                        }
                    }
                    return true;
                }
            },
            None => {},
        }
        i += 1;
    }
    false
}

/// The symbols that have a say in whether files of the module are compiled.
fn concerned_symbols(maps: &KbuildMaps, module: &KernelModule) -> (symbols: NameSet)
    ensures
        forall|kernel: Kernel, s: Seq<char>|
            kernel.files == maps@ ==> symbols@.contains(s) == #[trigger] kernel.concerns(
                module@,
                s,
            ),
{
    let map = maps.file_to_expr();
    let ghost m = module@;
    let mut symbols = NameSet::new();
    symbols.insert(module.module_config.clone());
    let mut i: usize = 0;
    while i < module.files.len()
        invariant
            i <= module.files@.len(),
            m == module@,
            cond_views(map@) == maps@,
            forall|s: Seq<char>| #[trigger]
                symbols@.contains(s) <==> s == m.config || exists|k: int|
                    0 <= k < i && maps@.contains_key(#[trigger] m.files[k]) && cond_symbols(
                        maps@[m.files[k]],
                    ).contains(s),
        decreases module.files@.len() - i,
    {
        let ghost before = symbols@;
        let ghost file = m.files[i as int];
        assert(file == module.files@[i as int]@);
        match map.get(module.files[i].as_str()) {
            Some(e) => {
                let more = e.symbols();
                symbols.insert_all(&more);
                assert(cond_symbols(maps@[file]) == more@);
            },
            None => {},
        }
        proof {
            assert forall|s: Seq<char>| #[trigger] symbols@.contains(s) <==> s == m.config
                || exists|k: int|
                0 <= k < i + 1 && maps@.contains_key(#[trigger] m.files[k]) && cond_symbols(
                    maps@[m.files[k]],
                ).contains(s) by {
                if before.contains(s) && s != m.config {
                    let k = choose|k: int|
                        0 <= k < i && maps@.contains_key(#[trigger] m.files[k]) && cond_symbols(
                            maps@[m.files[k]],
                        ).contains(s);
                    assert(maps@.contains_key(m.files[k]));
                }
                if symbols@.contains(s) && !before.contains(s) {
                    assert(maps@.contains_key(m.files[i as int]));
                }
            }
        }
        i += 1;
    }
    symbols
}

/// The files outside the module that are compiled where `on` is enabled but not where `less` is.
fn lost_files(maps: &KbuildMaps, module: &KernelModule, on: &NameSet, less: &NameSet) -> (lost:
    NameSet)
    ensures
        forall|f: Seq<char>| #[trigger]
            lost@.contains(f) <==> !module@.files.contains(f) && maps@.contains_key(f)
                && cond_holds(maps@[f], on@) && !cond_holds(maps@[f], less@),
{
    let map = maps.file_to_expr();
    let own = crate::kminimize::reduce::set_of(&module.files);
    let mut lost = NameSet::new();
    let count: usize = map.len();
    let mut i: usize = 0;
    while i < count
        invariant
            i <= count,
            count == map.keys().len(),
            cond_views(map@) == maps@,
            forall|n: Seq<char>| #[trigger] own@.contains(n) <==> module@.files.contains(n),
            forall|f: Seq<char>| #[trigger]
                lost@.contains(f) ==> !module@.files.contains(f) && maps@.contains_key(f)
                    && cond_holds(maps@[f], on@) && !cond_holds(maps@[f], less@),
            forall|k: int|
                0 <= k < i && !module@.files.contains(#[trigger] map.keys()[k]) && cond_holds(
                    maps@[map.keys()[k]],
                    on@,
                ) && !cond_holds(maps@[map.keys()[k]], less@) ==> lost@.contains(map.keys()[k]),
        decreases count - i,
    {
        let file = map.key_at(i);
        let expr = map.value_at(i);
        assert(maps@.contains_key(file@) && maps@[file@] == expr@);
        assert(own@.contains(file@) <==> module@.files.contains(file@));
        if !own.contains(file.as_str()) && expr.eval(on) && !expr.eval(less) {
            lost.insert(file.clone());
        }
        i += 1;
    }
    assert forall|f: Seq<char>| #[trigger] lost@.contains(f) <==> !module@.files.contains(f)
        && maps@.contains_key(f) && cond_holds(maps@[f], on@) && !cond_holds(
        maps@[f],
        less@,
    ) by {
        if maps@.contains_key(f) {
            assert(map@.contains_key(f));
            assert(map.keys().contains(f));
        }
    }
    lost
}

/// The modules other than `module` whose symbols have fallen, by name.
fn fallen_modules(maps: &KbuildMaps, module: &KernelModule, fallen: &NameSet) -> (names: Vec<
    String,
>)
    ensures
        ascending(texts(names@)),
        forall|n: Seq<char>| #[trigger]
            texts(names@).contains(n) <==> n != module@.name && module_views(
                maps.module_map(),
            ).contains_key(n) && fallen@.contains(module_views(maps.module_map())[n].config),
{
    let modules = maps.modules();
    let ghost all = module_views(maps.module_map());
    let mut set = NameSet::new();
    let count: usize = modules.len();
    let mut i: usize = 0;
    while i < count
        invariant
            i <= count,
            count == modules.keys().len(),
            modules@ == maps.module_map(),
            all == module_views(maps.module_map()),
            forall|n: Seq<char>| #[trigger]
                set@.contains(n) ==> n != module@.name && all.contains_key(n) && fallen@.contains(
                    all[n].config,
                ),
            forall|k: int|
                0 <= k < i && #[trigger] modules.keys()[k] != module@.name && fallen@.contains(
                    all[modules.keys()[k]].config,
                ) ==> set@.contains(modules.keys()[k]),
        decreases count - i,
    {
        let name = modules.key_at(i);
        let m = modules.value_at(i);
        assert(all.contains_key(name@) && all[name@] == m@);
        if !same_text(name.as_str(), module.name.as_str()) && fallen.contains(
            m.module_config.as_str(),
        ) {
            set.insert(name.clone());
        }
        i += 1;
    }
    let names = set.to_vec();
    assert forall|n: Seq<char>| #[trigger] texts(names@).contains(n) <==> n != module@.name
        && all.contains_key(n) && fallen@.contains(all[n].config) by {
        assert(set@.contains(n) <==> texts(names@).contains(n));
        if all.contains_key(n) {
            assert(modules@.contains_key(n));
            assert(modules.keys().contains(n));
        }
    }
    names
}

/// The kernel that the arguments describe.
pub open spec fn kernel_of(maps: KbuildMaps, graph: KconfigGraph, values: NameMap<String>) -> Kernel {
    Kernel {
        files: maps@,
        modules: module_views(maps.module_map()),
        graph: graph@,
        values: value_texts(values@),
    }
}

/// The variant that disables `symbol`, if that keeps the module out of the build.
fn try_variant(
    maps: &KbuildMaps,
    graph: &KconfigGraph,
    module: &KernelModule,
    values: &NameMap<String>,
    on: &NameSet,
    symbol: &String,
) -> (variant: Option<DisableVariant>)
    requires
        on@ == kernel_of(*maps, *graph, *values).enabled(),
    ensures
        ({
            let kernel = kernel_of(*maps, *graph, *values);
            match variant {
                Some(v) => kernel.is_variant(module@, symbol@, v) && !kernel.builds(
                    module@,
                    kernel.enabled_without(symbol@),
                ),
                None => kernel.builds(module@, kernel.enabled_without(symbol@)),
            }
        }),
{
    let ghost kernel = kernel_of(*maps, *graph, *values);
    let cascade = graph.disable_cascade(symbol.as_str(), values);
    let mut disabled = cascade.clone();
    disabled.insert(symbol.clone());
    proof {
        lemma_leads_to_self(forced_by(kernel.graph, kernel.values), symbol@);
        assert(disabled@ =~= kernel.disabled_with(symbol@));
    }
    let less = difference(on, &disabled);
    assert(less@ =~= kernel.enabled_without(symbol@));
    assert(kernel.files == maps@);
    let built = is_built(maps, module, &less);
    assert(built == kernel.builds(module@, less@));
    if built {
        return None;
    }
    let side_effect_files = lost_files(maps, module, on, &less);
    let (cascade_unconditional, cascade_active) = graph.classify_cascade(
        symbol.as_str(),
        &cascade,
        values,
    );
    let fallen = graph.transitive_depends_disabled(&disabled, values);
    let collateral_modules = fallen_modules(maps, module, &fallen);
    let v = DisableVariant {
        change: (symbol.clone(), "n".to_owned()),
        side_effect_files,
        cascade_unconditional,
        cascade_active,
        collateral_modules,
    };
    proof {
        assert forall|f: Seq<char>| #[trigger] v.side_effect_files@.contains(f)
            <==> kernel.is_side_effect(module@, symbol@, f) by {}
        assert forall|n: Seq<char>| #[trigger] v.cascade_unconditional@.contains(n) <==> n != symbol@
            && kernel.disabled_with(symbol@).contains(n) && selects_always(
            kernel.graph,
            n,
            symbol@,
        ) by {
            assert(cascade@.contains(n) <==> n != symbol@ && leads_to(
                forced_by(kernel.graph, kernel.values),
                symbol@,
                n,
            ));
        }
        assert forall|n: Seq<char>| #[trigger] v.cascade_active@.contains(n) <==> n != symbol@
            && kernel.disabled_with(symbol@).contains(n) && selects_under_condition(
            kernel.graph,
            kernel.values,
            n,
            symbol@,
        ) by {
            assert(cascade@.contains(n) <==> n != symbol@ && leads_to(
                forced_by(kernel.graph, kernel.values),
                symbol@,
                n,
            ));
        }
        let k = choose|k: nat| #[trigger]
            is_settled(kernel.graph, kernel.values, disabled@, k) && fallen@ == rounds(
                kernel.graph,
                kernel.values,
                disabled@,
                k,
            ).difference(disabled@);
        assert(is_settled(kernel.graph, kernel.values, kernel.disabled_with(symbol@), k));
        assert forall|n: Seq<char>| #[trigger] texts(v.collateral_modules@).contains(n)
            <==> kernel.is_collateral(
            module@,
            rounds(kernel.graph, kernel.values, kernel.disabled_with(symbol@), k).difference(
                kernel.disabled_with(symbol@),
            ),
            n,
        ) by {}
    }
    Some(v)
}

proof fn lemma_ranks_trans(a: DisableVariant, b: DisableVariant, c: DisableVariant)
    requires
        ranks_before(a, b),
        ranks_before(b, c),
    ensures
        ranks_before(a, c),
{
    if precedes(a.change.0@, b.change.0@) && precedes(b.change.0@, c.change.0@) {
        lemma_order_trans(a.change.0@, b.change.0@, c.change.0@);
    }
}

/// Tests which of two variants has fewer side effects.
fn has_fewer(a: &DisableVariant, b: &DisableVariant) -> (yes: bool)
    ensures
        yes == ranks_before(*a, *b),
{
    let fa: usize = a.side_effect_files.len();
    let fb: usize = b.side_effect_files.len();
    let ca: u128 = a.cascade_len();
    let cb: u128 = b.cascade_len();
    if fa != fb {
        fa < fb
    } else if ca != cb {
        ca < cb
    } else {
        match order_texts(a.change.0.as_str(), b.change.0.as_str()) {
            Order::Less => true,
            _ => false,
        }
    }
}

/// Whether variants stand in the order of their side effects.
spec fn is_ranked(variants: Seq<DisableVariant>) -> bool {
    forall|i: int, j: int|
        0 <= i < j < variants.len() ==> ranks_before(#[trigger] variants[i], #[trigger] variants[j])
}

/// Puts a variant where it belongs.
fn place_variant(variants: &mut Vec<DisableVariant>, v: DisableVariant)
    requires
        is_ranked(old(variants)@),
        !has_change(old(variants)@, v.change.0@),
    ensures
        is_ranked(final(variants)@),
        forall|i: int|
            0 <= i < final(variants)@.len() ==> #[trigger] final(variants)@[i] == v || old(
                variants,
            )@.contains(final(variants)@[i]),
        forall|s: Seq<char>| #[trigger]
            has_change(final(variants)@, s) <==> has_change(old(variants)@, s) || s == v.change.0@,
{
    let ghost before = variants@;
    let mut at: usize = 0;
    while at < variants.len() && has_fewer(&variants[at], &v)
        invariant
            at <= variants@.len(),
            before == variants@,
            forall|k: int| 0 <= k < at ==> ranks_before(#[trigger] before[k], v),
        decreases variants@.len() - at,
    {
        at += 1;
    }
    proof {
        assert forall|k: int| at <= k < before.len() implies ranks_before(
            v,
            #[trigger] before[k],
        ) by {
            let b = before[at as int];
            lemma_order_total(b.change.0@, v.change.0@);
            assert(b.change.0@ != v.change.0@);
            assert(ranks_before(v, b));
            if k > at {
                lemma_ranks_trans(v, b, before[k]);
            }
        }
    }
    variants.insert(at, v);
    proof {
        let after = variants@;
        assert(after =~= before.insert(at as int, v));
        assert forall|i: int, j: int| 0 <= i < j < after.len() implies ranks_before(
            #[trigger] after[i],
            #[trigger] after[j],
        ) by {
            let i0 = if i < at { i } else { i - 1 };
            let j0 = if j < at { j } else { j - 1 };
            if i != at {
                assert(after[i] == before[i0]);
            }
            if j != at {
                assert(after[j] == before[j0]);
            }
        }
        assert forall|i: int| 0 <= i < after.len() implies #[trigger] after[i] == v
            || before.contains(after[i]) by {
            let i0 = if i < at { i } else { i - 1 };
            if i != at {
                assert(after[i] == before[i0]);
            }
        }
        assert forall|s: Seq<char>| #[trigger] has_change(after, s) <==> has_change(before, s) || s
            == v.change.0@ by {
            assert(after[at as int] == v);
            if has_change(before, s) {
                let k = choose|k: int| 0 <= k < before.len() && (#[trigger] before[k]).change.0@ == s;
                let k1 = if k < at { k } else { k + 1 };
                assert(after[k1] == before[k]);
            }
            if has_change(after, s) && s != v.change.0@ {
                let k = choose|k: int| 0 <= k < after.len() && (#[trigger] after[k]).change.0@ == s;
                let k0 = if k < at { k } else { k - 1 };
                assert(before[k0] == after[k]);
            }
        }
    }
}

/// Finds every single symbol whose disabling keeps the module out of the build, with what each of
/// them takes along, those with the fewest side effects first.
pub fn generate_disable_variants(
    maps: &KbuildMaps,
    graph: &KconfigGraph,
    module: &KernelModule,
    values: &NameMap<String>,
) -> (variants: Vec<DisableVariant>)
    ensures
        are_variants(kernel_of(*maps, *graph, *values), module@, variants@),
{
    let ghost kernel = kernel_of(*maps, *graph, *values);
    let on = enabled_symbols(values);
    assert(on@ =~= kernel.enabled());
    let mut variants: Vec<DisableVariant> = Vec::new();
    let built = is_built(maps, module, &on);
    assert(built == kernel.builds(module@, kernel.enabled()));
    if !built {
        return variants;
    }
    let symbols = concerned_symbols(maps, module);
    let count: usize = symbols.len();
    let ghost names = symbols.names();
    proof {
        crate::names::lemma_ascending_distinct(names);
    }
    let mut i: usize = 0;
    while i < count
        invariant
            i <= count,
            count == names.len(),
            names == symbols.names(),
            names.no_duplicates(),
            kernel == kernel_of(*maps, *graph, *values),
            on@ == kernel.enabled(),
            kernel.builds(module@, kernel.enabled()),
            forall|k: Kernel, s: Seq<char>|
                k.files == maps@ ==> symbols@.contains(s) == #[trigger] k.concerns(module@, s),
            is_ranked(variants@),
            forall|k: int|
                0 <= k < variants@.len() ==> kernel.is_variant(
                    module@,
                    (#[trigger] variants@[k]).change.0@,
                    variants@[k],
                ) && kernel.silences(module@, variants@[k].change.0@),
            forall|s: Seq<char>| #[trigger]
                has_change(variants@, s) ==> names.take(i as int).contains(s),
            forall|k: int|
                0 <= k < i && kernel.silences(module@, #[trigger] names[k]) ==> has_change(
                    variants@,
                    names[k],
                ),
        decreases count - i,
    {
        let symbol = symbols.get(i);
        let ghost before = variants@;
        proof {
            assert(kernel.concerns(module@, symbol@));
            assert forall|s: Seq<char>| names.take(i as int).contains(s) implies names.take(
                i + 1,
            ).contains(s) by {
                let k = choose|k: int| 0 <= k < i && names.take(i as int)[k] == s;
                assert(names.take(i + 1)[k] == s);
            }
            assert(names.take(i + 1)[i as int] == symbol@);
            assert(names.take(i + 1).contains(symbol@));
        }
        if on.contains(symbol.as_str()) {
            match try_variant(maps, graph, module, values, &on, symbol) {
                Some(v) => {
                    proof {
                        assert(kernel.silences(module@, symbol@));
                        if has_change(variants@, symbol@) {
                            let k = choose|k: int|
                                0 <= k < i && names.take(i as int)[k] == symbol@;
                            assert(names[k] != names[i as int]);
                        }
                    }
                    place_variant(&mut variants, v);
                    proof {
                        assert forall|k: int| 0 <= k < variants@.len() implies kernel.is_variant(
                            module@,
                            (#[trigger] variants@[k]).change.0@,
                            variants@[k],
                        ) && kernel.silences(module@, variants@[k].change.0@) by {
                            if variants@[k] != v {
                                assert(before.contains(variants@[k]));
                                let j = choose|j: int|
                                    0 <= j < before.len() && before[j] == variants@[k];
                                assert(kernel.is_variant(module@, before[j].change.0@, before[j]));
                            }
                        }
                    }
                },
                None => {},
            }
        }
        i += 1;
    }
    proof {
        assert forall|s: Seq<char>| #[trigger] kernel.silences(module@, s) implies has_change(
            variants@,
            s,
        ) by {
            assert(kernel.concerns(module@, s));
            assert(symbols@.contains(s));
            assert(names.contains(s));
        }
    }
    variants
}

} // verus!
