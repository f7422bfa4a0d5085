//! Which CONFIG symbols to disable, given what was observed of the modules.
use crate::gather::clusters::{in_some, name_lists};
use crate::gather::{Evidence, ModuleList};
use crate::kbuild::maps::KernelModule;
use crate::kconfig::expr::{enabled, is_enabled, value_of, value_texts};
use crate::kconfig::graph::{is_conflict, KconfigGraph, SymbolView};
use crate::names::{ascending, difference, intersection, union, NameMap, NameSet};
use crate::text::{chars_of, same_text, string_of, strip_prefixes, texts, without_prefixes};
use vstd::prelude::*;

verus! {

// ── Names of symbols ──────────────────────────────────────────────────────────

/// A symbol without its `CONFIG_` prefix.
pub open spec fn bare_symbol(symbol: Seq<char>) -> Seq<char> {
    without_prefixes(symbol, "CONFIG_"@)
}

/// A symbol with its `CONFIG_` prefix.
pub open spec fn full_symbol(name: Seq<char>) -> Seq<char> {
    "CONFIG_"@ + name
}

/// The symbols of `symbols`, without their prefixes.
pub open spec fn bare_symbols(symbols: Set<Seq<char>>) -> Set<Seq<char>> {
    Set::new(|b: Seq<char>| exists|s: Seq<char>| #[trigger] symbols.contains(s) && bare_symbol(s) == b)
}

/// Strips the `CONFIG_` prefix.
pub fn to_bare(symbol: &str) -> (bare: String)
    ensures
        bare@ == bare_symbol(symbol@),
{
    proof {
        reveal_strlit("CONFIG_");
    }
    let chars = chars_of(symbol);
    string_of(strip_prefixes(chars.as_slice(), "CONFIG_"))
}

/// Adds the `CONFIG_` prefix.
pub fn to_full(name: &str) -> (symbol: String)
    ensures
        symbol@ == full_symbol(name@),
{
    let mut symbol = "CONFIG_".to_owned();
    symbol.append(name);
    symbol
}

/// Strips the `CONFIG_` prefix of every symbol.
fn to_bare_all(symbols: &NameSet) -> (bare: NameSet)
    ensures
        bare@ == bare_symbols(symbols@),
{
    let mut bare = NameSet::new();
    let count: usize = symbols.len();
    let mut i: usize = 0;
    while i < count
        invariant
            i <= count,
            count == symbols.names().len(),
            forall|b: Seq<char>| #[trigger]
                bare@.contains(b) ==> bare_symbols(symbols@).contains(b),
            forall|k: int|
                0 <= k < i ==> bare@.contains(bare_symbol(#[trigger] symbols.names()[k])),
        decreases count - i,
    {
        let name = symbols.get(i);
        bare.insert(to_bare(name.as_str()));
        i += 1;
    }
    assert forall|b: Seq<char>| #[trigger]
        bare@.contains(b) <==> bare_symbols(symbols@).contains(b) by {
        if bare_symbols(symbols@).contains(b) {
            let s = choose|s: Seq<char>| #[trigger] symbols@.contains(s) && bare_symbol(s) == b;
            assert(symbols.names().contains(s));
        }
    }
    assert(bare@ =~= bare_symbols(symbols@));
    bare
}

// ── Candidates ────────────────────────────────────────────────────────────────

/// The symbols that might be disabled.
pub struct Candidates {
    /// The groups of loaded modules that can be removed safely.
    pub clusters: Vec<Vec<String>>,
    /// The modules of the groups that the kernel source does not know, by name.
    pub skipped: Vec<String>,
    /// The symbols of loaded but idle modules.
    pub idle: NameSet,
    /// The symbols of modules that are built but were never observed.
    pub never_loaded: NameSet,
}

/// Whether the symbol without its prefix is among those that have to stay enabled.
pub open spec fn is_pinned(list: ModuleList, name: Seq<char>) -> bool {
    texts(list.pinned_configs@).contains(name)
}

/// Whether the module `n` was loaded and idle, is known to the kernel source, and is built by an
/// enabled symbol that need not stay.
pub open spec fn is_idle_module(
    list: ModuleList,
    modules: Map<Seq<char>, KernelModule>,
    values: Map<Seq<char>, Seq<char>>,
    n: Seq<char>,
) -> bool {
    &&& list.disableable(n)
    &&& modules.contains_key(n)
    &&& is_enabled(values, bare_symbol(modules[n].module_config@))
    &&& !is_pinned(list, bare_symbol(modules[n].module_config@))
}

/// Whether the module `n` is known to the kernel source, is built as a module by a symbol that
/// need not stay, and was never observed.
pub open spec fn is_unseen_module(
    list: ModuleList,
    modules: Map<Seq<char>, KernelModule>,
    values: Map<Seq<char>, Seq<char>>,
    n: Seq<char>,
) -> bool {
    &&& modules.contains_key(n)
    &&& !list.shows(Evidence::InTree, n)
    &&& value_of(values, bare_symbol(modules[n].module_config@)) == "m"@
    &&& !is_pinned(list, bare_symbol(modules[n].module_config@))
}

impl Candidates {
    /// Whether these are the candidates that `list` leaves of `modules` under `values`.
    pub open spec fn of(
        self,
        list: ModuleList,
        modules: Map<Seq<char>, KernelModule>,
        values: Map<Seq<char>, Seq<char>>,
    ) -> bool {
        &&& list.is_clustering(name_lists(self.clusters@))
        &&& ascending(texts(self.skipped@))
        &&& forall|n: Seq<char>| #[trigger]
            texts(self.skipped@).contains(n) <==> list.disableable(n) && !modules.contains_key(n)
        &&& forall|s: Seq<char>| #[trigger]
            self.idle@.contains(s) <==> exists|n: Seq<char>| #[trigger]
                is_idle_module(list, modules, values, n) && s == full_symbol(
                    modules[n].module_config@,
                )
        &&& forall|s: Seq<char>| #[trigger]
            self.never_loaded@.contains(s) <==> exists|n: Seq<char>| #[trigger]
                is_unseen_module(list, modules, values, n) && s == full_symbol(
                    modules[n].module_config@,
                )
    }

    /// Every candidate.
    pub open spec fn all(self) -> Set<Seq<char>> {
        self.idle@.union(self.never_loaded@)
    }
}

/// The names that stand in any of the clusters.
fn flatten(clusters: &Vec<Vec<String>>) -> (names: NameSet)
    ensures
        forall|n: Seq<char>| #[trigger]
            names@.contains(n) <==> in_some(name_lists(clusters@), n),
{
    let ghost lists = name_lists(clusters@);
    let mut names = NameSet::new();
    let mut i: usize = 0;
    while i < clusters.len()
        invariant
            i <= clusters@.len(),
            lists == name_lists(clusters@),
            forall|n: Seq<char>| #[trigger] names@.contains(n) ==> in_some(lists, n),
            forall|p: int, q: int|
                0 <= p < i && 0 <= q < lists[p].len() ==> names@.contains(#[trigger] lists[p][q]),
        decreases clusters@.len() - i,
    {
        let cluster = &clusters[i];
        assert(lists[i as int] == texts(cluster@));
        let mut j: usize = 0;
        while j < cluster.len()
            invariant
                i < clusters@.len(),
                j <= cluster@.len(),
                lists == name_lists(clusters@),
                lists[i as int] == texts(cluster@),
                forall|n: Seq<char>| #[trigger] names@.contains(n) ==> in_some(lists, n),
                forall|p: int, q: int|
                    (0 <= p < i && 0 <= q < lists[p].len() || p == i && 0 <= q < j)
                        ==> names@.contains(#[trigger] lists[p][q]),
            decreases cluster@.len() - j,
        {
            names.insert(cluster[j].clone());
            assert(lists[i as int].contains(lists[i as int][j as int]));
            assert(in_some(lists, cluster@[j as int]@));
            j += 1;
        }
        i += 1;
    }
    assert forall|n: Seq<char>| #[trigger] names@.contains(n) <==> in_some(lists, n) by {
        if in_some(lists, n) {
            let p = choose|p: int| 0 <= p < lists.len() && (#[trigger] lists[p]).contains(n);
            let q = choose|q: int| 0 <= q < lists[p].len() && lists[p][q] == n;
            assert(names@.contains(lists[p][q]));
        }
    }
    names
}

/// The set of the names in `v`.
pub(crate) fn set_of(v: &Vec<String>) -> (names: NameSet)
    ensures
        forall|n: Seq<char>| #[trigger] names@.contains(n) <==> texts(v@).contains(n),
{
    let mut names = NameSet::new();
    let mut i: usize = 0;
    while i < v.len()
        invariant
            i <= v@.len(),
            forall|n: Seq<char>| #[trigger] names@.contains(n) ==> texts(v@).contains(n),
            forall|k: int| 0 <= k < i ==> names@.contains(#[trigger] texts(v@)[k]),
        decreases v@.len() - i,
    {
        names.insert(v[i].clone());
        assert(texts(v@)[i as int] == v@[i as int]@);
        assert(texts(v@).contains(texts(v@)[i as int]));
        i += 1;
    }
    names
}

/// Finds the symbols that might be disabled:
/// 1. those of loaded-but-idle modules, present in snapshots but with no active users across all
///    samples, if they are enabled (y/m) in `values`;
/// 2. those of modules that are built (=m in `values`) but were never observed in any snapshot.
///
/// A pinned symbol is no candidate: it has to stay enabled regardless of observed usage.
pub fn plan_reduction(
    list: &ModuleList,
    modules: &NameMap<KernelModule>,
    values: &NameMap<String>,
) -> (candidates: Candidates)
    ensures
        candidates.of(*list, modules@, value_texts(values@)),
{
    let ghost v = value_texts(values@);
    let clusters = list.safely_disableable_clusters();
    let members = flatten(&clusters);
    let pinned = set_of(&list.pinned_configs);
    let observed = list.names_with(Evidence::InTree);
    let mut known = NameSet::new();
    let mut idle = NameSet::new();
    let mut never_loaded = NameSet::new();
    let count: usize = modules.len();
    let mut i: usize = 0;
    proof {
        assert forall|n: Seq<char>| #[trigger] members@.contains(n) <==> list.disableable(n) by {
            assert(list.disableable(n) <==> in_some(name_lists(clusters@), n));
        }
    }
    while i < count
        invariant
            i <= count,
            count == modules.keys().len(),
            v == value_texts(values@),
            forall|n: Seq<char>| #[trigger] members@.contains(n) <==> list.disableable(n),
            forall|n: Seq<char>| #[trigger] pinned@.contains(n) <==> is_pinned(*list, n),
            forall|n: Seq<char>| observed@.contains(n) <==> #[trigger] list.shows(
                Evidence::InTree,
                n,
            ),
            forall|n: Seq<char>| #[trigger] known@.contains(n) ==> modules@.contains_key(n),
            forall|k: int| 0 <= k < i ==> known@.contains(#[trigger] modules.keys()[k]),
            forall|s: Seq<char>| #[trigger]
                idle@.contains(s) ==> exists|n: Seq<char>| #[trigger]
                    is_idle_module(*list, modules@, v, n) && s == full_symbol(
                        modules@[n].module_config@,
                    ),
            forall|k: int|
                0 <= k < i && is_idle_module(*list, modules@, v, #[trigger] modules.keys()[k])
                    ==> idle@.contains(full_symbol(modules@[modules.keys()[k]].module_config@)),
            forall|s: Seq<char>| #[trigger]
                never_loaded@.contains(s) ==> exists|n: Seq<char>| #[trigger]
                    is_unseen_module(*list, modules@, v, n) && s == full_symbol(
                        modules@[n].module_config@,
                    ),
            forall|k: int|
                0 <= k < i && is_unseen_module(*list, modules@, v, #[trigger] modules.keys()[k])
                    ==> never_loaded@.contains(
                    full_symbol(modules@[modules.keys()[k]].module_config@),
                ),
        decreases count - i,
    {
        let name = modules.key_at(i);
        let module = modules.value_at(i);
        let bare = to_bare(module.module_config.as_str());
        let symbol = to_full(module.module_config.as_str());
        let free = !pinned.contains(bare.as_str());
        if free && members.contains(name.as_str()) && enabled(values, bare.as_str()) {
            assert(is_idle_module(*list, modules@, v, name@));
            idle.insert(symbol.clone());
        }
        let as_module = match values.get(bare.as_str()) {
            Some(value) => same_text(value.as_str(), "m"),
            None => {
                proof {
                    reveal_strlit("n");
                    reveal_strlit("m");
                    assert("n"@[0] != "m"@[0]);
                }
                false
            },
        };
        assert(observed@.contains(name@) <==> list.shows(Evidence::InTree, name@));
        if free && as_module && !observed.contains(name.as_str()) {
            assert(is_unseen_module(*list, modules@, v, name@));
            never_loaded.insert(symbol);
        }
        known.insert(name.clone());
        i += 1;
    }
    let skipped_set = difference(&members, &known);
    let skipped = skipped_set.to_vec();
    proof {
        assert forall|n: Seq<char>| #[trigger] known@.contains(n) <==> modules@.contains_key(n) by {
            if modules@.contains_key(n) {
                assert(modules.keys().contains(n));
            }
        }
        assert forall|n: Seq<char>| #[trigger] texts(skipped@).contains(n) <==> list.disableable(n)
            && !modules@.contains_key(n) by {
            assert(skipped_set@.contains(n) <==> texts(skipped@).contains(n));
            assert(members@.contains(n) <==> list.disableable(n));
            assert(known@.contains(n) <==> modules@.contains_key(n));
        }
        assert forall|s: Seq<char>| #[trigger] idle@.contains(s) <==> exists|n: Seq<char>|
            #[trigger]
            is_idle_module(*list, modules@, v, n) && s == full_symbol(
                modules@[n].module_config@,
            ) by {
            if exists|n: Seq<char>| #[trigger]
                is_idle_module(*list, modules@, v, n) && s == full_symbol(
                    modules@[n].module_config@,
                ) {
                let n = choose|n: Seq<char>| #[trigger]
                    is_idle_module(*list, modules@, v, n) && s == full_symbol(
                        modules@[n].module_config@,
                    );
                assert(modules.keys().contains(n));
            }
        }
        assert forall|s: Seq<char>| #[trigger] never_loaded@.contains(s) <==> exists|n: Seq<char>|
            #[trigger]
            is_unseen_module(*list, modules@, v, n) && s == full_symbol(
                modules@[n].module_config@,
            ) by {
            if exists|n: Seq<char>| #[trigger]
                is_unseen_module(*list, modules@, v, n) && s == full_symbol(
                    modules@[n].module_config@,
                ) {
                let n = choose|n: Seq<char>| #[trigger]
                    is_unseen_module(*list, modules@, v, n) && s == full_symbol(
                        modules@[n].module_config@,
                    );
                assert(modules.keys().contains(n));
            }
        }
    }
    Candidates { clusters, skipped, idle, never_loaded }
}

// ── Filtering ─────────────────────────────────────────────────────────────────

/// Whether an active `select` of a symbol that stays would turn `symbol` on again if `symbols` were
/// disabled.
pub open spec fn is_forced(
    g: Map<Seq<char>, SymbolView>,
    values: Map<Seq<char>, Seq<char>>,
    symbols: Set<Seq<char>>,
    symbol: Seq<char>,
) -> bool {
    symbols.contains(symbol) && is_conflict(
        g,
        values,
        bare_symbols(symbols),
        bare_symbol(symbol),
    )
}

/// `symbols` without those that would be turned on again.
pub open spec fn without_forced(
    g: Map<Seq<char>, SymbolView>,
    values: Map<Seq<char>, Seq<char>>,
    symbols: Set<Seq<char>>,
) -> Set<Seq<char>> {
    Set::new(|s: Seq<char>| symbols.contains(s) && !is_forced(g, values, symbols, s))
}

/// What is left of `symbols` after `k` rounds of leaving out those that would be turned on again. A
/// symbol that is left out stays enabled, and may turn on others in its turn.
pub open spec fn remaining(
    g: Map<Seq<char>, SymbolView>,
    values: Map<Seq<char>, Seq<char>>,
    symbols: Set<Seq<char>>,
    k: nat,
) -> Set<Seq<char>>
    decreases k,
{
    if k == 0 {
        symbols
    } else {
        without_forced(g, values, remaining(g, values, symbols, (k - 1) as nat))
    }
}

/// Whether none of `symbols` would be turned on again.
pub open spec fn is_stable(
    g: Map<Seq<char>, SymbolView>,
    values: Map<Seq<char>, Seq<char>>,
    symbols: Set<Seq<char>>,
) -> bool {
    forall|s: Seq<char>| !#[trigger] is_forced(g, values, symbols, s)
}

/// Whether `kept` is what is left of `symbols` once none would be turned on again.
pub open spec fn is_stable_rest(
    g: Map<Seq<char>, SymbolView>,
    values: Map<Seq<char>, Seq<char>>,
    symbols: Set<Seq<char>>,
    kept: Set<Seq<char>>,
) -> bool {
    is_stable(g, values, kept) && exists|k: nat| kept == #[trigger] remaining(g, values, symbols, k)
}

/// The symbols that would be turned on again.
fn forced_symbols(graph: &KconfigGraph, values: &NameMap<String>, symbols: &NameSet) -> (forced:
    NameSet)
    ensures
        forall|s: Seq<char>| #[trigger]
            forced@.contains(s) <==> is_forced(graph@, value_texts(values@), symbols@, s),
{
    let ghost v = value_texts(values@);
    let conflicts = graph.validate_disabled(&to_bare_all(symbols), values);
    let mut forced = NameSet::new();
    let count: usize = symbols.len();
    let mut i: usize = 0;
    while i < count
        invariant
            i <= count,
            count == symbols.names().len(),
            v == value_texts(values@),
            forall|t: Seq<char>| #[trigger]
                conflicts@.contains(t) <==> is_conflict(graph@, v, bare_symbols(symbols@), t),
            forall|s: Seq<char>| #[trigger]
                forced@.contains(s) ==> is_forced(graph@, v, symbols@, s),
            forall|k: int|
                0 <= k < i && is_forced(graph@, v, symbols@, #[trigger] symbols.names()[k])
                    ==> forced@.contains(symbols.names()[k]),
        decreases count - i,
    {
        let symbol = symbols.get(i);
        if conflicts.contains(to_bare(symbol.as_str()).as_str()) {
            forced.insert(symbol.clone());
        }
        i += 1;
    }
    assert forall|s: Seq<char>| #[trigger] forced@.contains(s) <==> is_forced(
        graph@,
        v,
        symbols@,
        s,
    ) by {
        if is_forced(graph@, v, symbols@, s) {
            assert(symbols.names().contains(s));
        }
    }
    forced
}

/// Leaves out of `symbols` those that would be turned on again, until none would be.
fn drop_forced(graph: &KconfigGraph, values: &NameMap<String>, symbols: &NameSet) -> (kept: NameSet)
    ensures
        is_stable_rest(graph@, value_texts(values@), symbols@, kept@),
        kept@.subset_of(symbols@),
{
    let ghost g = graph@;
    let ghost v = value_texts(values@);
    let ghost start = symbols@;
    let mut kept = symbols.clone();
    let ghost mut k = 0nat;
    let mut done = false;
    let _size: usize = kept.len();
    while !done
        invariant
            g == graph@,
            v == value_texts(values@),
            start == symbols@,
            kept@ == remaining(g, v, start, k),
            kept@.subset_of(start),
            kept@.finite(),
            done ==> is_stable(g, v, kept@),
        decreases kept@.len() + if done { 0nat } else { 1nat },
    {
        let forced = forced_symbols(graph, values, &kept);
        if forced.is_empty() {
            assert(is_stable(g, v, kept@)) by {
                assert forall|s: Seq<char>| !#[trigger] is_forced(g, v, kept@, s) by {
                    assert(!forced@.contains(s));
                }
            }
            done = true;
        } else {
            let ghost before = kept@;
            kept = difference(&kept, &forced);
            proof {
                assert(kept@ =~= without_forced(g, v, before));
                assert(remaining(g, v, start, k + 1) == without_forced(g, v, before));
                assert(exists|s: Seq<char>| forced@.contains(s)) by {
                    if forall|s: Seq<char>| !forced@.contains(s) {
                        assert(forced@ =~= Set::empty());
                    }
                }
                let s = choose|s: Seq<char>| forced@.contains(s);
                assert(is_forced(g, v, before, s));
                assert(kept@.subset_of(before.remove(s)));
                vstd::set_lib::lemma_len_subset(kept@, before.remove(s));
                k = k + 1;
            }
        }
    }
    kept
}

/// What is to be disabled.
pub struct Reduction {
    /// The symbols of idle modules that would be turned on again, and are left alone.
    pub idle_forced: NameSet,
    /// The symbols of idle modules to disable.
    pub idle: NameSet,
    /// The symbols of modules never observed to disable.
    pub never_loaded: NameSet,
    /// How many symbols of modules never observed there were to choose from.
    pub never_loaded_candidates: usize,
}

impl Reduction {
    /// Everything that is to be disabled.
    pub open spec fn all(self) -> Set<Seq<char>> {
        self.idle@.union(self.never_loaded@)
    }

    /// Whether this is what is left of `candidates`.
    pub open spec fn of(
        self,
        candidates: Candidates,
        g: Map<Seq<char>, SymbolView>,
        values: Map<Seq<char>, Seq<char>>,
    ) -> bool {
        &&& is_stable_rest(g, values, candidates.all(), self.all())
        &&& self.idle@ == candidates.idle@.intersect(self.all())
        &&& self.never_loaded@ == candidates.never_loaded@.intersect(self.all())
        &&& self.idle_forced@ == candidates.idle@.difference(self.all())
        &&& self.never_loaded_candidates == candidates.never_loaded@.len()
    }

    /// Everything that is to be disabled.
    pub fn to_disable(&self) -> (symbols: NameSet)
        ensures
            symbols@ == self.all(),
    {
        union(&self.idle, &self.never_loaded)
    }
}

/// Decides which of the candidates are disabled: all but those that an active `select` constraint
/// would force back on. After they are disabled, run `make olddefconfig` to propagate cascades.
pub fn reduce_config(
    candidates: &Candidates,
    graph: &KconfigGraph,
    values: &NameMap<String>,
) -> (reduction: Reduction)
    ensures
        reduction.of(*candidates, graph@, value_texts(values@)),
        reduction.never_loaded@.len() <= reduction.never_loaded_candidates,
{
    let all = union(&candidates.idle, &candidates.never_loaded);
    let kept = drop_forced(graph, values, &all);
    let idle = intersection(&candidates.idle, &kept);
    let never_loaded = intersection(&candidates.never_loaded, &kept);
    let idle_forced = difference(&candidates.idle, &kept);
    let never_loaded_candidates = candidates.never_loaded.len();
    proof {
        assert(idle@.union(never_loaded@) =~= kept@);
        vstd::set_lib::lemma_len_subset(never_loaded@, candidates.never_loaded@);
    }
    Reduction { idle_forced, idle, never_loaded, never_loaded_candidates }
}

// ── Laws ──────────────────────────────────────────────────────────────────────

/// Once none would be turned on again, further rounds change nothing.
proof fn lemma_stable_stays(
    g: Map<Seq<char>, SymbolView>,
    values: Map<Seq<char>, Seq<char>>,
    symbols: Set<Seq<char>>,
    k: nat,
    m: nat,
)
    requires
        is_stable(g, values, remaining(g, values, symbols, k)),
        k <= m,
    ensures
        remaining(g, values, symbols, m) == remaining(g, values, symbols, k),
    decreases m - k,
{
    if k < m {
        lemma_stable_stays(g, values, symbols, k, (m - 1) as nat);
        let s = remaining(g, values, symbols, k);
        assert forall|x: Seq<char>| !#[trigger] is_forced(g, values, s, x) by {
            assert(!is_forced(g, values, remaining(g, values, symbols, k), x));
        }
        assert(without_forced(g, values, s) =~= s);
    }
}

/// What is left once none would be turned on again is one set, however many rounds it took.
pub proof fn lemma_stable_rest_unique(
    g: Map<Seq<char>, SymbolView>,
    values: Map<Seq<char>, Seq<char>>,
    symbols: Set<Seq<char>>,
    a: Set<Seq<char>>,
    b: Set<Seq<char>>,
)
    requires
        is_stable_rest(g, values, symbols, a),
        is_stable_rest(g, values, symbols, b),
    ensures
        a == b,
{
    let k = choose|k: nat| a == #[trigger] remaining(g, values, symbols, k);
    let m = choose|m: nat| b == #[trigger] remaining(g, values, symbols, m);
    if k <= m {
        lemma_stable_stays(g, values, symbols, k, m);
    } else {
        lemma_stable_stays(g, values, symbols, m, k);
    }
}

/// Nothing that a reduction disables is turned on again by an active `select` of a symbol that
/// stays enabled.
pub proof fn lemma_reduction_has_no_conflict(
    candidates: Candidates,
    reduction: Reduction,
    g: Map<Seq<char>, SymbolView>,
    values: Map<Seq<char>, Seq<char>>,
    target: Seq<char>,
)
    requires
        reduction.of(candidates, g, values),
    ensures
        !is_conflict(g, values, bare_symbols(reduction.all()), target),
{
    let all = reduction.all();
    if is_conflict(g, values, bare_symbols(all), target) {
        let s = choose|s: Seq<char>| #[trigger] all.contains(s) && bare_symbol(s) == target;
        assert(is_forced(g, values, all, s));
    }
}

/// A reduction disables candidates only; none of them has to stay for a module that has to stay, a
/// device on the target, or a pin.
pub proof fn lemma_reduction_spares_what_must_stay(
    list: ModuleList,
    modules: Map<Seq<char>, KernelModule>,
    values: Map<Seq<char>, Seq<char>>,
    candidates: Candidates,
    reduction: Reduction,
    g: Map<Seq<char>, SymbolView>,
    symbol: Seq<char>,
)
    requires
        candidates.of(list, modules, values),
        reduction.of(candidates, g, values),
        reduction.all().contains(symbol),
    ensures
        exists|n: Seq<char>|
            #![trigger modules.contains_key(n)]
            modules.contains_key(n) && symbol == full_symbol(modules[n].module_config@)
                && !is_pinned(list, bare_symbol(modules[n].module_config@)) && (list.disableable(n)
                || !list.shows(Evidence::InTree, n)),
{
    if reduction.idle@.contains(symbol) {
        assert(candidates.idle@.contains(symbol));
        let n = choose|n: Seq<char>| #[trigger]
            is_idle_module(list, modules, values, n) && symbol == full_symbol(
                modules[n].module_config@,
            );
        assert(modules.contains_key(n));
    } else {
        assert(candidates.never_loaded@.contains(symbol));
        let n = choose|n: Seq<char>| #[trigger]
            is_unseen_module(list, modules, values, n) && symbol == full_symbol(
                modules[n].module_config@,
            );
        assert(modules.contains_key(n));
    }
}

} // verus!
