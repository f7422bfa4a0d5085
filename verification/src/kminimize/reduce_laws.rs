//! What a reduction comes to, symbol by symbol.
use crate::gather::clusters::{in_some, name_lists};
use crate::gather::laws::{has_entry, lemma_evidence_has_entry, lemma_every_entry_counts};
use crate::gather::{Evidence, ModuleList};
use crate::kbuild::maps::KernelModule;
use crate::kconfig::expr::{holds, lemma_enabled_is_y_or_m, value_of};
use crate::kconfig::graph::SymbolView;
use crate::kconfig::graph_laws::{
    lemma_conflict_has_cause, lemma_conflict_with_fewer_disabled, lemma_every_select_counts,
};
use crate::kminimize::reduce::{
    bare_symbol, bare_symbols, full_symbol, is_forced, is_idle_module, is_pinned, is_unseen_module,
    remaining, without_forced, Candidates, Reduction,
};
use crate::text::{texts, without_prefixes};
use vstd::prelude::*;

verus! {

// ── Names ─────────────────────────────────────────────────────────────────────

/// A name that does not begin with `CONFIG_` is that of its symbol, with the prefix and without it.
pub proof fn lemma_bare_undoes_full(name: Seq<char>)
    requires
        !"CONFIG_"@.is_prefix_of(name),
    ensures
        bare_symbol(name) == name,
        bare_symbol(full_symbol(name)) == name,
{
    reveal_strlit("CONFIG_");
    reveal_with_fuel(without_prefixes, 3);
    let full = full_symbol(name);
    assert(full.subrange(0, "CONFIG_"@.len() as int) =~= "CONFIG_"@);
    assert("CONFIG_"@.is_prefix_of(full));
    assert(full.skip("CONFIG_"@.len() as int) =~= name);
}

// ── Candidates ────────────────────────────────────────────────────────────────

/// Whether the symbol is pinned: it is one of the names that the list says have to stay enabled.
pub open spec fn pins(list: ModuleList, name: Seq<char>) -> bool {
    exists|i: int|
        0 <= i < list.pinned_configs@.len() && (#[trigger] list.pinned_configs@[i])@ == name
}

proof fn lemma_pins(list: ModuleList, name: Seq<char>)
    ensures
        is_pinned(list, name) <==> pins(list, name),
{
    let all = texts(list.pinned_configs@);
    if is_pinned(list, name) {
        let i = choose|i: int| 0 <= i < all.len() && all[i] == name;
        assert(list.pinned_configs@[i]@ == name);
    }
    if pins(list, name) {
        let i = choose|i: int|
            0 <= i < list.pinned_configs@.len() && (#[trigger] list.pinned_configs@[i])@ == name;
        assert(all[i] == name);
    }
}

/// The symbol of every module that stands in a cluster is a candidate, if the kernel source knows
/// the module, and the symbol is `y` or `m` and not pinned.
pub proof fn lemma_clustered_modules_are_candidates(
    list: ModuleList,
    modules: Map<Seq<char>, KernelModule>,
    values: Map<Seq<char>, Seq<char>>,
    candidates: Candidates,
    n: Seq<char>,
)
    requires
        candidates.of(list, modules, values),
        in_some(name_lists(candidates.clusters@), n),
        modules.contains_key(n),
        !"CONFIG_"@.is_prefix_of(modules[n].module_config@),
        values.contains_key(modules[n].module_config@),
        values[modules[n].module_config@] == "y"@ || values[modules[n].module_config@] == "m"@,
        !pins(list, modules[n].module_config@),
    ensures
        candidates.idle@.contains("CONFIG_"@ + modules[n].module_config@),
{
    let config = modules[n].module_config@;
    lemma_bare_undoes_full(config);
    lemma_enabled_is_y_or_m(values, config);
    lemma_pins(list, config);
    assert(list.disableable(n));
    assert(is_idle_module(list, modules, values, n));
}

/// The symbol of an idle module is a candidate only so.
pub proof fn lemma_idle_candidates_are_clustered(
    list: ModuleList,
    modules: Map<Seq<char>, KernelModule>,
    values: Map<Seq<char>, Seq<char>>,
    candidates: Candidates,
    symbol: Seq<char>,
) -> (n: Seq<char>)
    requires
        candidates.of(list, modules, values),
        candidates.idle@.contains(symbol),
        forall|m: Seq<char>| #[trigger]
            modules.contains_key(m) ==> !"CONFIG_"@.is_prefix_of(modules[m].module_config@),
    ensures
        in_some(name_lists(candidates.clusters@), n),
        modules.contains_key(n),
        symbol == "CONFIG_"@ + modules[n].module_config@,
        values.contains_key(modules[n].module_config@),
        values[modules[n].module_config@] == "y"@ || values[modules[n].module_config@] == "m"@,
        !pins(list, modules[n].module_config@),
{
    let n = choose|n: Seq<char>| #[trigger]
        is_idle_module(list, modules, values, n) && symbol == full_symbol(
            modules[n].module_config@,
        );
    let config = modules[n].module_config@;
    lemma_bare_undoes_full(config);
    lemma_enabled_is_y_or_m(values, config);
    lemma_pins(list, config);
    assert(list.disableable(n));
    n
}

/// The symbol of every module that the kernel source knows and that no in-tree entry of any snapshot
/// is for is a candidate, if it is `m` and not pinned.
pub proof fn lemma_unseen_modules_are_candidates(
    list: ModuleList,
    modules: Map<Seq<char>, KernelModule>,
    values: Map<Seq<char>, Seq<char>>,
    candidates: Candidates,
    n: Seq<char>,
)
    requires
        candidates.of(list, modules, values),
        modules.contains_key(n),
        !has_entry(list, n, false, 0),
        !"CONFIG_"@.is_prefix_of(modules[n].module_config@),
        values.contains_key(modules[n].module_config@),
        values[modules[n].module_config@] == "m"@,
        !pins(list, modules[n].module_config@),
    ensures
        candidates.never_loaded@.contains("CONFIG_"@ + modules[n].module_config@),
{
    let config = modules[n].module_config@;
    lemma_bare_undoes_full(config);
    lemma_pins(list, config);
    if list.shows(Evidence::InTree, n) {
        lemma_evidence_has_entry(list, Evidence::InTree, n);
    }
    assert(is_unseen_module(list, modules, values, n));
}

/// The symbol of a module never observed is a candidate only so.
pub proof fn lemma_unseen_candidates_are_unseen(
    list: ModuleList,
    modules: Map<Seq<char>, KernelModule>,
    values: Map<Seq<char>, Seq<char>>,
    candidates: Candidates,
    symbol: Seq<char>,
) -> (n: Seq<char>)
    requires
        candidates.of(list, modules, values),
        candidates.never_loaded@.contains(symbol),
        forall|m: Seq<char>| #[trigger]
            modules.contains_key(m) ==> !"CONFIG_"@.is_prefix_of(modules[m].module_config@),
    ensures
        modules.contains_key(n),
        !has_entry(list, n, false, 0),
        symbol == "CONFIG_"@ + modules[n].module_config@,
        values.contains_key(modules[n].module_config@),
        values[modules[n].module_config@] == "m"@,
        !pins(list, modules[n].module_config@),
{
    let n = choose|n: Seq<char>| #[trigger]
        is_unseen_module(list, modules, values, n) && symbol == full_symbol(
            modules[n].module_config@,
        );
    let config = modules[n].module_config@;
    lemma_bare_undoes_full(config);
    lemma_pins(list, config);
    reveal_strlit("n");
    reveal_strlit("m");
    assert("n"@[0] != "m"@[0]);
    assert(value_of(values, config) == "m"@);
    if has_entry(list, n, false, 0) {
        let (i, j) = choose|i: int, j: int|
            0 <= i < list.snapshots@.len() && 0 <= j < list.snapshots@[i].modules@.len() && {
                let e = #[trigger] list.snapshots@[i].modules@[j];
                &&& e.name@ == n
                &&& !e.is_out_of_tree
                &&& false ==> e.state == crate::gather::ModuleState::Live
                &&& e.use_count >= 0
            };
        lemma_every_entry_counts(list, i, j);
    }
    n
}

/// The modules that are skipped are those of the clusters that the kernel source does not know.
pub proof fn lemma_skipped_are_unknown(
    list: ModuleList,
    modules: Map<Seq<char>, KernelModule>,
    values: Map<Seq<char>, Seq<char>>,
    candidates: Candidates,
    n: Seq<char>,
)
    requires
        candidates.of(list, modules, values),
    ensures
        texts(candidates.skipped@).contains(n) <==> in_some(name_lists(candidates.clusters@), n)
            && !modules.contains_key(n),
{
    assert(list.disableable(n) <==> in_some(name_lists(candidates.clusters@), n));
}

// ── Filtering ─────────────────────────────────────────────────────────────────

/// A reduction disables candidates, and says of each symbol of an idle module whether it is disabled
/// or left alone.
pub proof fn lemma_reduction_splits_candidates(
    candidates: Candidates,
    reduction: Reduction,
    g: Map<Seq<char>, SymbolView>,
    values: Map<Seq<char>, Seq<char>>,
    s: Seq<char>,
)
    requires
        reduction.of(candidates, g, values),
    ensures
        candidates.idle@.contains(s) <==> reduction.idle@.contains(s)
            || reduction.idle_forced@.contains(s),
        !(reduction.idle@.contains(s) && reduction.idle_forced@.contains(s)),
        reduction.idle_forced@.contains(s) ==> !reduction.never_loaded@.contains(s),
        reduction.never_loaded@.contains(s) ==> candidates.never_loaded@.contains(s),
        candidates.never_loaded@.contains(s) && reduction.idle@.contains(s)
            ==> reduction.never_loaded@.contains(s),
        reduction.never_loaded_candidates == candidates.never_loaded@.len(),
{
}

/// No symbol that is `y` or `m` and stays selects, under a condition that holds, a symbol that a
/// reduction disables, by any of its selects.
pub proof fn lemma_nothing_disabled_is_selected(
    candidates: Candidates,
    reduction: Reduction,
    g: Map<Seq<char>, SymbolView>,
    values: Map<Seq<char>, Seq<char>>,
    s: Seq<char>,
    key: Seq<char>,
    q: int,
)
    requires
        reduction.of(candidates, g, values),
        reduction.idle@.contains(s) || reduction.never_loaded@.contains(s),
        g.contains_key(key),
        0 <= q < g[key].selects.len(),
        g[key].selects[q].0 == bare_symbol(s),
        holds(g[key].selects[q].1, values),
        values.contains_key(g[key].name),
        values[g[key].name] == "y"@ || values[g[key].name] == "m"@,
    ensures
        exists|t: Seq<char>| #[trigger]
            reduction.all().contains(t) && bare_symbol(t) == g[key].name,
{
    let all = reduction.all();
    let off = bare_symbols(all);
    assert(all.contains(s));
    assert(off.contains(bare_symbol(s)));
    if !off.contains(g[key].name) {
        lemma_every_select_counts(g, values, off, key, q);
        assert(is_forced(g, values, all, s));
    }
}

/// A candidate that a symbol selects, by any of its selects under a condition that holds, is not
/// disabled if that symbol is `y` or `m` and no candidate.
pub proof fn lemma_selected_candidates_stay(
    candidates: Candidates,
    reduction: Reduction,
    g: Map<Seq<char>, SymbolView>,
    values: Map<Seq<char>, Seq<char>>,
    s: Seq<char>,
    key: Seq<char>,
    q: int,
)
    requires
        reduction.of(candidates, g, values),
        g.contains_key(key),
        0 <= q < g[key].selects.len(),
        g[key].selects[q].0 == bare_symbol(s),
        holds(g[key].selects[q].1, values),
        values.contains_key(g[key].name),
        values[g[key].name] == "y"@ || values[g[key].name] == "m"@,
        forall|t: Seq<char>| #[trigger]
            candidates.idle@.contains(t) ==> bare_symbol(t) != g[key].name,
        forall|t: Seq<char>| #[trigger]
            candidates.never_loaded@.contains(t) ==> bare_symbol(t) != g[key].name,
    ensures
        !reduction.idle@.contains(s),
        !reduction.never_loaded@.contains(s),
{
    if reduction.idle@.contains(s) || reduction.never_loaded@.contains(s) {
        lemma_nothing_disabled_is_selected(candidates, reduction, g, values, s, key, q);
        let t = choose|t: Seq<char>| #[trigger]
            reduction.all().contains(t) && bare_symbol(t) == g[key].name;
        assert(candidates.idle@.contains(t) || candidates.never_loaded@.contains(t));
    }
}

/// Whether `set` can be disabled: no symbol of it is selected, under a condition that holds, by one
/// that is `y` or `m` and is not of `set` itself.
pub open spec fn can_be_disabled(
    g: Map<Seq<char>, SymbolView>,
    values: Map<Seq<char>, Seq<char>>,
    set: Set<Seq<char>>,
) -> bool {
    forall|s: Seq<char>, key: Seq<char>, q: int|
        #![trigger set.contains(s), g[key].selects[q]]
        set.contains(s) && g.contains_key(key) && 0 <= q < g[key].selects.len()
            && g[key].selects[q].0 == bare_symbol(s) && holds(g[key].selects[q].1, values)
            && values.contains_key(g[key].name) && (values[g[key].name] == "y"@
            || values[g[key].name] == "m"@) ==> bare_symbols(set).contains(g[key].name)
}

/// A reduction disables as much as can be: every set of candidates that can be disabled is disabled.
pub proof fn lemma_reduction_is_greatest(
    candidates: Candidates,
    reduction: Reduction,
    g: Map<Seq<char>, SymbolView>,
    values: Map<Seq<char>, Seq<char>>,
    set: Set<Seq<char>>,
    s: Seq<char>,
)
    requires
        reduction.of(candidates, g, values),
        forall|t: Seq<char>| #[trigger]
            set.contains(t) ==> candidates.idle@.contains(t) || candidates.never_loaded@.contains(
                t,
            ),
        can_be_disabled(g, values, set),
        set.contains(s),
    ensures
        candidates.idle@.contains(s) ==> reduction.idle@.contains(s),
        candidates.never_loaded@.contains(s) ==> reduction.never_loaded@.contains(s),
{
    let all = candidates.all();
    let k = choose|k: nat| reduction.all() == #[trigger] remaining(g, values, all, k);
    assert(set.subset_of(all));
    lemma_stays_through(g, values, all, set, k);
    assert(reduction.all().contains(s));
}

proof fn lemma_stays_through(
    g: Map<Seq<char>, SymbolView>,
    values: Map<Seq<char>, Seq<char>>,
    all: Set<Seq<char>>,
    set: Set<Seq<char>>,
    k: nat,
)
    requires
        set.subset_of(all),
        can_be_disabled(g, values, set),
    ensures
        set.subset_of(remaining(g, values, all, k)),
    decreases k,
{
    if k > 0 {
        let before = remaining(g, values, all, (k - 1) as nat);
        lemma_stays_through(g, values, all, set, (k - 1) as nat);
        assert(remaining(g, values, all, k) == without_forced(g, values, before));
        assert forall|s: Seq<char>| set.contains(s) implies remaining(
            g,
            values,
            all,
            k,
        ).contains(s) by {
            assert(before.contains(s));
            if is_forced(g, values, before, s) {
                let fewer = bare_symbols(set);
                let more = bare_symbols(before);
                assert(fewer.subset_of(more)) by {
                    assert forall|b: Seq<char>| fewer.contains(b) implies more.contains(b) by {
                        let t = choose|t: Seq<char>| #[trigger]
                            set.contains(t) && bare_symbol(t) == b;
                        assert(before.contains(t));
                    }
                }
                assert(fewer.contains(bare_symbol(s)));
                lemma_conflict_with_fewer_disabled(g, values, fewer, more, bare_symbol(s));
                lemma_conflict_has_cause(g, values, fewer, bare_symbol(s));
                let (key, q) = choose|key: Seq<char>, q: int|
                    #![trigger g[key].selects[q]]
                    g.contains_key(key) && 0 <= q < g[key].selects.len() && g[key].selects[q].0
                        == bare_symbol(s) && holds(g[key].selects[q].1, values) && !fewer.contains(
                        g[key].name,
                    ) && values.contains_key(g[key].name) && (values[g[key].name] == "y"@
                        || values[g[key].name] == "m"@);
                assert(set.contains(s) && g[key].selects[q].0 == bare_symbol(s));
            }
        }
    }
}

} // verus!
