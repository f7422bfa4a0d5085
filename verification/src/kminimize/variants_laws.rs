//! What a variant takes along, file by file, symbol by symbol and module by module.
use crate::kbuild::expr::{cond_holds, cond_symbols};
use crate::kbuild::maps::ModuleView;
use crate::kconfig::expr::{holds, lemma_enabled_is_y_or_m, with_disabled, Expr};
use crate::kconfig::graph::{
    forced_by, in_cascade, is_settled, lemma_settled_once, rounds, selects_always,
    selects_under_condition, SymbolView,
};
use crate::kconfig::graph_laws::{
    lemma_active_selectors, lemma_direct_dependents_fall, lemma_unconditional_selectors,
};
use crate::kminimize::variants::{
    are_variants, has_change, ranks_before, DisableVariant, Kernel,
};
use crate::names::{lemma_order_total, precedes};
use crate::reach::lemma_leads_to_self;
use crate::text::texts;
use vstd::prelude::*;

verus! {

/// The symbols with the value `y` or `m`.
pub open spec fn on_before(values: Map<Seq<char>, Seq<char>>) -> Set<Seq<char>> {
    Set::new(
        |s: Seq<char>| values.contains_key(s) && (values[s] == "y"@ || values[s] == "m"@),
    )
}

/// The symbols with the value `y` or `m`, but for `symbol` and those that have to be disabled along
/// with it.
pub open spec fn on_after(
    g: Map<Seq<char>, SymbolView>,
    values: Map<Seq<char>, Seq<char>>,
    symbol: Seq<char>,
) -> Set<Seq<char>> {
    Set::new(
        |s: Seq<char>|
            values.contains_key(s) && (values[s] == "y"@ || values[s] == "m"@) && s != symbol
                && !in_cascade(g, values, symbol, s),
    )
}

proof fn lemma_on(kernel: Kernel, symbol: Seq<char>)
    ensures
        kernel.enabled() == on_before(kernel.values),
        kernel.enabled_without(symbol) == on_after(kernel.graph, kernel.values, symbol),
        forall|n: Seq<char>| #[trigger]
            kernel.disabled_with(symbol).contains(n) <==> n == symbol || in_cascade(
                kernel.graph,
                kernel.values,
                symbol,
                n,
            ),
{
    lemma_leads_to_self(forced_by(kernel.graph, kernel.values), symbol);
    assert forall|n: Seq<char>| #[trigger]
        kernel.disabled_with(symbol).contains(n) <==> n == symbol || in_cascade(
            kernel.graph,
            kernel.values,
            symbol,
            n,
        ) by {
    }
    assert forall|n: Seq<char>| kernel.enabled().contains(n) <==> on_before(
        kernel.values,
    ).contains(n) by {
        lemma_enabled_is_y_or_m(kernel.values, n);
    }
    assert(kernel.enabled() =~= on_before(kernel.values));
    assert forall|n: Seq<char>| kernel.enabled_without(symbol).contains(n) <==> on_after(
        kernel.graph,
        kernel.values,
        symbol,
    ).contains(n) by {
        lemma_enabled_is_y_or_m(kernel.values, n);
        assert(kernel.disabled_with(symbol).contains(n) <==> n == symbol || in_cascade(
            kernel.graph,
            kernel.values,
            symbol,
            n,
        ));
    }
    assert(kernel.enabled_without(symbol) =~= on_after(kernel.graph, kernel.values, symbol));
}

/// Whether some file of the module is compiled where `on` is enabled.
pub open spec fn any_compiled(kernel: Kernel, module: ModuleView, on: Set<Seq<char>>) -> bool {
    exists|i: int|
        0 <= i < module.files.len() && kernel.files.contains_key(#[trigger] module.files[i])
            && cond_holds(kernel.files[module.files[i]], on)
}

proof fn lemma_builds(kernel: Kernel, module: ModuleView, on: Set<Seq<char>>)
    ensures
        kernel.builds(module, on) <==> any_compiled(kernel, module, on),
{
    if kernel.builds(module, on) {
        let i = choose|i: int|
            0 <= i < module.files.len() && kernel.compiles(#[trigger] module.files[i], on);
        assert(kernel.files.contains_key(module.files[i]));
    }
    if any_compiled(kernel, module, on) {
        let i = choose|i: int|
            0 <= i < module.files.len() && kernel.files.contains_key(#[trigger] module.files[i])
                && cond_holds(kernel.files[module.files[i]], on);
        assert(kernel.compiles(module.files[i], on));
    }
}

/// Every symbol that is `y` or `m`, is the module's own or stands in the condition of any of its
/// files, and whose disabling, with what has to be disabled along, leaves none of the module's files
/// compiled where some were, has a variant.
pub proof fn lemma_every_silencing_symbol_has_a_variant(
    kernel: Kernel,
    module: ModuleView,
    variants: Seq<DisableVariant>,
    symbol: Seq<char>,
)
    requires
        are_variants(kernel, module, variants),
        symbol == module.config || exists|i: int|
            0 <= i < module.files.len() && kernel.files.contains_key(#[trigger] module.files[i])
                && cond_symbols(kernel.files[module.files[i]]).contains(symbol),
        kernel.values.contains_key(symbol),
        kernel.values[symbol] == "y"@ || kernel.values[symbol] == "m"@,
        any_compiled(kernel, module, on_before(kernel.values)),
        !any_compiled(kernel, module, on_after(kernel.graph, kernel.values, symbol)),
    ensures
        exists|i: int| 0 <= i < variants.len() && (#[trigger] variants[i]).change.0@ == symbol,
{
    lemma_on(kernel, symbol);
    lemma_enabled_is_y_or_m(kernel.values, symbol);
    lemma_builds(kernel, module, kernel.enabled());
    lemma_builds(kernel, module, kernel.enabled_without(symbol));
    assert(kernel.silences(module, symbol));
    assert(has_change(variants, symbol));
}

/// A variant sets to `n` one symbol that is `y` or `m`, and keeps a module out of the build that was
/// in it.
pub proof fn lemma_variant_silences(
    kernel: Kernel,
    module: ModuleView,
    variants: Seq<DisableVariant>,
    i: int,
)
    requires
        are_variants(kernel, module, variants),
        0 <= i < variants.len(),
    ensures
        variants[i].change.1@ == "n"@,
        kernel.values.contains_key(variants[i].change.0@),
        kernel.values[variants[i].change.0@] == "y"@ || kernel.values[variants[i].change.0@]
            == "m"@,
        any_compiled(kernel, module, on_before(kernel.values)),
        !any_compiled(
            kernel,
            module,
            on_after(kernel.graph, kernel.values, variants[i].change.0@),
        ),
        variants[i].change.0@ == module.config || exists|j: int|
            0 <= j < module.files.len() && kernel.files.contains_key(#[trigger] module.files[j])
                && cond_symbols(kernel.files[module.files[j]]).contains(variants[i].change.0@),
{
    let symbol = variants[i].change.0@;
    assert(kernel.silences(module, symbol));
    assert(kernel.is_variant(module, symbol, variants[i]));
    lemma_on(kernel, symbol);
    lemma_enabled_is_y_or_m(kernel.values, symbol);
    lemma_builds(kernel, module, kernel.enabled());
    lemma_builds(kernel, module, kernel.enabled_without(symbol));
}

/// The files that a variant takes along are those outside the module that are compiled before and
/// are not once the symbol, and what has to be disabled along, is off.
pub proof fn lemma_files_taken_along(
    kernel: Kernel,
    module: ModuleView,
    v: DisableVariant,
    file: Seq<char>,
)
    requires
        kernel.is_variant(module, v.change.0@, v),
    ensures
        v.side_effect_files@.contains(file) <==> !module.files.contains(file)
            && kernel.files.contains_key(file) && cond_holds(
            kernel.files[file],
            on_before(kernel.values),
        ) && !cond_holds(
            kernel.files[file],
            on_after(kernel.graph, kernel.values, v.change.0@),
        ),
{
    lemma_on(kernel, v.change.0@);
    assert(v.side_effect_files@.contains(file) <==> kernel.is_side_effect(
        module,
        v.change.0@,
        file,
    ));
}

/// The symbols that a variant lists are those that have to be disabled along with the changed one and
/// select it themselves: without a condition those of the one list, under a condition that holds
/// those of the other.
pub proof fn lemma_symbols_taken_along(
    kernel: Kernel,
    module: ModuleView,
    v: DisableVariant,
    n: Seq<char>,
)
    requires
        kernel.is_variant(module, v.change.0@, v),
    ensures
        v.cascade_unconditional@.contains(n) <==> in_cascade(
            kernel.graph,
            kernel.values,
            v.change.0@,
            n,
        ) && kernel.graph.contains_key(n) && kernel.graph[n].selects.contains(
            (v.change.0@, Expr::Always),
        ),
        v.cascade_active@.contains(n) <==> in_cascade(
            kernel.graph,
            kernel.values,
            v.change.0@,
            n,
        ) && kernel.graph.contains_key(n) && exists|c: Expr|
            c != Expr::Always && #[trigger] kernel.graph[n].selects.contains((v.change.0@, c))
                && holds(c, kernel.values),
{
    let symbol = v.change.0@;
    lemma_on(kernel, symbol);
    assert(kernel.disabled_with(symbol).contains(n) <==> n == symbol || in_cascade(
        kernel.graph,
        kernel.values,
        symbol,
        n,
    ));
    assert(v.cascade_unconditional@.contains(n) <==> n != symbol && kernel.disabled_with(
        symbol,
    ).contains(n) && selects_always(kernel.graph, n, symbol));
    assert(v.cascade_active@.contains(n) <==> n != symbol && kernel.disabled_with(symbol).contains(
        n,
    ) && selects_under_condition(kernel.graph, kernel.values, n, symbol));
    if kernel.graph.contains_key(n) {
        lemma_unconditional_selectors(kernel.graph, n, symbol);
        lemma_active_selectors(kernel.graph, kernel.values, n, symbol);
    }
}

/// The modules that a variant takes along are the others whose symbols lose what they depend on, in
/// any number of rounds, once the symbol, and what has to be disabled along, is off.
pub proof fn lemma_modules_taken_along(
    kernel: Kernel,
    module: ModuleView,
    v: DisableVariant,
    off: Set<Seq<char>>,
    k: nat,
    n: Seq<char>,
)
    requires
        kernel.is_variant(module, v.change.0@, v),
        forall|s: Seq<char>| #[trigger]
            off.contains(s) <==> s == v.change.0@ || in_cascade(
                kernel.graph,
                kernel.values,
                v.change.0@,
                s,
            ),
        is_settled(kernel.graph, kernel.values, off, k),
    ensures
        texts(v.collateral_modules@).contains(n) <==> n != module.name
            && kernel.modules.contains_key(n) && rounds(
            kernel.graph,
            kernel.values,
            off,
            k,
        ).contains(kernel.modules[n].config) && !off.contains(kernel.modules[n].config),
{
    let symbol = v.change.0@;
    lemma_on(kernel, symbol);
    let own = kernel.disabled_with(symbol);
    assert(off =~= own);
    let m = choose|m: nat| #[trigger]
        is_settled(kernel.graph, kernel.values, own, m) && forall|x: Seq<char>| #[trigger]
            texts(v.collateral_modules@).contains(x) <==> kernel.is_collateral(
                module,
                rounds(kernel.graph, kernel.values, own, m).difference(own),
                x,
            );
    lemma_settled_once(kernel.graph, kernel.values, own, k, m);
    assert(texts(v.collateral_modules@).contains(n) <==> kernel.is_collateral(
        module,
        rounds(kernel.graph, kernel.values, own, m).difference(own),
        n,
    ));
}

/// Another module whose symbol is `y` or `m`, and whose symbol's dependencies held and fail once the
/// changed symbol, and what has to be disabled along, is off, is among those taken along.
pub proof fn lemma_dependent_modules_are_taken_along(
    kernel: Kernel,
    module: ModuleView,
    v: DisableVariant,
    off: Set<Seq<char>>,
    n: Seq<char>,
)
    requires
        kernel.is_variant(module, v.change.0@, v),
        forall|s: Seq<char>| #[trigger]
            off.contains(s) <==> s == v.change.0@ || in_cascade(
                kernel.graph,
                kernel.values,
                v.change.0@,
                s,
            ),
        n != module.name,
        kernel.modules.contains_key(n),
        !off.contains(kernel.modules[n].config),
        kernel.graph.contains_key(kernel.modules[n].config),
        kernel.values.contains_key(kernel.modules[n].config),
        kernel.values[kernel.modules[n].config] == "y"@ || kernel.values[kernel.modules[n].config]
            == "m"@,
        kernel.graph[kernel.modules[n].config].depends_on is Some,
        holds(kernel.graph[kernel.modules[n].config].depends_on->0, kernel.values),
        !holds(
            kernel.graph[kernel.modules[n].config].depends_on->0,
            with_disabled(kernel.values, off),
        ),
    ensures
        texts(v.collateral_modules@).contains(n),
{
    let symbol = v.change.0@;
    lemma_on(kernel, symbol);
    let own = kernel.disabled_with(symbol);
    assert(off =~= own);
    let m = choose|m: nat| #[trigger]
        is_settled(kernel.graph, kernel.values, own, m) && forall|x: Seq<char>| #[trigger]
            texts(v.collateral_modules@).contains(x) <==> kernel.is_collateral(
                module,
                rounds(kernel.graph, kernel.values, own, m).difference(own),
                x,
            );
    lemma_direct_dependents_fall(
        kernel.graph,
        kernel.values,
        off,
        m,
        kernel.modules[n].config,
    );
    lemma_modules_taken_along(kernel, module, v, off, m, n);
}

/// Variants stand in the order of their side effects: fewer files first, then fewer symbols, then by
/// name; no symbol has two.
pub proof fn lemma_variants_in_order(
    kernel: Kernel,
    module: ModuleView,
    variants: Seq<DisableVariant>,
    i: int,
    j: int,
)
    requires
        are_variants(kernel, module, variants),
        0 <= i < j < variants.len(),
    ensures
        variants[i].side_effect_files@.len() <= variants[j].side_effect_files@.len(),
        variants[i].side_effect_files@.len() == variants[j].side_effect_files@.len()
            ==> variants[i].cascade_unconditional@.len() + variants[i].cascade_active@.len()
            <= variants[j].cascade_unconditional@.len() + variants[j].cascade_active@.len(),
        variants[i].side_effect_files@.len() == variants[j].side_effect_files@.len()
            && variants[i].cascade_unconditional@.len() + variants[i].cascade_active@.len()
            == variants[j].cascade_unconditional@.len() + variants[j].cascade_active@.len()
            ==> precedes(variants[i].change.0@, variants[j].change.0@),
        variants[i].change.0@ != variants[j].change.0@,
{
    assert(ranks_before(variants[i], variants[j]));
    lemma_order_total(variants[i].change.0@, variants[j].change.0@);
    if variants[i].change.0@ == variants[j].change.0@ {
        lemma_one_variant_per_symbol(
            kernel,
            module,
            variants[i].change.0@,
            variants[i],
            variants[j],
        );
    }
}

/// Two variants that change the same symbol of one kernel take the same files and symbols along.
pub proof fn lemma_one_variant_per_symbol(
    kernel: Kernel,
    module: ModuleView,
    symbol: Seq<char>,
    a: DisableVariant,
    b: DisableVariant,
)
    requires
        kernel.is_variant(module, symbol, a),
        kernel.is_variant(module, symbol, b),
    ensures
        a.side_effect_files@ == b.side_effect_files@,
        a.cascade_unconditional@ == b.cascade_unconditional@,
        a.cascade_active@ == b.cascade_active@,
{
    assert forall|f: Seq<char>| a.side_effect_files@.contains(f)
        <==> b.side_effect_files@.contains(f) by {
        assert(a.side_effect_files@.contains(f) <==> kernel.is_side_effect(module, symbol, f));
        assert(b.side_effect_files@.contains(f) <==> kernel.is_side_effect(module, symbol, f));
    }
    assert(a.side_effect_files@ =~= b.side_effect_files@);
    assert(a.cascade_unconditional@ =~= b.cascade_unconditional@);
    assert(a.cascade_active@ =~= b.cascade_active@);
}

} // verus!
