//! What selecting and requiring come to, symbol by symbol and select by select.
use crate::kconfig::expr::{
    holds, lemma_enabled_is_y_or_m, lemma_holds_by_symbols, symbols_of, value_of, with_disabled,
    Expr,
};
use crate::kconfig::graph::{
    falls, forced_by, forces, in_cascade, is_conflict, is_settled, lemma_rounds_grow, round, rounds,
    selects_actively, selects_always, selects_under_condition, still_selects, SymbolView,
};
use crate::reach::{lemma_closed, lemma_leads_to_self, lemma_leads_to_step, walk};
use vstd::prelude::*;

verus! {

// ── Conflicts ─────────────────────────────────────────────────────────────────

/// Every select of every symbol that stays counts, wherever it stands: if the symbol is `y` or `m`
/// and is not to be disabled, and the condition of the select holds, then its target, if it is to be
/// disabled, is in conflict.
pub proof fn lemma_every_select_counts(
    g: Map<Seq<char>, SymbolView>,
    values: Map<Seq<char>, Seq<char>>,
    disabled: Set<Seq<char>>,
    key: Seq<char>,
    q: int,
)
    requires
        g.contains_key(key),
        0 <= q < g[key].selects.len(),
        values.contains_key(g[key].name),
        values[g[key].name] == "y"@ || values[g[key].name] == "m"@,
        !disabled.contains(g[key].name),
        disabled.contains(g[key].selects[q].0),
        holds(g[key].selects[q].1, values),
    ensures
        is_conflict(g, values, disabled, g[key].selects[q].0),
{
    lemma_enabled_is_y_or_m(values, g[key].name);
    assert(still_selects(g, values, disabled, key, q));
}

/// A select without a condition needs nothing but its symbol to be on.
pub proof fn lemma_plain_select_counts(
    g: Map<Seq<char>, SymbolView>,
    values: Map<Seq<char>, Seq<char>>,
    disabled: Set<Seq<char>>,
    key: Seq<char>,
    target: Seq<char>,
)
    requires
        g.contains_key(key),
        g[key].selects.contains((target, Expr::Always)),
        values.contains_key(g[key].name),
        values[g[key].name] == "y"@ || values[g[key].name] == "m"@,
        !disabled.contains(g[key].name),
        disabled.contains(target),
    ensures
        is_conflict(g, values, disabled, target),
{
    let q = choose|q: int|
        0 <= q < g[key].selects.len() && g[key].selects[q] == (target, Expr::Always);
    lemma_every_select_counts(g, values, disabled, key, q);
}

/// What is in conflict is to be disabled, and some symbol that is `y` or `m` and stays selects it
/// under a condition that holds.
pub proof fn lemma_conflict_has_cause(
    g: Map<Seq<char>, SymbolView>,
    values: Map<Seq<char>, Seq<char>>,
    disabled: Set<Seq<char>>,
    target: Seq<char>,
)
    requires
        is_conflict(g, values, disabled, target),
    ensures
        disabled.contains(target),
        exists|key: Seq<char>, q: int|
            #![trigger g[key].selects[q]]
            g.contains_key(key) && 0 <= q < g[key].selects.len() && g[key].selects[q].0 == target
                && holds(g[key].selects[q].1, values) && !disabled.contains(g[key].name)
                && values.contains_key(g[key].name) && (values[g[key].name] == "y"@
                || values[g[key].name] == "m"@),
{
    let (key, q) = choose|key: Seq<char>, q: int| #[trigger]
        still_selects(g, values, disabled, key, q) && g[key].selects[q].0 == target;
    lemma_enabled_is_y_or_m(values, g[key].name);
    assert(g[key].selects[q].0 == target);
}

/// `g` with other selects for the symbol under `key`.
pub open spec fn with_selects(
    g: Map<Seq<char>, SymbolView>,
    key: Seq<char>,
    selects: Seq<(Seq<char>, Expr)>,
) -> Map<Seq<char>, SymbolView> {
    g.insert(key, SymbolView { selects, ..g[key] })
}

/// Two lists of selects of one symbol, one behind the other, cause the conflicts that each of them
/// causes, and no others.
pub proof fn lemma_conflicts_add_up(
    g: Map<Seq<char>, SymbolView>,
    values: Map<Seq<char>, Seq<char>>,
    disabled: Set<Seq<char>>,
    key: Seq<char>,
    s: Seq<(Seq<char>, Expr)>,
    t: Seq<(Seq<char>, Expr)>,
    target: Seq<char>,
)
    requires
        g.contains_key(key),
    ensures
        is_conflict(with_selects(g, key, s + t), values, disabled, target) <==> is_conflict(
            with_selects(g, key, s),
            values,
            disabled,
            target,
        ) || is_conflict(with_selects(g, key, t), values, disabled, target),
{
    let gs = with_selects(g, key, s);
    let gt = with_selects(g, key, t);
    let both = with_selects(g, key, s + t);
    if is_conflict(both, values, disabled, target) {
        let (k, q) = choose|k: Seq<char>, q: int| #[trigger]
            still_selects(both, values, disabled, k, q) && both[k].selects[q].0 == target;
        if k == key && q >= s.len() {
            assert(still_selects(gt, values, disabled, k, q - s.len()));
        } else {
            assert(still_selects(gs, values, disabled, k, q));
        }
    }
    if is_conflict(gs, values, disabled, target) {
        let (k, q) = choose|k: Seq<char>, q: int| #[trigger]
            still_selects(gs, values, disabled, k, q) && gs[k].selects[q].0 == target;
        assert(still_selects(both, values, disabled, k, q));
    }
    if is_conflict(gt, values, disabled, target) {
        let (k, q) = choose|k: Seq<char>, q: int| #[trigger]
            still_selects(gt, values, disabled, k, q) && gt[k].selects[q].0 == target;
        let at = if k == key {
            q + s.len()
        } else {
            q
        };
        assert(still_selects(both, values, disabled, k, at));
    }
}

/// The order of the selects of a symbol makes no difference.
pub proof fn lemma_conflicts_ignore_order(
    g: Map<Seq<char>, SymbolView>,
    values: Map<Seq<char>, Seq<char>>,
    disabled: Set<Seq<char>>,
    key: Seq<char>,
    s: Seq<(Seq<char>, Expr)>,
    t: Seq<(Seq<char>, Expr)>,
    target: Seq<char>,
)
    requires
        g.contains_key(key),
        s.to_set() == t.to_set(),
    ensures
        is_conflict(with_selects(g, key, s), values, disabled, target) == is_conflict(
            with_selects(g, key, t),
            values,
            disabled,
            target,
        ),
{
    if is_conflict(with_selects(g, key, s), values, disabled, target) {
        lemma_conflict_moves(g, values, disabled, key, s, t, target);
    }
    if is_conflict(with_selects(g, key, t), values, disabled, target) {
        lemma_conflict_moves(g, values, disabled, key, t, s, target);
    }
}

proof fn lemma_conflict_moves(
    g: Map<Seq<char>, SymbolView>,
    values: Map<Seq<char>, Seq<char>>,
    disabled: Set<Seq<char>>,
    key: Seq<char>,
    s: Seq<(Seq<char>, Expr)>,
    t: Seq<(Seq<char>, Expr)>,
    target: Seq<char>,
)
    requires
        g.contains_key(key),
        s.to_set() == t.to_set(),
        is_conflict(with_selects(g, key, s), values, disabled, target),
    ensures
        is_conflict(with_selects(g, key, t), values, disabled, target),
{
    let gs = with_selects(g, key, s);
    let gt = with_selects(g, key, t);
    let (k, q) = choose|k: Seq<char>, q: int| #[trigger]
        still_selects(gs, values, disabled, k, q) && gs[k].selects[q].0 == target;
    if k == key {
        assert(s.contains(s[q]));
        assert(s.to_set().contains(s[q]));
        assert(t.contains(s[q]));
        let r = choose|r: int| 0 <= r < t.len() && t[r] == s[q];
        assert(still_selects(gt, values, disabled, k, r));
    } else {
        assert(still_selects(gt, values, disabled, k, q));
    }
}

/// A conflict that is there with more symbols disabled is there with fewer.
pub proof fn lemma_conflict_with_fewer_disabled(
    g: Map<Seq<char>, SymbolView>,
    values: Map<Seq<char>, Seq<char>>,
    fewer: Set<Seq<char>>,
    more: Set<Seq<char>>,
    target: Seq<char>,
)
    requires
        fewer.subset_of(more),
        fewer.contains(target),
        is_conflict(g, values, more, target),
    ensures
        is_conflict(g, values, fewer, target),
{
    let (k, q) = choose|k: Seq<char>, q: int| #[trigger]
        still_selects(g, values, more, k, q) && g[k].selects[q].0 == target;
    assert(still_selects(g, values, fewer, k, q));
}

// ── The cascade of selects ────────────────────────────────────────────────────

/// A symbol that selects the start, or another symbol of the cascade, without a condition is in the
/// cascade, be it enabled or not; one that selects it under a condition is, if the condition holds
/// and the symbol is `y` or `m`.
pub proof fn lemma_selectors_are_in_cascade(
    g: Map<Seq<char>, SymbolView>,
    values: Map<Seq<char>, Seq<char>>,
    start: Seq<char>,
    key: Seq<char>,
    q: int,
)
    requires
        g.contains_key(key),
        0 <= q < g[key].selects.len(),
        g[key].selects[q].0 == start || in_cascade(g, values, start, g[key].selects[q].0),
        g[key].name != start,
        g[key].selects[q].1 == Expr::Always || (holds(g[key].selects[q].1, values)
            && values.contains_key(g[key].name) && (values[g[key].name] == "y"@
            || values[g[key].name] == "m"@)),
    ensures
        in_cascade(g, values, start, g[key].name),
{
    lemma_enabled_is_y_or_m(values, g[key].name);
    let edge = forced_by(g, values);
    let target = g[key].selects[q].0;
    assert(selects_actively(g, values, key, q));
    assert(edge(target, g[key].name));
    lemma_leads_to_self(edge, start);
    lemma_leads_to_step(edge, start, target, g[key].name);
}

/// Every symbol of the cascade selects the start or another symbol of the cascade, without a
/// condition, or, being `y` or `m` itself, under a condition that holds.
pub proof fn lemma_cascade_has_cause(
    g: Map<Seq<char>, SymbolView>,
    values: Map<Seq<char>, Seq<char>>,
    start: Seq<char>,
    n: Seq<char>,
)
    requires
        in_cascade(g, values, start, n),
    ensures
        exists|key: Seq<char>, q: int|
            #![trigger g[key].selects[q]]
            g.contains_key(key) && g[key].name == n && 0 <= q < g[key].selects.len() && (
            g[key].selects[q].0 == start || in_cascade(g, values, start, g[key].selects[q].0)) && (
            g[key].selects[q].1 == Expr::Always || (holds(g[key].selects[q].1, values)
                && values.contains_key(n) && (values[n] == "y"@ || values[n] == "m"@))),
{
    let edge = forced_by(g, values);
    let path = choose|path: Seq<Seq<char>>| walk(edge, path, start, n);
    let before = path[path.len() - 2];
    assert(path.len() > 1);
    assert(edge(path[path.len() - 2], path[path.len() - 2 + 1]));
    let shorter = path.drop_last();
    assert forall|i: int| 0 <= i < shorter.len() - 1 implies edge(
        #[trigger] shorter[i],
        shorter[i + 1],
    ) by {
        assert(edge(path[i], path[i + 1]));
    }
    assert(walk(edge, shorter, start, before));
    assert(forces(g, values, n, before));
    let (key, q) = choose|key: Seq<char>, q: int| #[trigger]
        selects_actively(g, values, key, q) && g[key].name == n && g[key].selects[q].0 == before;
    lemma_enabled_is_y_or_m(values, n);
    assert(g[key].selects[q].0 == before);
}

/// A symbol that is off, and selects nothing without a condition, is in no cascade.
pub proof fn lemma_off_selectors_stay_out(
    g: Map<Seq<char>, SymbolView>,
    values: Map<Seq<char>, Seq<char>>,
    start: Seq<char>,
    n: Seq<char>,
)
    requires
        !values.contains_key(n) || (values[n] != "y"@ && values[n] != "m"@),
        forall|key: Seq<char>, q: int|
            g.contains_key(key) && g[key].name == n && 0 <= q < g[key].selects.len()
                ==> (#[trigger] g[key].selects[q]).1 != Expr::Always,
    ensures
        !in_cascade(g, values, start, n),
{
    if in_cascade(g, values, start, n) {
        lemma_cascade_has_cause(g, values, start, n);
    }
}

/// The cascade is the smallest set with these properties: it lies in every set that holds the start
/// and every symbol with a select in force for one of the set.
pub proof fn lemma_cascade_is_least(
    g: Map<Seq<char>, SymbolView>,
    values: Map<Seq<char>, Seq<char>>,
    start: Seq<char>,
    set: Set<Seq<char>>,
    n: Seq<char>,
)
    requires
        set.contains(start),
        forall|key: Seq<char>, q: int|
            g.contains_key(key) && 0 <= q < g[key].selects.len() && set.contains(
                (#[trigger] g[key].selects[q]).0,
            ) && (g[key].selects[q].1 == Expr::Always || (holds(g[key].selects[q].1, values)
                && values.contains_key(g[key].name) && (values[g[key].name] == "y"@
                || values[g[key].name] == "m"@))) ==> set.contains(g[key].name),
        in_cascade(g, values, start, n),
    ensures
        set.contains(n),
{
    let edge = forced_by(g, values);
    assert forall|x: Seq<char>, y: Seq<char>| set.contains(x) && #[trigger] edge(
        x,
        y,
    ) implies set.contains(y) by {
        assert(forces(g, values, y, x));
        let (key, q) = choose|key: Seq<char>, q: int| #[trigger]
            selects_actively(g, values, key, q) && g[key].name == y && g[key].selects[q].0 == x;
        lemma_enabled_is_y_or_m(values, y);
        assert(set.contains(g[key].selects[q].0));
    }
    lemma_closed(edge, set, start, n);
}

/// More symbols, or more selects, never take a symbol out of the cascade.
pub proof fn lemma_cascade_grows(
    g: Map<Seq<char>, SymbolView>,
    key: Seq<char>,
    s: Seq<(Seq<char>, Expr)>,
    t: Seq<(Seq<char>, Expr)>,
    values: Map<Seq<char>, Seq<char>>,
    start: Seq<char>,
    n: Seq<char>,
)
    requires
        g.contains_key(key),
        in_cascade(with_selects(g, key, s), values, start, n) || in_cascade(
            with_selects(g, key, t),
            values,
            start,
            n,
        ),
    ensures
        in_cascade(with_selects(g, key, s + t), values, start, n),
{
    let both = with_selects(g, key, s + t);
    let e = forced_by(both, values);
    if in_cascade(with_selects(g, key, s), values, start, n) {
        let part = with_selects(g, key, s);
        let e1 = forced_by(part, values);
        assert forall|x: Seq<char>, y: Seq<char>| #[trigger] e1(x, y) implies e(x, y) by {
            assert(forces(part, values, y, x));
            let (k, q) = choose|k: Seq<char>, q: int| #[trigger]
                selects_actively(part, values, k, q) && part[k].name == y && part[k].selects[q].0
                    == x;
            assert(selects_actively(both, values, k, q));
            assert(forces(both, values, y, x));
        }
        crate::reach::lemma_same_ways(e1, e, start, n);
    } else {
        let part = with_selects(g, key, t);
        let e1 = forced_by(part, values);
        assert forall|x: Seq<char>, y: Seq<char>| #[trigger] e1(x, y) implies e(x, y) by {
            assert(forces(part, values, y, x));
            let (k, q) = choose|k: Seq<char>, q: int| #[trigger]
                selects_actively(part, values, k, q) && part[k].name == y && part[k].selects[q].0
                    == x;
            let at = if k == key {
                q + s.len()
            } else {
                q
            };
            assert(selects_actively(both, values, k, at));
            assert(forces(both, values, y, x));
        }
        crate::reach::lemma_same_ways(e1, e, start, n);
    }
}

/// A symbol counts as an unconditional selector of `target` just where one of its selects, wherever
/// it stands, names `target` and has no condition.
pub proof fn lemma_unconditional_selectors(
    g: Map<Seq<char>, SymbolView>,
    n: Seq<char>,
    target: Seq<char>,
)
    requires
        g.contains_key(n),
    ensures
        selects_always(g, n, target) <==> g[n].selects.contains((target, Expr::Always)),
{
    if selects_always(g, n, target) {
        let q = choose|q: int|
            0 <= q < g[n].selects.len() && (#[trigger] g[n].selects[q]).0 == target
                && g[n].selects[q].1 == Expr::Always;
        assert(g[n].selects[q] == (target, Expr::Always));
    }
    if g[n].selects.contains((target, Expr::Always)) {
        let q = choose|q: int|
            0 <= q < g[n].selects.len() && g[n].selects[q] == (target, Expr::Always);
        assert(g[n].selects[q].0 == target);
    }
}

/// A symbol counts as an active selector of `target` just where one of its selects, wherever it
/// stands, names `target` under a condition, and that condition holds.
pub proof fn lemma_active_selectors(
    g: Map<Seq<char>, SymbolView>,
    values: Map<Seq<char>, Seq<char>>,
    n: Seq<char>,
    target: Seq<char>,
)
    requires
        g.contains_key(n),
    ensures
        selects_under_condition(g, values, n, target) <==> exists|c: Expr|
            c != Expr::Always && #[trigger] g[n].selects.contains((target, c)) && holds(c, values),
{
    if selects_under_condition(g, values, n, target) {
        let q = choose|q: int|
            0 <= q < g[n].selects.len() && (#[trigger] g[n].selects[q]).0 == target
                && g[n].selects[q].1 != Expr::Always && holds(g[n].selects[q].1, values);
        let c = g[n].selects[q].1;
        assert(g[n].selects[q] == (target, c));
        assert(g[n].selects.contains((target, c)));
    }
    if exists|c: Expr|
        c != Expr::Always && #[trigger] g[n].selects.contains((target, c)) && holds(c, values) {
        let c = choose|c: Expr|
            c != Expr::Always && #[trigger] g[n].selects.contains((target, c)) && holds(c, values);
        let q = choose|q: int| 0 <= q < g[n].selects.len() && g[n].selects[q] == (target, c);
        assert(g[n].selects[q].0 == target);
    }
}

/// Where symbols stand under their names, a symbol that brings `target` back on by a select of its
/// own is an unconditional or an active selector of it.
pub proof fn lemma_selectors_are_classified(
    g: Map<Seq<char>, SymbolView>,
    values: Map<Seq<char>, Seq<char>>,
    n: Seq<char>,
    q: int,
)
    requires
        g.contains_key(n),
        0 <= q < g[n].selects.len(),
        holds(g[n].selects[q].1, values),
    ensures
        selects_always(g, n, g[n].selects[q].0) || selects_under_condition(
            g,
            values,
            n,
            g[n].selects[q].0,
        ),
{
    let target = g[n].selects[q].0;
    assert((g[n].selects[q]).0 == target);
}

// ── Requiring ─────────────────────────────────────────────────────────────────

/// Where symbols are set to `n`, an expression reads `n` for each of them and what it read for each
/// other one.
pub proof fn lemma_disabled_values(
    values: Map<Seq<char>, Seq<char>>,
    off: Set<Seq<char>>,
    w: Map<Seq<char>, Seq<char>>,
    e: Expr,
)
    requires
        forall|s: Seq<char>| off.contains(s) ==> #[trigger] w.contains_key(s) && w[s] == "n"@,
        forall|s: Seq<char>|
            !off.contains(s) ==> (#[trigger] w.contains_key(s) <==> values.contains_key(s)),
        forall|s: Seq<char>|
            !off.contains(s) && #[trigger] w.contains_key(s) ==> w[s] == values[s],
    ensures
        holds(e, with_disabled(values, off)) == holds(e, w),
{
    let u = with_disabled(values, off);
    assert forall|s: Seq<char>| symbols_of(e).contains(s) implies #[trigger] value_of(u, s)
        == value_of(w, s) by {
        if off.contains(s) {
            assert(w.contains_key(s));
        } else {
            assert(w.contains_key(s) <==> values.contains_key(s));
        }
    }
    lemma_holds_by_symbols(e, u, w);
}

/// A symbol that is `y` or `m` and whose dependencies held falls as soon as they no longer hold once
/// the symbols that were disabled to begin with are `n`.
pub proof fn lemma_direct_dependents_fall(
    g: Map<Seq<char>, SymbolView>,
    values: Map<Seq<char>, Seq<char>>,
    off: Set<Seq<char>>,
    k: nat,
    n: Seq<char>,
)
    requires
        is_settled(g, values, off, k),
        g.contains_key(n),
        values.contains_key(n),
        values[n] == "y"@ || values[n] == "m"@,
        g[n].depends_on is Some,
        holds(g[n].depends_on->0, values),
        !holds(g[n].depends_on->0, with_disabled(values, off)),
    ensures
        rounds(g, values, off, k).contains(n),
{
    lemma_enabled_is_y_or_m(values, n);
    if !off.contains(n) {
        assert(falls(g, values, off, n));
        if k == 0 {
            assert(rounds(g, values, off, 0) == off);
        } else {
            lemma_first_round_stays(g, values, off, k, n);
        }
    } else {
        lemma_rounds_grow(g, values, off, k);
    }
}

proof fn lemma_first_round_stays(
    g: Map<Seq<char>, SymbolView>,
    values: Map<Seq<char>, Seq<char>>,
    off: Set<Seq<char>>,
    k: nat,
    n: Seq<char>,
)
    requires
        k > 0,
        falls(g, values, off, n),
    ensures
        rounds(g, values, off, k).contains(n),
    decreases k,
{
    if k > 1 {
        lemma_first_round_stays(g, values, off, (k - 1) as nat, n);
        assert(rounds(g, values, off, k) == round(
            g,
            values,
            rounds(g, values, off, (k - 1) as nat),
        ));
    } else {
        assert(rounds(g, values, off, 0) == off);
        assert(rounds(g, values, off, 1) == round(g, values, off));
    }
}

/// What falls was `y` or `m`, and its dependencies, which held, fail where some of the symbols that
/// are off in the end, with all that were off to begin with, are `n`.
pub proof fn lemma_fallen_has_cause(
    g: Map<Seq<char>, SymbolView>,
    values: Map<Seq<char>, Seq<char>>,
    off: Set<Seq<char>>,
    k: nat,
    n: Seq<char>,
) -> (some: Set<Seq<char>>)
    requires
        rounds(g, values, off, k).contains(n),
        !off.contains(n),
    ensures
        g.contains_key(n),
        values.contains_key(n),
        values[n] == "y"@ || values[n] == "m"@,
        g[n].depends_on is Some,
        holds(g[n].depends_on->0, values),
        !holds(g[n].depends_on->0, with_disabled(values, some)),
        off.subset_of(some),
        some.subset_of(rounds(g, values, off, k)),
        !some.contains(n),
    decreases k,
{
    let before = rounds(g, values, off, (k - 1) as nat);
    assert(k > 0);
    assert(rounds(g, values, off, k) == round(g, values, before));
    if before.contains(n) {
        lemma_fallen_has_cause(g, values, off, (k - 1) as nat, n)
    } else {
        lemma_enabled_is_y_or_m(values, n);
        lemma_rounds_grow(g, values, off, (k - 1) as nat);
        before
    }
}

} // verus!
