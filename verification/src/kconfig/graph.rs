//! The symbols of a configuration and how they select and require each other.
use crate::kconfig::expr::{
    enabled, holds, is_enabled, value_texts, with_disabled, ConfigExpr, Expr,
};
use crate::names::{NameMap, NameSet};
use crate::reach::{
    leads_to, lemma_leads_to_self, lemma_leads_to_step, lemma_same_reach, reach, reached_from, relate, related, relation,
};
use crate::text::same_text;
use vstd::prelude::*;

verus! {

/// The type of a symbol.
#[derive(Debug, Clone, Copy, PartialEq, Eq, Structural)]
pub enum SymbolKind {
    Bool,
    Tristate,
    Int,
    Hex,
    String,
}

/// A symbol as Kconfig files declare it.
#[derive(Debug, Clone)]
pub struct Symbol {
    pub name: String,
    pub kind: SymbolKind,
    pub depends_on: Option<ConfigExpr>,
    /// `select TARGET [if COND]`
    pub selects: Vec<(String, ConfigExpr)>,
    pub implies: Vec<(String, ConfigExpr)>,
    pub choice_group: Option<String>,
}

/// What the declaration of a symbol says.
pub ghost struct SymbolView {
    pub name: Seq<char>,
    pub kind: SymbolKind,
    pub depends_on: Option<Expr>,
    pub selects: Seq<(Seq<char>, Expr)>,
    pub implies: Seq<(Seq<char>, Expr)>,
    pub choice_group: Option<Seq<char>>,
}

/// What an optional expression says.
pub open spec fn optional_expr(e: Option<ConfigExpr>) -> Option<Expr> {
    match e {
        Some(x) => Some(x@),
        None => None,
    }
}

/// What an optional text says.
pub open spec fn optional_text(s: Option<String>) -> Option<Seq<char>> {
    match s {
        Some(x) => Some(x@),
        None => None,
    }
}

/// What targets with conditions say.
pub open spec fn target_views(v: Seq<(String, ConfigExpr)>) -> Seq<(Seq<char>, Expr)> {
    Seq::new(v.len(), |i: int| (v[i].0@, v[i].1@))
}

impl View for Symbol {
    type V = SymbolView;

    open spec fn view(&self) -> SymbolView {
        SymbolView {
            name: self.name@,
            kind: self.kind,
            depends_on: optional_expr(self.depends_on),
            selects: target_views(self.selects@),
            implies: target_views(self.implies@),
            choice_group: optional_text(self.choice_group),
        }
    }
}

/// What the declarations of several symbols say.
pub open spec fn symbol_views(symbols: Map<Seq<char>, Symbol>) -> Map<Seq<char>, SymbolView> {
    symbols.map_values(|s: Symbol| s@)
}

/// The symbols of a kernel's configuration, by name.
pub struct KconfigGraph {
    symbols: NameMap<Symbol>,
}

impl View for KconfigGraph {
    type V = Map<Seq<char>, SymbolView>;

    closed spec fn view(&self) -> Map<Seq<char>, SymbolView> {
        symbol_views(self.symbols@)
    }
}

// ── Selecting ─────────────────────────────────────────────────────────────────

/// Whether select `q` of the symbol under `key` is in force: it has no condition, or its condition
/// holds and the selecting symbol is enabled.
pub open spec fn selects_actively(
    g: Map<Seq<char>, SymbolView>,
    values: Map<Seq<char>, Seq<char>>,
    key: Seq<char>,
    q: int,
) -> bool {
    &&& g.contains_key(key)
    &&& 0 <= q < g[key].selects.len()
    &&& g[key].selects[q].1 == Expr::Always || (holds(g[key].selects[q].1, values) && is_enabled(
        values,
        g[key].name,
    ))
}

/// Whether the symbol `selector` has a select in force for `target`.
pub open spec fn forces(
    g: Map<Seq<char>, SymbolView>,
    values: Map<Seq<char>, Seq<char>>,
    selector: Seq<char>,
    target: Seq<char>,
) -> bool {
    exists|key: Seq<char>, q: int| #[trigger]
        selects_actively(g, values, key, q) && g[key].name == selector && g[key].selects[q].0
            == target
}

/// The relation from each symbol to those that have a select in force for it.
pub open spec fn forced_by(
    g: Map<Seq<char>, SymbolView>,
    values: Map<Seq<char>, Seq<char>>,
) -> spec_fn(Seq<char>, Seq<char>) -> bool {
    |target: Seq<char>, selector: Seq<char>| forces(g, values, selector, target)
}

/// Whether `n` has to be disabled along with `start`.
pub open spec fn in_cascade(
    g: Map<Seq<char>, SymbolView>,
    values: Map<Seq<char>, Seq<char>>,
    start: Seq<char>,
    n: Seq<char>,
) -> bool {
    n != start && leads_to(forced_by(g, values), start, n)
}

/// Whether the symbol under `key` selects `target` without a condition.
pub open spec fn selects_always(
    g: Map<Seq<char>, SymbolView>,
    key: Seq<char>,
    target: Seq<char>,
) -> bool {
    g.contains_key(key) && exists|q: int|
        0 <= q < g[key].selects.len() && (#[trigger] g[key].selects[q]).0 == target
            && g[key].selects[q].1 == Expr::Always
}

/// Whether the symbol under `key` selects `target` under a condition that holds.
pub open spec fn selects_under_condition(
    g: Map<Seq<char>, SymbolView>,
    values: Map<Seq<char>, Seq<char>>,
    key: Seq<char>,
    target: Seq<char>,
) -> bool {
    g.contains_key(key) && exists|q: int|
        0 <= q < g[key].selects.len() && (#[trigger] g[key].selects[q]).0 == target
            && g[key].selects[q].1 != Expr::Always && holds(g[key].selects[q].1, values)
}

/// Whether select `q` of the symbol under `key` turns something on although `disabled` is off: the
/// symbol is enabled, is not itself to be disabled, and the condition holds.
pub open spec fn still_selects(
    g: Map<Seq<char>, SymbolView>,
    values: Map<Seq<char>, Seq<char>>,
    disabled: Set<Seq<char>>,
    key: Seq<char>,
    q: int,
) -> bool {
    &&& g.contains_key(key)
    &&& 0 <= q < g[key].selects.len()
    &&& !disabled.contains(g[key].name)
    &&& is_enabled(values, g[key].name)
    &&& holds(g[key].selects[q].1, values)
}

/// Whether `target` is to be disabled but a symbol that stays would turn it on again.
pub open spec fn is_conflict(
    g: Map<Seq<char>, SymbolView>,
    values: Map<Seq<char>, Seq<char>>,
    disabled: Set<Seq<char>>,
    target: Seq<char>,
) -> bool {
    disabled.contains(target) && exists|key: Seq<char>, q: int| #[trigger]
        still_selects(g, values, disabled, key, q) && g[key].selects[q].0 == target
}

impl KconfigGraph {
    /// The graph of the given symbols.
    pub fn for_test(symbols: NameMap<Symbol>) -> (g: KconfigGraph)
        ensures
            g@ == symbol_views(symbols@),
    {
        KconfigGraph { symbols }
    }

    /// The symbol with the given name.
    pub fn symbol(&self, name: &str) -> (symbol: Option<&Symbol>)
        ensures
            match symbol {
                Some(s) => self@.contains_key(name@) && s@ == self@[name@],
                None => !self@.contains_key(name@),
            },
    {
        self.symbols.get(name)
    }

    /// The symbols that have a select in force for each symbol.
    fn selectors(&self, values: &NameMap<String>) -> (map: NameMap<NameSet>)
        ensures
            forall|t: Seq<char>, s: Seq<char>| #[trigger]
                related(map@, t, s) <==> forces(self@, value_texts(values@), s, t),
    {
        let ghost g = self@;
        let ghost v = value_texts(values@);
        let mut map: NameMap<NameSet> = NameMap::new();
        let count: usize = self.symbols.len();
        let mut i: usize = 0;
        while i < count
            invariant
                i <= count,
                count == self.symbols.keys().len(),
                g == self@,
                v == value_texts(values@),
                forall|t: Seq<char>, s: Seq<char>| #[trigger]
                    related(map@, t, s) ==> forces(g, v, s, t),
                forall|k: int, q: int|
                    0 <= k < i && #[trigger] selects_actively(g, v, self.symbols.keys()[k], q)
                        ==> related(
                        map@,
                        g[self.symbols.keys()[k]].selects[q].0,
                        g[self.symbols.keys()[k]].name,
                    ),
            decreases count - i,
        {
            let sym = self.symbols.value_at(i);
            let ghost key = self.symbols.keys()[i as int];
            assert(self.symbols.keys().contains(key));
            assert(g.contains_key(key) && g[key] == sym@);
            let on = enabled(values, sym.name.as_str());
            let mut j: usize = 0;
            while j < sym.selects.len()
                invariant
                    i < count,
                    count == self.symbols.keys().len(),
                    j <= sym.selects@.len(),
                    g == self@,
                    v == value_texts(values@),
                    key == self.symbols.keys()[i as int],
                    g.contains_key(key),
                    g[key] == sym@,
                    on == is_enabled(v, sym.name@),
                    forall|t: Seq<char>, s: Seq<char>| #[trigger]
                        related(map@, t, s) ==> forces(g, v, s, t),
                    forall|k: int, q: int|
                        (0 <= k < i || k == i && 0 <= q < j) && #[trigger] selects_actively(
                            g,
                            v,
                            self.symbols.keys()[k],
                            q,
                        ) ==> related(
                            map@,
                            g[self.symbols.keys()[k]].selects[q].0,
                            g[self.symbols.keys()[k]].name,
                        ),
                decreases sym.selects@.len() - j,
            {
                let cond = &sym.selects[j].1;
                assert(g[key].selects[j as int] == (sym.selects@[j as int].0@, cond@));
                if cond.is_always() || (on && cond.eval_bool(values)) {
                    assert(selects_actively(g, v, key, j as int));
                    relate(&mut map, sym.selects[j].0.as_str(), sym.name.as_str());
                }
                j += 1;
            }
            i += 1;
        }
        assert forall|t: Seq<char>, s: Seq<char>| #[trigger]
            related(map@, t, s) <==> forces(g, v, s, t) by {
            if forces(g, v, s, t) {
                let (key, q) = choose|key: Seq<char>, q: int| #[trigger]
                    selects_actively(g, v, key, q) && g[key].name == s && g[key].selects[q].0 == t;
                assert(self.symbols.keys().contains(key));
                let k = choose|k: int|
                    0 <= k < self.symbols.keys().len() && self.symbols.keys()[k] == key;
                assert(selects_actively(g, v, self.symbols.keys()[k], q));
            }
        }
        map
    }

    /// Returns all symbols that must also be disabled when `config` is disabled, because they
    /// `select` it, either unconditionally or via a condition that is currently active in `values`.
    ///
    /// An edge from a selector to its target is followed when
    ///   - the select has no condition, or
    ///   - its condition holds in `values` and the selector itself is enabled.
    ///
    /// `values` should be the current (pre-change) config map. Using pre-change values is
    /// conservative: it may include selectors whose condition would become false once the target
    /// is disabled, but that is always safe: it suggests disabling more symbols, never fewer.
    pub fn disable_cascade(&self, config: &str, values: &NameMap<String>) -> (cascade: NameSet)
        ensures
            forall|n: Seq<char>| #[trigger]
                cascade@.contains(n) <==> n != config@ && leads_to(
                    forced_by(self@, value_texts(values@)),
                    config@,
                    n,
                ),
            forall|n: Seq<char>| #[trigger]
                cascade@.contains(n) <==> in_cascade(
                    self@,
                    value_texts(values@),
                    config@,
                    n,
                ),
            forall|key: Seq<char>, q: int|
                self@.contains_key(key) && 0 <= q < self@[key].selects.len() && ((
                #[trigger] self@[key].selects[q]).0 == config@ || cascade@.contains(
                    self@[key].selects[q].0,
                )) && self@[key].name != config@ && (self@[key].selects[q].1 == Expr::Always || (
                holds(self@[key].selects[q].1, value_texts(values@)) && is_enabled(
                    value_texts(values@),
                    self@[key].name,
                ))) ==> cascade@.contains(self@[key].name),
    {
        let map = self.selectors(values);
        let mut seeds = NameSet::new();
        seeds.insert(config.to_owned());
        let mut cascade = reach(&map, &seeds);
        proof {
            let edge = forced_by(self@, value_texts(values@));
            assert forall|n: Seq<char>| #[trigger] cascade@.contains(n) <==> leads_to(
                edge,
                config@,
                n,
            ) by {
                lemma_same_reach(relation(map@), edge, seeds@, n);
                assert(seeds@.contains(config@));
                if reached_from(edge, seeds@, n) {
                    let s = choose|s: Seq<char>| #[trigger]
                        seeds@.contains(s) && leads_to(edge, s, n);
                    assert(s == config@);
                }
            }
        }
        cascade.remove(config);
        proof {
            let g = self@;
            let v = value_texts(values@);
            let edge = forced_by(g, v);
            assert forall|key: Seq<char>, q: int|
                g.contains_key(key) && 0 <= q < g[key].selects.len() && ((
                #[trigger] g[key].selects[q]).0 == config@ || cascade@.contains(
                    g[key].selects[q].0,
                )) && g[key].name != config@ && (g[key].selects[q].1 == Expr::Always || (holds(
                    g[key].selects[q].1,
                    v,
                ) && is_enabled(v, g[key].name))) implies cascade@.contains(g[key].name) by {
                let target = g[key].selects[q].0;
                assert(selects_actively(g, v, key, q));
                assert(edge(target, g[key].name));
                lemma_leads_to_self(edge, config@);
                assert(leads_to(edge, config@, target));
                lemma_leads_to_step(edge, config@, target, g[key].name);
                assert(cascade@.contains(g[key].name) <==> in_cascade(g, v, config@, g[key].name));
            }
        }
        cascade
    }

    /// Whether the symbol under `name` selects `target` without a condition, and whether it does so
    /// under a condition that holds.
    fn select_kinds(&self, name: &str, target: &str, values: &NameMap<String>) -> (kinds: (
        bool,
        bool,
    ))
        ensures
            kinds.0 == selects_always(self@, name@, target@),
            kinds.1 == selects_under_condition(self@, value_texts(values@), name@, target@),
    {
        let ghost g = self@;
        let ghost v = value_texts(values@);
        match self.symbols.get(name) {
            None => (false, false),
            Some(sym) => {
                let mut always = false;
                let mut active = false;
                let mut j: usize = 0;
                while j < sym.selects.len()
                    invariant
                        j <= sym.selects@.len(),
                        g == self@,
                        v == value_texts(values@),
                        g.contains_key(name@),
                        g[name@] == sym@,
                        always ==> selects_always(g, name@, target@),
                        active ==> selects_under_condition(g, v, name@, target@),
                        forall|q: int|
                            0 <= q < j && (#[trigger] g[name@].selects[q]).0 == target@
                                && g[name@].selects[q].1 == Expr::Always ==> always,
                        forall|q: int|
                            0 <= q < j && (#[trigger] g[name@].selects[q]).0 == target@
                                && g[name@].selects[q].1 != Expr::Always && holds(
                                g[name@].selects[q].1,
                                v,
                            ) ==> active,
                    decreases sym.selects@.len() - j,
                {
                    let cond = &sym.selects[j].1;
                    assert(g[name@].selects[j as int] == (sym.selects@[j as int].0@, cond@));
                    if same_text(sym.selects[j].0.as_str(), target) {
                        if cond.is_always() {
                            always = true;
                        } else if cond.eval_bool(values) {
                            active = true;
                        }
                    }
                    j += 1;
                }
                (always, active)
            },
        }
    }

    /// Splits `cascade` (the output of `disable_cascade`) into two sets:
    /// - unconditional selectors (their `select` has no condition)
    /// - conditionally-active selectors (their `select if COND` is currently true)
    ///
    /// A selector can appear in both sets if it has multiple select statements for the same target
    /// with different conditions.
    pub fn classify_cascade(
        &self,
        target: &str,
        cascade: &NameSet,
        values: &NameMap<String>,
    ) -> (parts: (NameSet, NameSet))
        ensures
            forall|n: Seq<char>| #[trigger]
                parts.0@.contains(n) <==> cascade@.contains(n) && selects_always(
                    self@,
                    n,
                    target@,
                ),
            forall|n: Seq<char>| #[trigger]
                parts.1@.contains(n) <==> cascade@.contains(n) && selects_under_condition(
                    self@,
                    value_texts(values@),
                    n,
                    target@,
                ),
    {
        let ghost v = value_texts(values@);
        let mut unconditional = NameSet::new();
        let mut active = NameSet::new();
        let count: usize = cascade.len();
        let mut i: usize = 0;
        while i < count
            invariant
                i <= count,
                count == cascade.names().len(),
                v == value_texts(values@),
                forall|n: Seq<char>| #[trigger]
                    unconditional@.contains(n) ==> cascade@.contains(n) && selects_always(
                        self@,
                        n,
                        target@,
                    ),
                forall|n: Seq<char>| #[trigger]
                    active@.contains(n) ==> cascade@.contains(n) && selects_under_condition(
                        self@,
                        v,
                        n,
                        target@,
                    ),
                forall|k: int|
                    0 <= k < i ==> {
                        &&& selects_always(self@, #[trigger] cascade.names()[k], target@)
                            ==> unconditional@.contains(cascade.names()[k])
                        &&& selects_under_condition(self@, v, cascade.names()[k], target@)
                            ==> active@.contains(cascade.names()[k])
                    },
            decreases count - i,
        {
            let name = cascade.get(i);
            let kinds = self.select_kinds(name.as_str(), target, values);
            if kinds.0 {
                unconditional.insert(name.clone());
            }
            if kinds.1 {
                active.insert(name.clone());
            }
            i += 1;
        }
        proof {
            assert forall|n: Seq<char>| cascade@.contains(n) implies {
                &&& selects_always(self@, n, target@) ==> unconditional@.contains(n)
                &&& selects_under_condition(self@, v, n, target@) ==> active@.contains(n)
            } by {
                assert(cascade.names().contains(n));
            }
        }
        (unconditional, active)
    }

    /// Returns the subset of `disabled` that would be re-enabled by an active `select` from a
    /// symbol not in `disabled`.
    ///
    /// An edge is a conflict when the selector is currently enabled (per `values`) and its select
    /// condition is satisfied.
    pub fn validate_disabled(&self, disabled: &NameSet, values: &NameMap<String>) -> (conflicts:
        NameSet)
        ensures
            forall|t: Seq<char>| #[trigger]
                conflicts@.contains(t) <==> is_conflict(
                    self@,
                    value_texts(values@),
                    disabled@,
                    t,
                ),
            forall|key: Seq<char>, q: int|
                self@.contains_key(key) && 0 <= q < self@[key].selects.len()
                    && !disabled@.contains(self@[key].name) && is_enabled(
                    value_texts(values@),
                    self@[key].name,
                ) && holds((#[trigger] self@[key].selects[q]).1, value_texts(values@))
                    && disabled@.contains(self@[key].selects[q].0) ==> conflicts@.contains(
                    self@[key].selects[q].0,
                ),
    {
        let ghost g = self@;
        let ghost v = value_texts(values@);
        let ghost off = disabled@;
        let mut conflicts = NameSet::new();
        let count: usize = self.symbols.len();
        let mut i: usize = 0;
        while i < count
            invariant
                i <= count,
                count == self.symbols.keys().len(),
                g == self@,
                v == value_texts(values@),
                off == disabled@,
                forall|t: Seq<char>| #[trigger] conflicts@.contains(t) ==> is_conflict(g, v, off, t),
                forall|k: int, q: int|
                    0 <= k < i && #[trigger] still_selects(g, v, off, self.symbols.keys()[k], q)
                        && off.contains(g[self.symbols.keys()[k]].selects[q].0)
                        ==> conflicts@.contains(g[self.symbols.keys()[k]].selects[q].0),
            decreases count - i,
        {
            let sym = self.symbols.value_at(i);
            let ghost key = self.symbols.keys()[i as int];
            assert(self.symbols.keys().contains(key));
            assert(g.contains_key(key) && g[key] == sym@);
            if !disabled.contains(sym.name.as_str()) && enabled(values, sym.name.as_str()) {
                let mut j: usize = 0;
                while j < sym.selects.len()
                    invariant
                        i < count,
                        count == self.symbols.keys().len(),
                        j <= sym.selects@.len(),
                        g == self@,
                        v == value_texts(values@),
                        off == disabled@,
                        key == self.symbols.keys()[i as int],
                        g.contains_key(key),
                        g[key] == sym@,
                        !off.contains(sym.name@),
                        is_enabled(v, sym.name@),
                        forall|t: Seq<char>| #[trigger]
                            conflicts@.contains(t) ==> is_conflict(g, v, off, t),
                        forall|k: int, q: int|
                            (0 <= k < i || k == i && 0 <= q < j) && #[trigger] still_selects(
                                g,
                                v,
                                off,
                                self.symbols.keys()[k],
                                q,
                            ) && off.contains(g[self.symbols.keys()[k]].selects[q].0)
                                ==> conflicts@.contains(g[self.symbols.keys()[k]].selects[q].0),
                    decreases sym.selects@.len() - j,
                {
                    let target = &sym.selects[j].0;
                    let cond = &sym.selects[j].1;
                    assert(g[key].selects[j as int] == (target@, cond@));
                    if disabled.contains(target.as_str()) && cond.eval_bool(values) {
                        assert(still_selects(g, v, off, key, j as int));
                        conflicts.insert(target.clone());
                    }
                    j += 1;
                }
            }
            i += 1;
        }
        assert forall|t: Seq<char>| #[trigger] conflicts@.contains(t) <==> is_conflict(
            g,
            v,
            off,
            t,
        ) by {
            if is_conflict(g, v, off, t) {
                let (key, q) = choose|key: Seq<char>, q: int| #[trigger]
                    still_selects(g, v, off, key, q) && g[key].selects[q].0 == t;
                assert(self.symbols.keys().contains(key));
                let k = choose|k: int|
                    0 <= k < self.symbols.keys().len() && self.symbols.keys()[k] == key;
                assert(still_selects(g, v, off, self.symbols.keys()[k], q));
            }
        }
        assert forall|key: Seq<char>, q: int|
            g.contains_key(key) && 0 <= q < g[key].selects.len() && !off.contains(g[key].name)
                && is_enabled(v, g[key].name) && holds((#[trigger] g[key].selects[q]).1, v)
                && off.contains(g[key].selects[q].0) implies conflicts@.contains(
            g[key].selects[q].0,
        ) by {
            assert(still_selects(g, v, off, key, q));
            assert(is_conflict(g, v, off, g[key].selects[q].0));
        }
        conflicts
    }
}

// ── Requiring ─────────────────────────────────────────────────────────────────

/// Whether the symbol `n`, which is enabled and stays out of `off`, loses what it depends on once
/// the symbols of `off` are set to `n`.
pub open spec fn falls(
    g: Map<Seq<char>, SymbolView>,
    values: Map<Seq<char>, Seq<char>>,
    off: Set<Seq<char>>,
    n: Seq<char>,
) -> bool {
    &&& g.contains_key(n)
    &&& !off.contains(n)
    &&& is_enabled(values, n)
    &&& g[n].depends_on is Some
    &&& holds(g[n].depends_on->0, values)
    &&& !holds(g[n].depends_on->0, with_disabled(values, off))
}

/// `off` and the symbols that lose what they depend on by it.
pub open spec fn round(
    g: Map<Seq<char>, SymbolView>,
    values: Map<Seq<char>, Seq<char>>,
    off: Set<Seq<char>>,
) -> Set<Seq<char>> {
    Set::new(|n: Seq<char>| off.contains(n) || falls(g, values, off, n))
}

/// What is off after `k` rounds.
pub open spec fn rounds(
    g: Map<Seq<char>, SymbolView>,
    values: Map<Seq<char>, Seq<char>>,
    off: Set<Seq<char>>,
    k: nat,
) -> Set<Seq<char>>
    decreases k,
{
    if k == 0 {
        off
    } else {
        round(g, values, rounds(g, values, off, (k - 1) as nat))
    }
}

/// Whether nothing more falls after `k` rounds.
pub open spec fn is_settled(
    g: Map<Seq<char>, SymbolView>,
    values: Map<Seq<char>, Seq<char>>,
    off: Set<Seq<char>>,
    k: nat,
) -> bool {
    forall|n: Seq<char>| !#[trigger] falls(g, values, rounds(g, values, off, k), n)
}

impl KconfigGraph {
    /// The symbols that lose what they depend on once those of `off` are set to `n`.
    fn newly_disabled(&self, off: &NameSet, values: &NameMap<String>) -> (newly: NameSet)
        ensures
            forall|n: Seq<char>| #[trigger]
                newly@.contains(n) <==> falls(self@, value_texts(values@), off@, n),
    {
        let ghost g = self@;
        let ghost v = value_texts(values@);
        let mut newly = NameSet::new();
        let count: usize = self.symbols.len();
        let mut i: usize = 0;
        while i < count
            invariant
                i <= count,
                count == self.symbols.keys().len(),
                g == self@,
                v == value_texts(values@),
                forall|n: Seq<char>| #[trigger] newly@.contains(n) ==> falls(g, v, off@, n),
                forall|k: int|
                    0 <= k < i && falls(g, v, off@, #[trigger] self.symbols.keys()[k])
                        ==> newly@.contains(self.symbols.keys()[k]),
            decreases count - i,
        {
            let name = self.symbols.key_at(i);
            let sym = self.symbols.value_at(i);
            assert(g.contains_key(name@) && g[name@] == sym@);
            if !off.contains(name.as_str()) && enabled(values, name.as_str()) {
                match &sym.depends_on {
                    Some(dep) => {
                        if dep.eval_bool(values) && !dep.eval_with(values, off) {
                            newly.insert(name.clone());
                        }
                    },
                    None => {},
                }
            }
            i += 1;
        }
        assert forall|n: Seq<char>| #[trigger] newly@.contains(n) <==> falls(g, v, off@, n) by {
            if falls(g, v, off@, n) {
                assert(self.symbols.keys().contains(n));
            }
        }
        newly
    }

    /// Returns all CONFIG symbols that transitively become disabled because their `depends on`
    /// expression becomes false once `initially_disabled` symbols are set to `n`. Only considers
    /// symbols currently enabled (y/m) in `values`. Does NOT include `initially_disabled` itself in
    /// the return set.
    ///
    /// What falls by one round is set to `n` before the next; the rounds end when nothing more
    /// falls.
    pub fn transitive_depends_disabled(
        &self,
        initially_disabled: &NameSet,
        values: &NameMap<String>,
    ) -> (fallen: NameSet)
        ensures
            exists|k: nat| #[trigger]
                is_settled(self@, value_texts(values@), initially_disabled@, k) && fallen@ == rounds(
                    self@,
                    value_texts(values@),
                    initially_disabled@,
                    k,
                ).difference(initially_disabled@),
    {
        let ghost g = self@;
        let ghost v = value_texts(values@);
        let ghost start = initially_disabled@;
        let mut all = initially_disabled.clone();
        let mut fallen = NameSet::new();
        let ghost mut k = 0nat;
        let mut done = false;
        let _count: usize = self.symbols.len();
        assert(g.dom() =~= self.symbols@.dom());
        assert(all@ =~= start.union(fallen@));
        while !done
            invariant
                g == self@,
                v == value_texts(values@),
                start == initially_disabled@,
                all@ == rounds(g, v, start, k),
                all@ == start.union(fallen@),
                fallen@.disjoint(start),
                g.dom().finite(),
                done ==> is_settled(g, v, start, k),
            decreases g.dom().difference(all@).len() + if done { 0nat } else { 1nat },
        {
            let newly = self.newly_disabled(&all, values);
            if newly.is_empty() {
                assert(is_settled(g, v, start, k)) by {
                    assert forall|n: Seq<char>| !#[trigger] falls(g, v, all@, n) by {
                        assert(!newly@.contains(n));
                    }
                }
                done = true;
            } else {
                let ghost before = all@;
                all.insert_all(&newly);
                fallen.insert_all(&newly);
                proof {
                    assert(rounds(g, v, start, k + 1) == round(g, v, before));
                    assert(all@ =~= rounds(g, v, start, k + 1));
                    assert(all@ =~= start.union(fallen@));
                    assert(fallen@.disjoint(start)) by {
                        assert forall|n: Seq<char>| newly@.contains(n) implies !start.contains(n) by {
                            assert(!before.contains(n));
                        }
                    }
                    let old_rest = g.dom().difference(before);
                    let new_rest = g.dom().difference(all@);
                    let n = choose|n: Seq<char>| newly@.contains(n);
                    assert(newly@.contains(n)) by {
                        if forall|m: Seq<char>| !newly@.contains(m) {
                            assert(newly@ =~= Set::empty());
                        }
                    }
                    assert(falls(g, v, before, n));
                    assert(old_rest.contains(n));
                    assert(new_rest.subset_of(old_rest.remove(n)));
                    vstd::set_lib::lemma_len_subset(new_rest, old_rest.remove(n));
                    k = k + 1;
                }
            }
        }
        assert(fallen@ =~= rounds(g, v, start, k).difference(start));
        fallen
    }
}

// ── Laws ──────────────────────────────────────────────────────────────────────

/// Once nothing more falls, further rounds change nothing.
proof fn lemma_settled_stays(
    g: Map<Seq<char>, SymbolView>,
    values: Map<Seq<char>, Seq<char>>,
    off: Set<Seq<char>>,
    k: nat,
    m: nat,
)
    requires
        is_settled(g, values, off, k),
        k <= m,
    ensures
        rounds(g, values, off, m) == rounds(g, values, off, k),
    decreases m - k,
{
    if k < m {
        lemma_settled_stays(g, values, off, k, (m - 1) as nat);
        let s = rounds(g, values, off, k);
        assert forall|n: Seq<char>| !#[trigger] falls(g, values, s, n) by {
            assert(!falls(g, values, rounds(g, values, off, k), n));
        }
        assert(round(g, values, s) =~= s);
    }
}

/// Rounds that have settled give one result, however many there were.
pub proof fn lemma_settled_once(
    g: Map<Seq<char>, SymbolView>,
    values: Map<Seq<char>, Seq<char>>,
    off: Set<Seq<char>>,
    k: nat,
    m: nat,
)
    requires
        is_settled(g, values, off, k),
        is_settled(g, values, off, m),
    ensures
        rounds(g, values, off, k) == rounds(g, values, off, m),
{
    if k <= m {
        lemma_settled_stays(g, values, off, k, m);
    } else {
        lemma_settled_stays(g, values, off, m, k);
    }
}

/// What is off to begin with stays off.
pub proof fn lemma_rounds_grow(
    g: Map<Seq<char>, SymbolView>,
    values: Map<Seq<char>, Seq<char>>,
    off: Set<Seq<char>>,
    k: nat,
)
    ensures
        off.subset_of(rounds(g, values, off, k)),
        forall|n: Seq<char>| #[trigger]
            rounds(g, values, off, k).contains(n) && !off.contains(n) ==> g.contains_key(n)
                && is_enabled(values, n) && g[n].depends_on is Some,
    decreases k,
{
    if k > 0 {
        lemma_rounds_grow(g, values, off, (k - 1) as nat);
    }
}

/// Once nothing more falls, every enabled symbol that stays keeps what it depends on.
pub proof fn lemma_settled_dependencies_hold(
    g: Map<Seq<char>, SymbolView>,
    values: Map<Seq<char>, Seq<char>>,
    off: Set<Seq<char>>,
    k: nat,
    n: Seq<char>,
)
    requires
        is_settled(g, values, off, k),
        g.contains_key(n),
        is_enabled(values, n),
        !rounds(g, values, off, k).contains(n),
        g[n].depends_on is Some,
        holds(g[n].depends_on->0, values),
    ensures
        holds(g[n].depends_on->0, with_disabled(values, rounds(g, values, off, k))),
{
    assert(!falls(g, values, rounds(g, values, off, k), n));
}

/// Disabling symbols along with everything that has a select in force for them, directly or
/// through others, leaves no conflict.
pub proof fn lemma_cascades_leave_no_conflict(
    g: Map<Seq<char>, SymbolView>,
    values: Map<Seq<char>, Seq<char>>,
    configs: Set<Seq<char>>,
    disabled: Set<Seq<char>>,
    target: Seq<char>,
)
    requires
        forall|n: Seq<char>| #[trigger]
            disabled.contains(n) <==> reached_from(forced_by(g, values), configs, n),
    ensures
        !is_conflict(g, values, disabled, target),
{
    if is_conflict(g, values, disabled, target) {
        let edge = forced_by(g, values);
        let (key, q) = choose|key: Seq<char>, q: int| #[trigger]
            still_selects(g, values, disabled, key, q) && g[key].selects[q].0 == target;
        let selector = g[key].name;
        assert(selects_actively(g, values, key, q));
        assert(forces(g, values, selector, target));
        assert(edge(target, selector));
        assert(disabled.contains(target));
        let c = choose|c: Seq<char>| #[trigger]
            configs.contains(c) && leads_to(edge, c, target);
        lemma_leads_to_step(edge, c, target, selector);
        assert(reached_from(edge, configs, selector));
        assert(disabled.contains(selector));
    }
}

} // verus!
