//! Conditions under which source files are included in the build.
use crate::names::NameSet;
use crate::text::same_text;
use vstd::prelude::*;

verus! {

/// Boolean expression over CONFIG symbols describing the conditions under which a source file is
/// included in the build.
#[derive(Debug, PartialEq, Eq)]
pub enum ConfigExpr {
    /// File is compiled when this CONFIG symbol is enabled.
    Symbol(String),
    And(Box<ConfigExpr>, Box<ConfigExpr>),
    Or(Box<ConfigExpr>, Box<ConfigExpr>),
    Not(Box<ConfigExpr>),
    /// File is compiled unconditionally (e.g. `obj-y += file.o`).
    Always,
}

/// What a condition says.
pub ghost enum Cond {
    Symbol(Seq<char>),
    And(Box<Cond>, Box<Cond>),
    Or(Box<Cond>, Box<Cond>),
    Not(Box<Cond>),
    Always,
}

/// What `e` says.
pub open spec fn cond_of(e: ConfigExpr) -> Cond
    decreases e,
{
    match e {
        ConfigExpr::Symbol(s) => Cond::Symbol(s@),
        ConfigExpr::And(a, b) => Cond::And(Box::new(cond_of(*a)), Box::new(cond_of(*b))),
        ConfigExpr::Or(a, b) => Cond::Or(Box::new(cond_of(*a)), Box::new(cond_of(*b))),
        ConfigExpr::Not(a) => Cond::Not(Box::new(cond_of(*a))),
        ConfigExpr::Always => Cond::Always,
    }
}

impl View for ConfigExpr {
    type V = Cond;

    open spec fn view(&self) -> Cond {
        cond_of(*self)
    }
}

fn copy_cond(e: &ConfigExpr) -> (c: ConfigExpr)
    ensures
        c@ == e@,
    decreases e,
{
    match e {
        ConfigExpr::Symbol(s) => ConfigExpr::Symbol(s.clone()),
        ConfigExpr::And(a, b) => ConfigExpr::And(Box::new(copy_cond(a)), Box::new(copy_cond(b))),
        ConfigExpr::Or(a, b) => ConfigExpr::Or(Box::new(copy_cond(a)), Box::new(copy_cond(b))),
        ConfigExpr::Not(a) => ConfigExpr::Not(Box::new(copy_cond(a))),
        ConfigExpr::Always => ConfigExpr::Always,
    }
}

impl Clone for ConfigExpr {
    fn clone(&self) -> (c: ConfigExpr)
        ensures
            c@ == self@,
    {
        copy_cond(self)
    }
}

/// The symbols that a condition mentions.
pub open spec fn cond_symbols(c: Cond) -> Set<Seq<char>>
    decreases c,
{
    match c {
        Cond::Symbol(s) => set![s],
        Cond::And(a, b) => cond_symbols(*a).union(cond_symbols(*b)),
        Cond::Or(a, b) => cond_symbols(*a).union(cond_symbols(*b)),
        Cond::Not(a) => cond_symbols(*a),
        Cond::Always => set![],
    }
}

/// Whether a condition holds where just the symbols of `enabled` are enabled.
pub open spec fn cond_holds(c: Cond, enabled: Set<Seq<char>>) -> bool
    decreases c,
{
    match c {
        Cond::Symbol(s) => enabled.contains(s),
        Cond::And(a, b) => cond_holds(*a, enabled) && cond_holds(*b, enabled),
        Cond::Or(a, b) => cond_holds(*a, enabled) || cond_holds(*b, enabled),
        Cond::Not(a) => !cond_holds(*a, enabled),
        Cond::Always => true,
    }
}

impl ConfigExpr {
    /// Whether this is the expression that is unconditionally true.
    pub fn is_always(&self) -> (yes: bool)
        ensures
            yes == (self@ == Cond::Always),
    {
        match self {
            ConfigExpr::Always => true,
            _ => false,
        }
    }

    /// Returns all CONFIG symbol names referenced in the expression.
    pub fn symbols(&self) -> (out: NameSet)
        ensures
            out@ == cond_symbols(self@),
    {
        let mut out = NameSet::new();
        self.collect_symbols(&mut out);
        assert(out@ =~= cond_symbols(self@));
        out
    }

    fn collect_symbols(&self, out: &mut NameSet)
        ensures
            final(out)@ == old(out)@.union(cond_symbols(self@)),
        decreases self,
    {
        let ghost before = out@;
        match self {
            ConfigExpr::Symbol(s) => {
                out.insert(s.clone());
            },
            ConfigExpr::And(a, b) => {
                a.collect_symbols(out);
                b.collect_symbols(out);
            },
            ConfigExpr::Or(a, b) => {
                a.collect_symbols(out);
                b.collect_symbols(out);
            },
            ConfigExpr::Not(a) => a.collect_symbols(out),
            ConfigExpr::Always => {},
        }
        assert(out@ =~= before.union(cond_symbols(self@)));
    }

    /// Evaluates the expression given a set of enabled CONFIG symbols.
    pub fn eval(&self, enabled: &NameSet) -> (truth: bool)
        ensures
            truth == cond_holds(self@, enabled@),
        decreases self,
    {
        match self {
            ConfigExpr::Symbol(s) => enabled.contains(s.as_str()),
            ConfigExpr::And(a, b) => a.eval(enabled) && b.eval(enabled),
            ConfigExpr::Or(a, b) => a.eval(enabled) || b.eval(enabled),
            ConfigExpr::Not(a) => !a.eval(enabled),
            ConfigExpr::Always => true,
        }
    }
}

// ── Control ───────────────────────────────────────────────────────────────────

/// Whether setting `symbol` to `n` turns the condition off where `enabled` is what else is enabled.
pub open spec fn flips(c: Cond, symbol: Seq<char>, enabled: Set<Seq<char>>) -> bool {
    cond_holds(c, enabled.insert(symbol)) && !cond_holds(c, enabled.remove(symbol))
}

/// Whether there is a configuration in which setting `symbol` to `n` turns the condition off.
pub open spec fn controls(c: Cond, symbol: Seq<char>) -> bool {
    exists|enabled: Set<Seq<char>>| flips(c, symbol, enabled)
}

/// Whether two configurations agree on the symbols that a condition mentions.
pub open spec fn same_on(c: Cond, a: Set<Seq<char>>, b: Set<Seq<char>>) -> bool {
    forall|s: Seq<char>| #[trigger] cond_symbols(c).contains(s) ==> a.contains(s) == b.contains(s)
}

/// A condition depends on the symbols that it mentions, and on nothing else.
pub proof fn lemma_cond_by_symbols(c: Cond, a: Set<Seq<char>>, b: Set<Seq<char>>)
    requires
        same_on(c, a, b),
    ensures
        cond_holds(c, a) == cond_holds(c, b),
    decreases c,
{
    match c {
        Cond::Symbol(s) => {
            assert(cond_symbols(c).contains(s));
        },
        Cond::And(x, y) => {
            lemma_same_on_part(c, *x, a, b);
            lemma_same_on_part(c, *y, a, b);
            lemma_cond_by_symbols(*x, a, b);
            lemma_cond_by_symbols(*y, a, b);
        },
        Cond::Or(x, y) => {
            lemma_same_on_part(c, *x, a, b);
            lemma_same_on_part(c, *y, a, b);
            lemma_cond_by_symbols(*x, a, b);
            lemma_cond_by_symbols(*y, a, b);
        },
        Cond::Not(x) => {
            lemma_same_on_part(c, *x, a, b);
            lemma_cond_by_symbols(*x, a, b);
        },
        Cond::Always => {},
    }
}

proof fn lemma_same_on_part(c: Cond, part: Cond, a: Set<Seq<char>>, b: Set<Seq<char>>)
    requires
        same_on(c, a, b),
        cond_symbols(part).subset_of(cond_symbols(c)),
    ensures
        same_on(part, a, b),
{
    assert forall|s: Seq<char>| #[trigger] cond_symbols(part).contains(s) implies a.contains(s)
        == b.contains(s) by {
        assert(cond_symbols(c).contains(s));
    }
}

/// A condition controlled by a symbol mentions it.
pub proof fn lemma_controlled_mentions(c: Cond, symbol: Seq<char>)
    requires
        controls(c, symbol),
    ensures
        cond_symbols(c).contains(symbol),
{
    let enabled = choose|enabled: Set<Seq<char>>| flips(c, symbol, enabled);
    if !cond_symbols(c).contains(symbol) {
        assert(same_on(c, enabled.insert(symbol), enabled.remove(symbol)));
        lemma_cond_by_symbols(c, enabled.insert(symbol), enabled.remove(symbol));
    }
}

/// A condition that a symbol does not control stays on when the symbol is set to `n`.
pub proof fn lemma_uncontrolled_stays(c: Cond, symbol: Seq<char>, enabled: Set<Seq<char>>)
    requires
        !controls(c, symbol),
        cond_holds(c, enabled),
    ensures
        cond_holds(c, enabled.remove(symbol)),
{
    if enabled.contains(symbol) {
        assert(enabled.insert(symbol) =~= enabled);
    } else {
        assert(enabled.remove(symbol) =~= enabled);
    }
    assert(!flips(c, symbol, enabled));
}

/// Whether a configuration enables everything in `on` and nothing in `off`.
spec fn within(enabled: Set<Seq<char>>, on: Set<Seq<char>>, off: Set<Seq<char>>) -> bool {
    on.subset_of(enabled) && off.disjoint(enabled)
}

/// Whether there is a configuration, with everything in `on` enabled and nothing in `off`, in which
/// setting `symbol` to `n` turns the condition off.
spec fn flips_within(
    c: Cond,
    symbol: Seq<char>,
    on: Set<Seq<char>>,
    off: Set<Seq<char>>,
) -> bool {
    exists|enabled: Set<Seq<char>>| within(enabled, on, off) && #[trigger] flips(c, symbol, enabled)
}

/// Whether `truth` is what the condition comes to in every configuration with everything in `on`
/// enabled and nothing in `off`.
spec fn settled(c: Cond, on: Set<Seq<char>>, off: Set<Seq<char>>, truth: bool) -> bool {
    forall|enabled: Set<Seq<char>>| #[trigger]
        within(enabled, on, off) ==> cond_holds(c, enabled) == truth
}

/// What the condition comes to by its parts alone, where the symbols in `on` are enabled, those in
/// `off` are not, and the others may be either.
spec fn known(c: Cond, on: Set<Seq<char>>, off: Set<Seq<char>>) -> Option<bool>
    decreases c,
{
    match c {
        Cond::Symbol(s) => if on.contains(s) {
            Some(true)
        } else if off.contains(s) {
            Some(false)
        } else {
            None
        },
        Cond::And(a, b) => if known(*a, on, off) == Some(false) || known(*b, on, off) == Some(
            false,
        ) {
            Some(false)
        } else if known(*a, on, off) == Some(true) && known(*b, on, off) == Some(true) {
            Some(true)
        } else {
            None
        },
        Cond::Or(a, b) => if known(*a, on, off) == Some(true) || known(*b, on, off) == Some(true) {
            Some(true)
        } else if known(*a, on, off) == Some(false) && known(*b, on, off) == Some(false) {
            Some(false)
        } else {
            None
        },
        Cond::Not(a) => match known(*a, on, off) {
            Some(b) => Some(!b),
            None => None,
        },
        Cond::Always => Some(true),
    }
}

/// Whether `symbol` occurs in the condition with no part around it that is known: where it does not,
/// it is idle.
spec fn occurs_open(c: Cond, symbol: Seq<char>, on: Set<Seq<char>>, off: Set<Seq<char>>) -> bool
    decreases c,
{
    known(c, on, off) is None && match c {
        Cond::Symbol(s) => s == symbol,
        Cond::And(a, b) => occurs_open(*a, symbol, on, off) || occurs_open(*b, symbol, on, off),
        Cond::Or(a, b) => occurs_open(*a, symbol, on, off) || occurs_open(*b, symbol, on, off),
        Cond::Not(a) => occurs_open(*a, symbol, on, off),
        Cond::Always => false,
    }
}

/// Whether `symbol` makes no difference to the condition in any configuration with everything in
/// `on` enabled and nothing in `off`.
spec fn idle(c: Cond, symbol: Seq<char>, on: Set<Seq<char>>, off: Set<Seq<char>>) -> bool {
    forall|enabled: Set<Seq<char>>| #[trigger]
        within(enabled, on, off) ==> cond_holds(c, enabled.insert(symbol)) == cond_holds(
            c,
            enabled.remove(symbol),
        )
}

proof fn lemma_settled_idle(
    c: Cond,
    symbol: Seq<char>,
    on: Set<Seq<char>>,
    off: Set<Seq<char>>,
    truth: bool,
)
    requires
        settled(c, on, off, truth),
        !on.contains(symbol),
        !off.contains(symbol),
    ensures
        idle(c, symbol, on, off),
{
    assert forall|e: Set<Seq<char>>| #[trigger] within(e, on, off) implies cond_holds(
        c,
        e.insert(symbol),
    ) == cond_holds(c, e.remove(symbol)) by {
        assert(within(e.insert(symbol), on, off));
        assert(within(e.remove(symbol), on, off));
    }
}

/// Whether each of the first `k` of `symbols` is `symbol`, or on, or off.
spec fn decided(
    symbols: Seq<Seq<char>>,
    k: int,
    symbol: Seq<char>,
    on: Set<Seq<char>>,
    off: Set<Seq<char>>,
) -> bool {
    forall|i: int|
        0 <= i < k ==> #[trigger] symbols[i] == symbol || on.contains(symbols[i]) || off.contains(
            symbols[i],
        )
}

impl ConfigExpr {
    /// What the condition comes to where everything in `on` is enabled and nothing in `off`, as far
    /// as that settles it.
    fn settle(&self, on: &NameSet, off: &NameSet) -> (truth: Option<bool>)
        ensures
            truth == known(self@, on@, off@),
            match truth {
                Some(b) => settled(self@, on@, off@, b),
                None => !cond_symbols(self@).subset_of(on@.union(off@)),
            },
        decreases self,
    {
        match self {
            ConfigExpr::Symbol(s) => {
                proof {
                    assert(cond_symbols(self@).contains(s@));
                    assert(self@ == Cond::Symbol(s@));
                }
                if on.contains(s.as_str()) {
                    Some(true)
                } else if off.contains(s.as_str()) {
                    Some(false)
                } else {
                    None
                }
            },
            ConfigExpr::And(a, b) => {
                let first = a.settle(on, off);
                let second = b.settle(on, off);
                proof {
                    assert(self@ == Cond::And(Box::new(a@), Box::new(b@)));
                    assert(cond_symbols(a@).subset_of(cond_symbols(self@)));
                    assert(cond_symbols(b@).subset_of(cond_symbols(self@)));
                }
                match (first, second) {
                    (Some(false), _) => Some(false),
                    (_, Some(false)) => Some(false),
                    (Some(true), Some(true)) => Some(true),
                    _ => None,
                }
            },
            ConfigExpr::Or(a, b) => {
                let first = a.settle(on, off);
                let second = b.settle(on, off);
                proof {
                    assert(self@ == Cond::Or(Box::new(a@), Box::new(b@)));
                    assert(cond_symbols(a@).subset_of(cond_symbols(self@)));
                    assert(cond_symbols(b@).subset_of(cond_symbols(self@)));
                }
                match (first, second) {
                    (Some(true), _) => Some(true),
                    (_, Some(true)) => Some(true),
                    (Some(false), Some(false)) => Some(false),
                    _ => None,
                }
            },
            ConfigExpr::Not(a) => {
                assert(self@ == Cond::Not(Box::new(a@)));
                match a.settle(on, off) {
                    Some(b) => Some(!b),
                    None => None,
                }
            },
            ConfigExpr::Always => Some(true),
        }
    }

    /// Whether `symbol` occurs where it may make a difference while everything in `on` is enabled
    /// and nothing in `off`.
    fn may_matter(&self, symbol: &str, on: &NameSet, off: &NameSet) -> (yes: bool)
        requires
            !on@.contains(symbol@),
            !off@.contains(symbol@),
        ensures
            yes == occurs_open(self@, symbol@, on@, off@),
            !yes ==> idle(self@, symbol@, on@, off@),
        decreases self,
    {
        if let Some(truth) = self.settle(on, off) {
            proof {
                lemma_settled_idle(self@, symbol@, on@, off@, truth);
            }
            return false;
        }
        match self {
            ConfigExpr::Symbol(s) => {
                assert(self@ == Cond::Symbol(s@));
                same_text(s.as_str(), symbol)
            },
            ConfigExpr::And(a, b) => {
                assert(self@ == Cond::And(Box::new(a@), Box::new(b@)));
                a.may_matter(symbol, on, off) || b.may_matter(symbol, on, off)
            },
            ConfigExpr::Or(a, b) => {
                assert(self@ == Cond::Or(Box::new(a@), Box::new(b@)));
                a.may_matter(symbol, on, off) || b.may_matter(symbol, on, off)
            },
            ConfigExpr::Not(a) => {
                assert(self@ == Cond::Not(Box::new(a@)));
                a.may_matter(symbol, on, off)
            },
            ConfigExpr::Always => false,
        }
    }

    /// Tests whether there is a configuration in which setting `symbol` to `n` turns the condition
    /// off.
    pub fn is_controlled_by(&self, symbol: &str) -> (yes: bool)
        ensures
            yes == controls(self@, symbol@),
    {
        let symbols = self.symbols();
        let none = NameSet::new();
        let yes = self.search_flip(symbol, &symbols, 0, &none, &none);
        proof {
            if controls(self@, symbol@) {
                let enabled = choose|enabled: Set<Seq<char>>| flips(self@, symbol@, enabled);
                assert(within(enabled, none@, none@));
            }
        }
        yes
    }

    /// Tries the ways to enable the symbols from the one at `k` on, as far as they matter.
    fn search_flip(
        &self,
        symbol: &str,
        symbols: &NameSet,
        k: usize,
        on: &NameSet,
        off: &NameSet,
    ) -> (yes: bool)
        requires
            k <= symbols.names().len(),
            symbols@ == cond_symbols(self@),
            on@.disjoint(off@),
            !on@.contains(symbol@),
            !off@.contains(symbol@),
            decided(symbols.names(), k as int, symbol@, on@, off@),
        ensures
            yes == flips_within(self@, symbol@, on@, off@),
        decreases symbols.names().len() - k,
    {
        if !self.may_matter(symbol, on, off) {
            return false;
        }
        let ghost names = symbols.names();
        let mut with = on.clone();
        with.insert(symbol.to_owned());
        let mut without = off.clone();
        without.insert(symbol.to_owned());
        let enabled = self.settle(&with, off);
        let disabled = self.settle(on, &without);
        proof {
            assert forall|e: Set<Seq<char>>| within(e, on@, off@) implies within(
                e.insert(symbol@),
                with@,
                off@,
            ) && within(e.remove(symbol@), on@, without@) by {}
        }
        match (enabled, disabled) {
            (Some(false), _) => {
                return false;
            },
            (_, Some(true)) => {
                return false;
            },
            (Some(true), Some(false)) => {
                proof {
                    assert(within(on@, on@, off@));
                    assert(flips(self@, symbol@, on@));
                }
                return true;
            },
            _ => {},
        }
        let count: usize = symbols.len();
        if k == count {
            proof {
                assert forall|s: Seq<char>| cond_symbols(self@).contains(s) implies with@.union(
                    off@,
                ).contains(s) && on@.union(without@).contains(s) by {
                    assert(names.contains(s));
                    let i = choose|i: int| 0 <= i < names.len() && names[i] == s;
                    assert(names[i] == symbol@ || on@.contains(names[i]) || off@.contains(names[i]));
                }
                assert(false);
            }
            return false;
        }
        let next = symbols.get(k);
        if same_text(next.as_str(), symbol) || on.contains(next.as_str()) || off.contains(
            next.as_str(),
        ) {
            return self.search_flip(symbol, symbols, k + 1, on, off);
        }
        let mut more_off = off.clone();
        more_off.insert(next.clone());
        let mut more_on = on.clone();
        more_on.insert(next.clone());
        proof {
            assert forall|e: Set<Seq<char>>|
                within(e, on@, off@) == (within(e, on@, more_off@) || within(e, more_on@, off@)) by {
                if within(e, on@, off@) {
                    if e.contains(next@) {
                        assert(more_on@.subset_of(e));
                    } else {
                        assert(more_off@.disjoint(e));
                    }
                }
                if within(e, on@, more_off@) {
                    assert(off@.subset_of(more_off@));
                    assert(off@.disjoint(e));
                }
                if within(e, more_on@, off@) {
                    assert(on@.subset_of(more_on@));
                    assert(on@.subset_of(e));
                }
            }
            assert(flips_within(self@, symbol@, on@, off@) == (flips_within(
                self@,
                symbol@,
                on@,
                more_off@,
            ) || flips_within(self@, symbol@, more_on@, off@)));
        }
        self.search_flip(symbol, symbols, k + 1, on, &more_off) || self.search_flip(
            symbol,
            symbols,
            k + 1,
            &more_on,
            off,
        )
    }
}

// ── Laws ──────────────────────────────────────────────────────────────────────

/// What a condition comes to follows from what its parts come to: a symbol holds where it is
/// enabled, and the connectives mean what they say.
pub proof fn lemma_truth_of_parts(a: Cond, b: Cond, s: Seq<char>, on: Set<Seq<char>>)
    ensures
        cond_holds(Cond::Always, on),
        cond_holds(Cond::Symbol(s), on) <==> on.contains(s),
        cond_holds(Cond::Not(Box::new(a)), on) <==> !cond_holds(a, on),
        cond_holds(Cond::And(Box::new(a), Box::new(b)), on) <==> cond_holds(a, on) && cond_holds(
            b,
            on,
        ),
        cond_holds(Cond::Or(Box::new(a), Box::new(b)), on) <==> cond_holds(a, on) || cond_holds(
            b,
            on,
        ),
{
}

/// A condition mentions the symbols that its parts mention.
pub proof fn lemma_symbols_of_parts(a: Cond, b: Cond, s: Seq<char>, n: Seq<char>)
    ensures
        cond_symbols(Cond::Symbol(s)).contains(n) <==> n == s,
        !cond_symbols(Cond::Always).contains(n),
        cond_symbols(Cond::Not(Box::new(a))).contains(n) <==> cond_symbols(a).contains(n),
        cond_symbols(Cond::And(Box::new(a), Box::new(b))).contains(n) <==> cond_symbols(a).contains(
            n,
        ) || cond_symbols(b).contains(n),
        cond_symbols(Cond::Or(Box::new(a), Box::new(b))).contains(n) <==> cond_symbols(a).contains(
            n,
        ) || cond_symbols(b).contains(n),
{
}

/// A symbol controls a condition just where, in some configuration with the symbol enabled, the
/// condition holds and stops holding when that symbol alone is disabled.
pub proof fn lemma_control_is_by_one_symbol(c: Cond, symbol: Seq<char>)
    ensures
        controls(c, symbol) <==> exists|on: Set<Seq<char>>| #[trigger]
            on.contains(symbol) && cond_holds(c, on) && !cond_holds(c, on.remove(symbol)),
{
    if controls(c, symbol) {
        let enabled = choose|enabled: Set<Seq<char>>| flips(c, symbol, enabled);
        let on = enabled.insert(symbol);
        assert(on.remove(symbol) =~= enabled.remove(symbol));
        assert(on.contains(symbol) && cond_holds(c, on) && !cond_holds(c, on.remove(symbol)));
    }
    if exists|on: Set<Seq<char>>| #[trigger]
        on.contains(symbol) && cond_holds(c, on) && !cond_holds(c, on.remove(symbol)) {
        let on = choose|on: Set<Seq<char>>| #[trigger]
            on.contains(symbol) && cond_holds(c, on) && !cond_holds(c, on.remove(symbol));
        assert(on.insert(symbol) =~= on);
        assert(flips(c, symbol, on));
    }
}

} // verus!
