//! Expressions over CONFIG symbols and what they evaluate to.
use crate::names::{
    lemma_order_total, order_texts, precedes, text_order, NameMap, NameSet, Order,
};
use crate::number::{integer, parse_int};
use crate::text::same_text;
use vstd::prelude::*;

verus! {

/// Expression over CONFIG symbols, as defined by the Kconfig language.
#[derive(Debug, PartialEq, Eq)]
pub enum ConfigExpr {
    Symbol(String),
    Literal(String),
    /// Unconditionally true (missing `depends on`, `obj-y`).
    Always,
    And(Box<ConfigExpr>, Box<ConfigExpr>),
    Or(Box<ConfigExpr>, Box<ConfigExpr>),
    Not(Box<ConfigExpr>),
    Equal(Box<ConfigExpr>, Box<ConfigExpr>),
    NotEqual(Box<ConfigExpr>, Box<ConfigExpr>),
    Less(Box<ConfigExpr>, Box<ConfigExpr>),
    LessEq(Box<ConfigExpr>, Box<ConfigExpr>),
    Greater(Box<ConfigExpr>, Box<ConfigExpr>),
    GreaterEq(Box<ConfigExpr>, Box<ConfigExpr>),
}

/// What an expression says.
pub ghost enum Expr {
    Symbol(Seq<char>),
    Literal(Seq<char>),
    Always,
    And(Box<Expr>, Box<Expr>),
    Or(Box<Expr>, Box<Expr>),
    Not(Box<Expr>),
    Equal(Box<Expr>, Box<Expr>),
    NotEqual(Box<Expr>, Box<Expr>),
    Less(Box<Expr>, Box<Expr>),
    LessEq(Box<Expr>, Box<Expr>),
    Greater(Box<Expr>, Box<Expr>),
    GreaterEq(Box<Expr>, Box<Expr>),
}

/// What `e` says.
pub open spec fn expr_of(e: ConfigExpr) -> Expr
    decreases e,
{
    match e {
        ConfigExpr::Symbol(s) => Expr::Symbol(s@),
        ConfigExpr::Literal(s) => Expr::Literal(s@),
        ConfigExpr::Always => Expr::Always,
        ConfigExpr::And(a, b) => Expr::And(Box::new(expr_of(*a)), Box::new(expr_of(*b))),
        ConfigExpr::Or(a, b) => Expr::Or(Box::new(expr_of(*a)), Box::new(expr_of(*b))),
        ConfigExpr::Not(a) => Expr::Not(Box::new(expr_of(*a))),
        ConfigExpr::Equal(a, b) => Expr::Equal(Box::new(expr_of(*a)), Box::new(expr_of(*b))),
        ConfigExpr::NotEqual(a, b) => Expr::NotEqual(Box::new(expr_of(*a)), Box::new(expr_of(*b))),
        ConfigExpr::Less(a, b) => Expr::Less(Box::new(expr_of(*a)), Box::new(expr_of(*b))),
        ConfigExpr::LessEq(a, b) => Expr::LessEq(Box::new(expr_of(*a)), Box::new(expr_of(*b))),
        ConfigExpr::Greater(a, b) => Expr::Greater(Box::new(expr_of(*a)), Box::new(expr_of(*b))),
        ConfigExpr::GreaterEq(a, b) =>
            Expr::GreaterEq(Box::new(expr_of(*a)), Box::new(expr_of(*b))),
    }
}

impl View for ConfigExpr {
    type V = Expr;

    open spec fn view(&self) -> Expr {
        expr_of(*self)
    }
}

/// Copies `e`.
fn copy_expr(e: &ConfigExpr) -> (c: ConfigExpr)
    ensures
        c@ == e@,
    decreases e,
{
    match e {
        ConfigExpr::Symbol(s) => ConfigExpr::Symbol(s.clone()),
        ConfigExpr::Literal(s) => ConfigExpr::Literal(s.clone()),
        ConfigExpr::Always => ConfigExpr::Always,
        ConfigExpr::And(a, b) => ConfigExpr::And(Box::new(copy_expr(a)), Box::new(copy_expr(b))),
        ConfigExpr::Or(a, b) => ConfigExpr::Or(Box::new(copy_expr(a)), Box::new(copy_expr(b))),
        ConfigExpr::Not(a) => ConfigExpr::Not(Box::new(copy_expr(a))),
        ConfigExpr::Equal(a, b) =>
            ConfigExpr::Equal(Box::new(copy_expr(a)), Box::new(copy_expr(b))),
        ConfigExpr::NotEqual(a, b) =>
            ConfigExpr::NotEqual(Box::new(copy_expr(a)), Box::new(copy_expr(b))),
        ConfigExpr::Less(a, b) => ConfigExpr::Less(Box::new(copy_expr(a)), Box::new(copy_expr(b))),
        ConfigExpr::LessEq(a, b) =>
            ConfigExpr::LessEq(Box::new(copy_expr(a)), Box::new(copy_expr(b))),
        ConfigExpr::Greater(a, b) =>
            ConfigExpr::Greater(Box::new(copy_expr(a)), Box::new(copy_expr(b))),
        ConfigExpr::GreaterEq(a, b) =>
            ConfigExpr::GreaterEq(Box::new(copy_expr(a)), Box::new(copy_expr(b))),
    }
}

impl Clone for ConfigExpr {
    fn clone(&self) -> (c: ConfigExpr)
        ensures
            c@ == self@,
    {
        copy_expr(self)
    }
}

// ── Symbols ───────────────────────────────────────────────────────────────────

/// The symbols that an expression mentions.
pub open spec fn symbols_of(e: Expr) -> Set<Seq<char>>
    decreases e,
{
    match e {
        Expr::Symbol(s) => set![s],
        Expr::Literal(_) => set![],
        Expr::Always => set![],
        Expr::Not(a) => symbols_of(*a),
        Expr::And(a, b) => symbols_of(*a).union(symbols_of(*b)),
        Expr::Or(a, b) => symbols_of(*a).union(symbols_of(*b)),
        Expr::Equal(a, b) => symbols_of(*a).union(symbols_of(*b)),
        Expr::NotEqual(a, b) => symbols_of(*a).union(symbols_of(*b)),
        Expr::Less(a, b) => symbols_of(*a).union(symbols_of(*b)),
        Expr::LessEq(a, b) => symbols_of(*a).union(symbols_of(*b)),
        Expr::Greater(a, b) => symbols_of(*a).union(symbols_of(*b)),
        Expr::GreaterEq(a, b) => symbols_of(*a).union(symbols_of(*b)),
    }
}

impl ConfigExpr {
    /// The symbols that the expression mentions.
    pub fn symbols(&self) -> (out: NameSet)
        ensures
            out@ == symbols_of(self@),
    {
        let mut out = NameSet::new();
        self.collect_symbols(&mut out);
        assert(out@ =~= symbols_of(self@));
        out
    }

    /// Puts the symbols that the expression mentions into `out`.
    fn collect_symbols(&self, out: &mut NameSet)
        ensures
            final(out)@ == old(out)@.union(symbols_of(self@)),
        decreases self,
    {
        let ghost before = out@;
        match self {
            ConfigExpr::Symbol(s) => {
                out.insert(s.clone());
            },
            ConfigExpr::Literal(_) => {},
            ConfigExpr::Always => {},
            ConfigExpr::Not(a) => a.collect_symbols(out),
            ConfigExpr::And(a, b) => {
                a.collect_symbols(out);
                b.collect_symbols(out);
            },
            ConfigExpr::Or(a, b) => {
                a.collect_symbols(out);
                b.collect_symbols(out);
            },
            ConfigExpr::Equal(a, b) => {
                a.collect_symbols(out);
                b.collect_symbols(out);
            },
            ConfigExpr::NotEqual(a, b) => {
                a.collect_symbols(out);
                b.collect_symbols(out);
            },
            ConfigExpr::Less(a, b) => {
                a.collect_symbols(out);
                b.collect_symbols(out);
            },
            ConfigExpr::LessEq(a, b) => {
                a.collect_symbols(out);
                b.collect_symbols(out);
            },
            ConfigExpr::Greater(a, b) => {
                a.collect_symbols(out);
                b.collect_symbols(out);
            },
            ConfigExpr::GreaterEq(a, b) => {
                a.collect_symbols(out);
                b.collect_symbols(out);
            },
        }
        assert(out@ =~= before.union(symbols_of(self@)));
    }
}

// ── Values ────────────────────────────────────────────────────────────────────

/// The texts that the symbols have as values.
pub open spec fn value_texts(values: Map<Seq<char>, String>) -> Map<Seq<char>, Seq<char>> {
    values.map_values(|v: String| v@)
}

/// The value of the symbol `s`; one that has none counts as `n`.
pub open spec fn value_of(values: Map<Seq<char>, Seq<char>>, s: Seq<char>) -> Seq<char> {
    if values.contains_key(s) {
        values[s]
    } else {
        "n"@
    }
}

/// Whether a value means that something is built, into the image or as a module.
pub open spec fn is_on(value: Seq<char>) -> bool {
    value == "y"@ || value == "m"@
}

/// Whether the symbol `s` is enabled.
pub open spec fn is_enabled(values: Map<Seq<char>, Seq<char>>, s: Seq<char>) -> bool {
    is_on(value_of(values, s))
}

/// `values` after the symbols of `disabled` have been set to `n`.
pub open spec fn with_disabled(
    values: Map<Seq<char>, Seq<char>>,
    disabled: Set<Seq<char>>,
) -> Map<Seq<char>, Seq<char>> {
    Map::new(
        |s: Seq<char>| values.contains_key(s) || disabled.contains(s),
        |s: Seq<char>|
            if disabled.contains(s) {
                "n"@
            } else {
                values[s]
            },
    )
}

/// Tests whether a value means that something is built.
pub(crate) fn means_on(value: &str) -> (on: bool)
    ensures
        on == is_on(value@),
{
    same_text(value, "y") || same_text(value, "m")
}

/// Tests whether the symbol `name` is enabled.
pub fn enabled(values: &NameMap<String>, name: &str) -> (on: bool)
    ensures
        on == is_enabled(value_texts(values@), name@),
{
    proof {
        reveal_strlit("n");
        reveal_strlit("y");
        reveal_strlit("m");
        assert("n"@[0] != "y"@[0] && "n"@[0] != "m"@[0]);
    }
    match values.get(name) {
        Some(v) => means_on(v.as_str()),
        None => false,
    }
}

// ── Evaluation ────────────────────────────────────────────────────────────────

/// The text that stands for a side of a comparison.
pub open spec fn side(e: Expr, values: Map<Seq<char>, Seq<char>>) -> Seq<char> {
    match e {
        Expr::Symbol(s) => value_of(values, s),
        Expr::Literal(s) => s,
        _ => "n"@,
    }
}

/// How two values compare: as numbers where both are numbers, else as texts.
#[verifier::opaque]
pub open spec fn value_order(a: Seq<char>, b: Seq<char>) -> Order {
    match (integer(a), integer(b)) {
        (Some(x), Some(y)) => if x < y {
            Order::Less
        } else if x == y {
            Order::Equal
        } else {
            Order::Greater
        },
        _ => text_order(a, b),
    }
}

/// How two sides of a comparison compare.
pub open spec fn side_order(a: Expr, b: Expr, values: Map<Seq<char>, Seq<char>>) -> Order {
    value_order(side(a, values), side(b, values))
}

/// Whether the expression holds under `values`.
pub open spec fn holds(e: Expr, values: Map<Seq<char>, Seq<char>>) -> bool
    decreases e,
{
    match e {
        Expr::Always => true,
        Expr::Symbol(s) => is_enabled(values, s),
        Expr::Literal(s) => is_on(s),
        Expr::Not(a) => !holds(*a, values),
        Expr::And(a, b) => holds(*a, values) && holds(*b, values),
        Expr::Or(a, b) => holds(*a, values) || holds(*b, values),
        Expr::Equal(a, b) => side_order(*a, *b, values) == Order::Equal,
        Expr::NotEqual(a, b) => side_order(*a, *b, values) != Order::Equal,
        Expr::Less(a, b) => side_order(*a, *b, values) == Order::Less,
        Expr::LessEq(a, b) => side_order(*a, *b, values) != Order::Greater,
        Expr::Greater(a, b) => side_order(*a, *b, values) == Order::Greater,
        Expr::GreaterEq(a, b) => side_order(*a, *b, values) != Order::Less,
    }
}

/// The value of the symbol `name`, with the symbols of `disabled` set to `n`.
fn resolve_symbol<'a>(name: &str, values: &'a NameMap<String>, disabled: &NameSet) -> (value: &'a str)
    ensures
        value@ == value_of(with_disabled(value_texts(values@), disabled@), name@),
{
    if disabled.contains(name) {
        "n"
    } else {
        match values.get(name) {
            Some(v) => v.as_str(),
            None => "n",
        }
    }
}

/// The text that stands for a side of a comparison.
fn resolve_str<'a>(expr: &'a ConfigExpr, values: &'a NameMap<String>, disabled: &NameSet) -> (text:
    &'a str)
    ensures
        text@ == side(expr@, with_disabled(value_texts(values@), disabled@)),
{
    match expr {
        ConfigExpr::Symbol(s) => resolve_symbol(s.as_str(), values, disabled),
        ConfigExpr::Literal(s) => s.as_str(),
        _ => "n",
    }
}

/// Compares two sides, as numbers if both parse as integers (decimal or 0x hex).
fn compare_values(
    a: &ConfigExpr,
    b: &ConfigExpr,
    values: &NameMap<String>,
    disabled: &NameSet,
) -> (order: Order)
    ensures
        order == side_order(a@, b@, with_disabled(value_texts(values@), disabled@)),
{
    let av = resolve_str(a, values, disabled);
    let bv = resolve_str(b, values, disabled);
    proof {
        reveal(value_order);
    }
    match (parse_int(av), parse_int(bv)) {
        (Some(x), Some(y)) => if x < y {
            Order::Less
        } else if x == y {
            Order::Equal
        } else {
            Order::Greater
        },
        _ => order_texts(av, bv),
    }
}

impl ConfigExpr {
    /// Whether this is the expression that is unconditionally true.
    pub fn is_always(&self) -> (yes: bool)
        ensures
            yes == (self@ == Expr::Always),
    {
        match self {
            ConfigExpr::Always => true,
            _ => false,
        }
    }

    /// Evaluates the expression; a symbol without a value counts as `n`.
    pub fn eval_bool(&self, values: &NameMap<String>) -> (truth: bool)
        ensures
            truth == holds(self@, value_texts(values@)),
    {
        let none = NameSet::new();
        assert(with_disabled(value_texts(values@), none@) =~= value_texts(values@));
        self.eval_with(values, &none)
    }

    /// Evaluates the expression with the symbols of `disabled` set to `n`.
    pub fn eval_with(&self, values: &NameMap<String>, disabled: &NameSet) -> (truth: bool)
        ensures
            truth == holds(self@, with_disabled(value_texts(values@), disabled@)),
        decreases self,
    {
        match self {
            ConfigExpr::Always => true,
            ConfigExpr::Symbol(s) => means_on(resolve_symbol(s.as_str(), values, disabled)),
            ConfigExpr::Literal(s) => means_on(s.as_str()),
            ConfigExpr::Not(a) => !a.eval_with(values, disabled),
            ConfigExpr::And(a, b) => a.eval_with(values, disabled) && b.eval_with(values, disabled),
            ConfigExpr::Or(a, b) => a.eval_with(values, disabled) || b.eval_with(values, disabled),
            ConfigExpr::Equal(a, b) => compare_values(a, b, values, disabled) == Order::Equal,
            ConfigExpr::NotEqual(a, b) => compare_values(a, b, values, disabled) != Order::Equal,
            ConfigExpr::Less(a, b) => compare_values(a, b, values, disabled) == Order::Less,
            ConfigExpr::LessEq(a, b) => compare_values(a, b, values, disabled) != Order::Greater,
            ConfigExpr::Greater(a, b) => compare_values(a, b, values, disabled) == Order::Greater,
            ConfigExpr::GreaterEq(a, b) => compare_values(a, b, values, disabled) != Order::Less,
        }
    }
}

// ── Laws ──────────────────────────────────────────────────────────────────────

/// Whether two configurations give the symbols of `names` the same values.
pub open spec fn agree_on(
    v: Map<Seq<char>, Seq<char>>,
    w: Map<Seq<char>, Seq<char>>,
    names: Set<Seq<char>>,
) -> bool {
    forall|s: Seq<char>| names.contains(s) ==> #[trigger] value_of(v, s) == value_of(w, s)
}

/// An expression depends on the values of the symbols that it mentions, and on nothing else.
pub proof fn lemma_holds_by_symbols(
    e: Expr,
    v: Map<Seq<char>, Seq<char>>,
    w: Map<Seq<char>, Seq<char>>,
)
    requires
        agree_on(v, w, symbols_of(e)),
    ensures
        holds(e, v) == holds(e, w),
        side(e, v) == side(e, w),
    decreases e,
{
    match e {
        Expr::Symbol(s) => {
            assert(symbols_of(e).contains(s));
            assert(value_of(v, s) == value_of(w, s));
        },
        Expr::Literal(_) => {},
        Expr::Always => {},
        Expr::Not(a) => lemma_holds_by_symbols(*a, v, w),
        Expr::And(a, b) => {
            lemma_holds_by_symbols(*a, v, w);
            lemma_holds_by_symbols(*b, v, w);
        },
        Expr::Or(a, b) => {
            lemma_holds_by_symbols(*a, v, w);
            lemma_holds_by_symbols(*b, v, w);
        },
        Expr::Equal(a, b) => {
            lemma_holds_by_symbols(*a, v, w);
            lemma_holds_by_symbols(*b, v, w);
        },
        Expr::NotEqual(a, b) => {
            lemma_holds_by_symbols(*a, v, w);
            lemma_holds_by_symbols(*b, v, w);
        },
        Expr::Less(a, b) => {
            lemma_holds_by_symbols(*a, v, w);
            lemma_holds_by_symbols(*b, v, w);
        },
        Expr::LessEq(a, b) => {
            lemma_holds_by_symbols(*a, v, w);
            lemma_holds_by_symbols(*b, v, w);
        },
        Expr::Greater(a, b) => {
            lemma_holds_by_symbols(*a, v, w);
            lemma_holds_by_symbols(*b, v, w);
        },
        Expr::GreaterEq(a, b) => {
            lemma_holds_by_symbols(*a, v, w);
            lemma_holds_by_symbols(*b, v, w);
        },
    }
}

/// Each comparison is the denial of its opposite.
pub proof fn lemma_comparisons_opposed(a: Expr, b: Expr, v: Map<Seq<char>, Seq<char>>)
    ensures
        holds(Expr::Equal(Box::new(a), Box::new(b)), v) == !holds(
            Expr::NotEqual(Box::new(a), Box::new(b)),
            v,
        ),
        holds(Expr::Less(Box::new(a), Box::new(b)), v) == !holds(
            Expr::GreaterEq(Box::new(a), Box::new(b)),
            v,
        ),
        holds(Expr::Greater(Box::new(a), Box::new(b)), v) == !holds(
            Expr::LessEq(Box::new(a), Box::new(b)),
            v,
        ),
{
}

/// A symbol is enabled just where it has a value and the value is `y` or `m`.
pub proof fn lemma_enabled_is_y_or_m(values: Map<Seq<char>, Seq<char>>, s: Seq<char>)
    ensures
        is_enabled(values, s) <==> values.contains_key(s) && (values[s] == "y"@ || values[s]
            == "m"@),
{
    reveal_strlit("n");
    reveal_strlit("y");
    reveal_strlit("m");
    assert("n"@[0] != "y"@[0] && "n"@[0] != "m"@[0]);
}

/// What an expression comes to follows from what its parts come to.
pub proof fn lemma_truth_of_parts(a: Expr, b: Expr, v: Map<Seq<char>, Seq<char>>)
    ensures
        holds(Expr::Always, v),
        holds(Expr::Not(Box::new(a)), v) <==> !holds(a, v),
        holds(Expr::And(Box::new(a), Box::new(b)), v) <==> holds(a, v) && holds(b, v),
        holds(Expr::Or(Box::new(a), Box::new(b)), v) <==> holds(a, v) || holds(b, v),
{
}

/// A symbol holds just where its value is `y` or `m`, a literal just where it is one of these.
pub proof fn lemma_truth_of_names(s: Seq<char>, v: Map<Seq<char>, Seq<char>>)
    ensures
        holds(Expr::Symbol(s), v) <==> v.contains_key(s) && (v[s] == "y"@ || v[s] == "m"@),
        holds(Expr::Literal(s), v) <==> s == "y"@ || s == "m"@,
{
    lemma_enabled_is_y_or_m(v, s);
}

/// What a symbol or a literal stands for in a comparison: its value, which is `n` where it has none,
/// or itself.
pub open spec fn stands_for(e: Expr, v: Map<Seq<char>, Seq<char>>, text: Seq<char>) -> bool {
    match e {
        Expr::Symbol(s) => if v.contains_key(s) {
            text == v[s]
        } else {
            text == "n"@
        },
        Expr::Literal(s) => text == s,
        _ => false,
    }
}

proof fn lemma_sides(
    a: Expr,
    b: Expr,
    v: Map<Seq<char>, Seq<char>>,
    x: Seq<char>,
    y: Seq<char>,
)
    requires
        stands_for(a, v, x),
        stands_for(b, v, y),
    ensures
        side_order(a, b, v) == value_order(x, y),
{
    assert(side(a, v) == x);
    assert(side(b, v) == y);
}

proof fn lemma_value_order(x: Seq<char>, y: Seq<char>)
    ensures
        integer(x) is Some && integer(y) is Some ==> {
            &&& value_order(x, y) == Order::Less <==> integer(x)->0 < integer(y)->0
            &&& value_order(x, y) == Order::Equal <==> integer(x)->0 == integer(y)->0
            &&& value_order(x, y) == Order::Greater <==> integer(x)->0 > integer(y)->0
        },
        integer(x) is None || integer(y) is None ==> {
            &&& value_order(x, y) == Order::Less <==> precedes(x, y)
            &&& value_order(x, y) == Order::Equal <==> x == y
            &&& value_order(x, y) == Order::Greater <==> precedes(y, x)
        },
{
    reveal(value_order);
    lemma_order_total(x, y);
    lemma_order_total(y, x);
}

/// Two sides that are integers are compared as integers.
pub proof fn lemma_comparing_integers(
    a: Expr,
    b: Expr,
    v: Map<Seq<char>, Seq<char>>,
    x: Seq<char>,
    y: Seq<char>,
)
    requires
        stands_for(a, v, x),
        stands_for(b, v, y),
        integer(x) is Some,
        integer(y) is Some,
    ensures
        holds(Expr::Equal(Box::new(a), Box::new(b)), v) <==> integer(x)->0 == integer(y)->0,
        holds(Expr::Less(Box::new(a), Box::new(b)), v) <==> integer(x)->0 < integer(y)->0,
        holds(Expr::Greater(Box::new(a), Box::new(b)), v) <==> integer(x)->0 > integer(y)->0,
        holds(Expr::NotEqual(Box::new(a), Box::new(b)), v) <==> integer(x)->0 != integer(y)->0,
        holds(Expr::LessEq(Box::new(a), Box::new(b)), v) <==> integer(x)->0 <= integer(y)->0,
        holds(Expr::GreaterEq(Box::new(a), Box::new(b)), v) <==> integer(x)->0 >= integer(y)->0,
{
    lemma_value_order(x, y);
    lemma_sides(a, b, v, x, y);
}

/// Two sides that are not both integers are equal just where their texts are, and else stand in the
/// order of their texts.
pub proof fn lemma_comparing_texts(
    a: Expr,
    b: Expr,
    v: Map<Seq<char>, Seq<char>>,
    x: Seq<char>,
    y: Seq<char>,
)
    requires
        stands_for(a, v, x),
        stands_for(b, v, y),
        integer(x) is None || integer(y) is None,
    ensures
        holds(Expr::Equal(Box::new(a), Box::new(b)), v) <==> x == y,
        holds(Expr::NotEqual(Box::new(a), Box::new(b)), v) <==> x != y,
        holds(Expr::Less(Box::new(a), Box::new(b)), v) <==> precedes(x, y),
        holds(Expr::Greater(Box::new(a), Box::new(b)), v) <==> precedes(y, x),
{
    lemma_value_order(x, y);
    lemma_sides(a, b, v, x, y);
}

/// An expression mentions the symbols that its parts mention.
pub proof fn lemma_symbols_of_parts(a: Expr, b: Expr, s: Seq<char>, n: Seq<char>)
    ensures
        symbols_of(Expr::Symbol(s)).contains(n) <==> n == s,
        !symbols_of(Expr::Literal(s)).contains(n),
        !symbols_of(Expr::Always).contains(n),
        symbols_of(Expr::Not(Box::new(a))).contains(n) <==> symbols_of(a).contains(n),
        symbols_of(Expr::And(Box::new(a), Box::new(b))).contains(n) <==> symbols_of(a).contains(n)
            || symbols_of(b).contains(n),
        symbols_of(Expr::Or(Box::new(a), Box::new(b))).contains(n) <==> symbols_of(a).contains(n)
            || symbols_of(b).contains(n),
        symbols_of(Expr::Equal(Box::new(a), Box::new(b))).contains(n) <==> symbols_of(a).contains(n)
            || symbols_of(b).contains(n),
        symbols_of(Expr::NotEqual(Box::new(a), Box::new(b))).contains(n) <==> symbols_of(
            a,
        ).contains(n) || symbols_of(b).contains(n),
        symbols_of(Expr::Less(Box::new(a), Box::new(b))).contains(n) <==> symbols_of(a).contains(n)
            || symbols_of(b).contains(n),
        symbols_of(Expr::LessEq(Box::new(a), Box::new(b))).contains(n) <==> symbols_of(a).contains(
            n,
        ) || symbols_of(b).contains(n),
        symbols_of(Expr::Greater(Box::new(a), Box::new(b))).contains(n) <==> symbols_of(a).contains(
            n,
        ) || symbols_of(b).contains(n),
        symbols_of(Expr::GreaterEq(Box::new(a), Box::new(b))).contains(n) <==> symbols_of(
            a,
        ).contains(n) || symbols_of(b).contains(n),
{
}

/// In a comparison, a side that is neither a symbol nor a literal counts as `n`.
pub proof fn lemma_compound_sides(a: Expr, b: Expr, c: Expr, v: Map<Seq<char>, Seq<char>>)
    ensures
        ({
            let n = Expr::Literal("n"@);
            let both = Expr::And(Box::new(a), Box::new(b));
            let either = Expr::Or(Box::new(a), Box::new(b));
            let neither = Expr::Not(Box::new(a));
            &&& side_order(both, c, v) == side_order(n, c, v)
            &&& side_order(either, c, v) == side_order(n, c, v)
            &&& side_order(neither, c, v) == side_order(n, c, v)
            &&& side_order(Expr::Always, c, v) == side_order(n, c, v)
        }),
{
}

} // verus!
