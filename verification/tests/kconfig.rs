use kminimize::kconfig::expr::ConfigExpr;
use kminimize::kconfig::graph::{KconfigGraph, Symbol, SymbolKind};
use kminimize::kconfig::lines::{bare_name, find_if_keyword, join_continuations, split_select};
use kminimize::kconfig::loader::{KconfigLoader, Request};
use kminimize::kconfig::parse::{parse_expr, parse_tokens};
use kminimize::kconfig::token::{classify_word, tokenize_expr, Token};
use kminimize::names::{NameMap, NameSet};

fn vals(pairs: &[(&str, &str)]) -> NameMap<String> {
    let mut map = NameMap::new();
    for (k, v) in pairs {
        map.insert((*k).to_owned(), (*v).to_owned());
    }
    map
}

fn names(list: &[&str]) -> NameSet {
    let mut set = NameSet::new();
    for n in list {
        set.insert((*n).to_owned());
    }
    set
}

fn graph_from(symbols: Vec<Symbol>) -> KconfigGraph {
    let mut map = NameMap::new();
    for s in symbols {
        map.insert(s.name.clone(), s);
    }
    KconfigGraph::for_test(map)
}

fn sym(name: &str, selects: Vec<(&str, ConfigExpr)>) -> Symbol {
    Symbol {
        name: name.to_owned(),
        kind: SymbolKind::Bool,
        depends_on: None,
        selects: selects.into_iter().map(|(t, c)| (t.to_owned(), c)).collect(),
        implies: vec![],
        choice_group: None,
    }
}

fn symbol(name: &str) -> ConfigExpr {
    ConfigExpr::Symbol(name.into())
}

fn literal(text: &str) -> ConfigExpr {
    ConfigExpr::Literal(text.into())
}

fn chars(s: &str) -> Vec<char> {
    s.chars().collect()
}

#[test]
fn eval_bool_symbol() {
    let v = vals(&[("FOO", "y"), ("BAR", "n")]);
    assert!(ConfigExpr::Symbol("FOO".into()).eval_bool(&v));
    assert!(!ConfigExpr::Symbol("BAR".into()).eval_bool(&v));
    assert!(!ConfigExpr::Symbol("MISSING".into()).eval_bool(&v));
}

#[test]
fn eval_bool_and() {
    let v = vals(&[("A", "y"), ("B", "m"), ("C", "n")]);
    let e = ConfigExpr::And(
        Box::new(ConfigExpr::Symbol("A".into())),
        Box::new(ConfigExpr::Symbol("B".into())),
    );
    assert!(e.eval_bool(&v));
    let e2 = ConfigExpr::And(
        Box::new(ConfigExpr::Symbol("A".into())),
        Box::new(ConfigExpr::Symbol("C".into())),
    );
    assert!(!e2.eval_bool(&v));
}

#[test]
fn eval_bool_always() {
    assert!(ConfigExpr::Always.eval_bool(&NameMap::new()));
}

#[test]
fn eval_bool_not() {
    let v = vals(&[("X", "y")]);
    assert!(!ConfigExpr::Not(Box::new(ConfigExpr::Symbol("X".into()))).eval_bool(&v));
    assert!(ConfigExpr::Not(Box::new(ConfigExpr::Symbol("Y".into()))).eval_bool(&v));
}

#[test]
fn eval_bool_comparison_numeric() {
    let v = vals(&[("VER", "5")]);
    let e = ConfigExpr::GreaterEq(
        Box::new(ConfigExpr::Symbol("VER".into())),
        Box::new(ConfigExpr::Literal("4".into())),
    );
    assert!(e.eval_bool(&v));
}

#[test]
fn comparisons_by_number_and_by_text() {
    let v = vals(&[("TEN", "10"), ("HEX", "0x1F"), ("NAME", "abc")]);
    assert!(parse_expr("TEN > 9").eval_bool(&v));
    assert!(!parse_expr("TEN > \"9x\"").eval_bool(&v));
    assert!(parse_expr("HEX = 31").eval_bool(&v));
    assert!(parse_expr("NAME < \"abd\"").eval_bool(&v));
    assert!(parse_expr("NAME != \"abd\"").eval_bool(&v));
    assert!(parse_expr("NAME <= \"abc\"").eval_bool(&v));
    assert!(!parse_expr("NAME >= \"abd\"").eval_bool(&v));
    assert!(parse_expr("MISSING = n").eval_bool(&v));
    // What is neither a symbol nor a literal counts as n.
    assert!(parse_expr("(A && B) = n").eval_bool(&v));
}

#[test]
fn literals_as_conditions() {
    let v = NameMap::new();
    assert!(parse_expr("y").eval_bool(&v));
    assert!(parse_expr("m").eval_bool(&v));
    assert!(!parse_expr("n").eval_bool(&v));
    assert!(!parse_expr("\"text\"").eval_bool(&v));
}

#[test]
fn an_expression_depends_on_its_symbols() {
    let e = parse_expr("(A || !B) && C = \"x\" && D <= 4 && y");
    assert_eq!(e.symbols().to_vec(), vec!["A", "B", "C", "D"]);
    let v = vals(&[("A", "y"), ("C", "x"), ("D", "3")]);
    let w = vals(&[("A", "y"), ("C", "x"), ("D", "3"), ("E", "y")]);
    assert!(e.eval_bool(&v));
    assert_eq!(e.eval_bool(&v), e.eval_bool(&w));
}

#[test]
fn opposite_comparisons() {
    for (a, b) in [("1", "2"), ("2", "2"), ("x", "a"), ("10", "9")] {
        let v = vals(&[("A", a), ("B", b)]);
        assert_ne!(parse_expr("A = B").eval_bool(&v), parse_expr("A != B").eval_bool(&v));
        assert_ne!(parse_expr("A < B").eval_bool(&v), parse_expr("A >= B").eval_bool(&v));
        assert_ne!(parse_expr("A > B").eval_bool(&v), parse_expr("A <= B").eval_bool(&v));
    }
}

#[test]
fn parse_expr_basic() {
    let e = parse_expr("FOO && BAR");
    assert_eq!(
        e,
        ConfigExpr::And(
            Box::new(ConfigExpr::Symbol("FOO".into())),
            Box::new(ConfigExpr::Symbol("BAR".into())),
        )
    );
}

#[test]
fn operators_bind_and_associate() {
    let and = |a, b| ConfigExpr::And(Box::new(a), Box::new(b));
    let or = |a, b| ConfigExpr::Or(Box::new(a), Box::new(b));
    let not = |a| ConfigExpr::Not(Box::new(a));
    assert_eq!(
        parse_expr("A || B && C"),
        or(symbol("A"), and(symbol("B"), symbol("C")))
    );
    assert_eq!(
        parse_expr("A || B || C"),
        or(or(symbol("A"), symbol("B")), symbol("C"))
    );
    assert_eq!(
        parse_expr("A -a B -o C"),
        or(and(symbol("A"), symbol("B")), symbol("C"))
    );
    assert_eq!(parse_expr("!(A || B) && !!C"), and(not(or(symbol("A"), symbol("B"))), not(not(symbol("C")))));
    assert_eq!(
        parse_expr("A=y&& B"),
        ConfigExpr::Equal(Box::new(symbol("A")), Box::new(symbol("Y&&")))
    );
}

#[test]
fn parsing_never_fails() {
    assert_eq!(parse_expr(""), ConfigExpr::Always);
    assert_eq!(parse_expr("   "), ConfigExpr::Always);
    assert_eq!(parse_expr(")"), ConfigExpr::Always);
    assert_eq!(parse_expr("(A"), symbol("A"));
    assert_eq!(parse_expr("A B"), symbol("A"));
    assert_eq!(parse_expr("\"open"), literal("open"));
    assert_eq!(
        parse_expr("A &&"),
        ConfigExpr::And(Box::new(symbol("A")), Box::new(ConfigExpr::Always))
    );
}

#[test]
fn words_in_upper_case() {
    assert_eq!(parse_expr("foo_bar2"), symbol("FOO_BAR2"));
    assert_eq!(parse_expr("straße"), symbol("STRASSE"));
    assert_eq!(parse_expr("3com"), literal("3com"));
    assert_eq!(classify_word(&chars("foo"), "FOO".to_owned()), Token::Sym("FOO".to_owned()));
    assert_eq!(classify_word(&chars("-a"), "-A".to_owned()), Token::And);
    assert_eq!(classify_word(&chars("||"), "||".to_owned()), Token::Or);
    assert_eq!(classify_word(&chars("m"), "M".to_owned()), Token::Lit("m".to_owned()));
    assert_eq!(classify_word(&[], "".to_owned()), Token::Lit("".to_owned()));
}

#[test]
fn tokens_of_every_kind() {
    let t = tokenize_expr(&chars("!A!=\"b c\"<=<>=>=(y)\t&&||"));
    assert_eq!(
        t,
        vec![
            Token::Not,
            Token::Sym("A".to_owned()),
            Token::NEq,
            Token::Lit("b c".to_owned()),
            Token::Le,
            Token::Lt,
            Token::Ge,
            Token::Ge,
            Token::LParen,
            Token::Lit("y".to_owned()),
            Token::RParen,
            Token::Sym("&&||".to_owned()),
        ]
    );
    assert_eq!(
        parse_tokens(&[Token::Sym("A".to_owned()), Token::Gt, Token::Lit("1".to_owned())]),
        ConfigExpr::Greater(Box::new(symbol("A")), Box::new(literal("1")))
    );
}

#[test]
fn disable_cascade_unconditional_only() {
    // FOO unconditionally selects TARGET; BAR selects TARGET with inactive condition
    let g = graph_from(vec![
        sym("FOO", vec![("TARGET", ConfigExpr::Always)]),
        sym("BAR", vec![("TARGET", ConfigExpr::Symbol("COND".into()))]),
        sym("TARGET", vec![]),
    ]);
    // COND is not in values: BAR's condition is inactive
    let cascade = g.disable_cascade("TARGET", &NameMap::new());
    assert!(cascade.contains("FOO"), "FOO must be in cascade (unconditional)");
    assert!(!cascade.contains("BAR"), "BAR's condition is inactive, must not cascade");
}

#[test]
fn disable_cascade_conditional_active() {
    // BAR selects TARGET if COND; COND is currently y and BAR is enabled
    let g = graph_from(vec![
        sym("BAR", vec![("TARGET", ConfigExpr::Symbol("COND".into()))]),
        sym("TARGET", vec![]),
    ]);
    let v = vals(&[("COND", "y"), ("BAR", "y")]);
    let cascade = g.disable_cascade("TARGET", &v);
    assert!(cascade.contains("BAR"), "BAR must appear: conditional select is active");
}

#[test]
fn disable_cascade_conditional_inactive() {
    // Same setup but COND is n: BAR's select is dormant
    let g = graph_from(vec![
        sym("BAR", vec![("TARGET", ConfigExpr::Symbol("COND".into()))]),
        sym("TARGET", vec![]),
    ]);
    let v = vals(&[("COND", "n"), ("BAR", "y")]);
    let cascade = g.disable_cascade("TARGET", &v);
    assert!(!cascade.contains("BAR"), "BAR must NOT appear: conditional select is inactive");
}

#[test]
fn classify_cascade_splits_correctly() {
    let g = graph_from(vec![
        sym("UNCOND", vec![("TARGET", ConfigExpr::Always)]),
        sym("ACTIVE", vec![("TARGET", ConfigExpr::Symbol("COND".into()))]),
        sym("TARGET", vec![]),
    ]);
    let v = vals(&[("COND", "y"), ("UNCOND", "y"), ("ACTIVE", "y")]);
    let cascade = g.disable_cascade("TARGET", &v);
    let (uncond, active) = g.classify_cascade("TARGET", &cascade, &v);
    assert!(uncond.contains("UNCOND"));
    assert!(!uncond.contains("ACTIVE"));
    assert!(active.contains("ACTIVE"));
    assert!(!active.contains("UNCOND"));
}

#[test]
fn a_selector_of_both_kinds_is_in_both_parts() {
    let g = graph_from(vec![
        sym("S", vec![("T", ConfigExpr::Always), ("T", symbol("COND")), ("U", ConfigExpr::Always)]),
        sym("T", vec![]),
    ]);
    let v = vals(&[("COND", "y"), ("S", "y")]);
    let (uncond, active) = g.classify_cascade("T", &names(&["S", "T", "X"]), &v);
    assert_eq!(uncond.to_vec(), vec!["S"]);
    assert_eq!(active.to_vec(), vec!["S"]);
}

#[test]
fn validate_disabled_detects_unconditional_conflict() {
    let g = graph_from(vec![
        sym("ENABLED_SYM", vec![("FOO", ConfigExpr::Always)]),
        sym("FOO", vec![]),
    ]);
    let disabled = names(&["FOO"]);
    // ENABLED_SYM is enabled (y) and not in disabled: conflict
    let v = vals(&[("ENABLED_SYM", "y")]);
    let conflicts = g.validate_disabled(&disabled, &v);
    assert!(conflicts.contains("FOO"));
}

#[test]
fn validate_disabled_detects_conditional_conflict() {
    // BAR selects FOO if COND; COND is active: conflict
    let g = graph_from(vec![
        sym("BAR", vec![("FOO", ConfigExpr::Symbol("COND".into()))]),
        sym("FOO", vec![]),
    ]);
    let disabled = names(&["FOO"]);
    let v = vals(&[("BAR", "y"), ("COND", "y")]);
    let conflicts = g.validate_disabled(&disabled, &v);
    assert!(conflicts.contains("FOO"));
}

#[test]
fn validate_disabled_no_conflict_when_selector_also_disabled() {
    let g = graph_from(vec![
        sym("BAR", vec![("FOO", ConfigExpr::Always)]),
        sym("FOO", vec![]),
    ]);
    let disabled = names(&["FOO", "BAR"]);
    let v = vals(&[("BAR", "y")]);
    let conflicts = g.validate_disabled(&disabled, &v);
    assert!(conflicts.is_empty());
}

#[test]
fn validate_disabled_no_conflict_when_selector_disabled_in_config() {
    // BAR unconditionally selects FOO, but BAR itself is disabled (n): no conflict
    let g = graph_from(vec![
        sym("BAR", vec![("FOO", ConfigExpr::Always)]),
        sym("FOO", vec![]),
    ]);
    let disabled = names(&["FOO"]);
    let v = vals(&[("BAR", "n")]);
    let conflicts = g.validate_disabled(&disabled, &v);
    assert!(conflicts.is_empty());
}

#[test]
fn a_cascade_leaves_no_conflict_and_not_its_start() {
    let g = graph_from(vec![
        sym("A", vec![("B", ConfigExpr::Always)]),
        sym("B", vec![("C", symbol("COND"))]),
        sym("C", vec![("A", ConfigExpr::Always)]),
        sym("COND", vec![]),
    ]);
    let v = vals(&[("A", "y"), ("B", "m"), ("C", "y"), ("COND", "y")]);
    let mut disabled = g.disable_cascade("C", &v);
    assert_eq!(disabled.to_vec(), vec!["A", "B"]);
    disabled.insert("C".to_owned());
    assert!(g.validate_disabled(&disabled, &v).is_empty());
}

fn depending(name: &str, on: &str) -> Symbol {
    let mut s = sym(name, vec![]);
    s.depends_on = Some(parse_expr(on));
    s
}

#[test]
fn dependents_fall_in_rounds() {
    let g = graph_from(vec![
        sym("A", vec![]),
        depending("B", "A"),
        depending("C", "B && X"),
        depending("D", "A || X"),
        depending("OFF", "A"),
        depending("E", "!A"),
    ]);
    let v = vals(&[("A", "y"), ("B", "y"), ("C", "m"), ("D", "y"), ("X", "y"), ("E", "y")]);
    let fallen = g.transitive_depends_disabled(&names(&["A"]), &v);
    assert_eq!(fallen.to_vec(), vec!["B", "C"]);
    assert!(g.transitive_depends_disabled(&names(&[]), &v).is_empty());
}

#[test]
fn what_stays_keeps_what_it_depends_on() {
    let g = graph_from(vec![depending("B", "A"), depending("C", "!B"), depending("D", "A || Y")]);
    let v = vals(&[("A", "y"), ("B", "y"), ("C", "y"), ("D", "y"), ("Y", "y")]);
    let mut off = names(&["A"]);
    off.insert_all(&g.transitive_depends_disabled(&off, &v));
    assert_eq!(off.to_vec(), vec!["A", "B"]);
    assert!(g.symbol("D").unwrap().depends_on.as_ref().unwrap().eval_with(&v, &off));
}

#[test]
fn symbols_are_found_by_name() {
    let g = graph_from(vec![sym("A", vec![])]);
    assert_eq!(g.symbol("A").unwrap().name, "A");
    assert!(g.symbol("B").is_none());
}

// ── Lines ─────────────────────────────────────────────────────────────────────

fn joined(text: &str) -> Vec<String> {
    join_continuations(text).iter().map(|l| l.iter().collect()).collect()
}

#[test]
fn continued_lines() {
    assert_eq!(joined("a\\\nb\nc"), vec!["a b", "c"]);
    assert_eq!(joined("a\\\n\\\nb\n"), vec!["a  b"]);
    assert_eq!(joined("a\\"), vec!["a "]);
    assert_eq!(joined("\n\nx\r\n"), vec!["", "", "x"]);
    assert!(joined("").is_empty());
}

#[test]
fn the_separator_of_selects() {
    assert_eq!(find_if_keyword(&chars("FOO if BAR")), Some(3));
    assert_eq!(find_if_keyword(&chars("FOO\tif BAR")), Some(3));
    assert_eq!(find_if_keyword(&chars("(A if B) if C")), Some(8));
    assert_eq!(find_if_keyword(&chars("A) if C")), Some(2));
    assert_eq!(find_if_keyword(&chars("FOO iff BAR")), None);
    assert_eq!(find_if_keyword(&chars("FOO if")), None);
    let (target, cond) = split_select(&chars("select foo if BAR && y")).unwrap();
    assert_eq!(target, "foo");
    assert_eq!(cond, parse_expr("BAR && y"));
    assert!(split_select(&chars("select")).is_none());
    assert!(split_select(&chars("select  ")).is_none());
}

#[test]
fn prefixes_of_declared_names() {
    assert_eq!(bare_name("CONFIG_FOO"), "FOO");
    assert_eq!(bare_name("FOO"), "FOO");
}

// ── Loading ───────────────────────────────────────────────────────────────────

/// Loads a tree of files given by name.
fn load(files: &[(&str, &str)], asked: &mut Vec<(usize, bool, String)>) -> KconfigGraph {
    let mut loader = KconfigLoader::new();
    let mut entered: Vec<String> = vec!["Kconfig".to_owned()];
    assert!(loader.begin_file("Kconfig"));
    loader.push_file(0, files.iter().find(|f| f.0 == "Kconfig").unwrap().1);
    loop {
        match loader.advance() {
            Request::Done => break,
            Request::Include { from, relative, raw } => {
                asked.push((from, relative, raw.clone()));
                if let Some((name, text)) = files.iter().find(|f| f.0 == raw) {
                    if loader.begin_file(name) {
                        entered.push((*name).to_owned());
                        loader.push_file(entered.len() - 1, text);
                    }
                }
            }
        }
    }
    KconfigGraph::load(loader)
}

fn load_one(text: &str) -> KconfigGraph {
    load(&[("Kconfig", text)], &mut Vec::new())
}

#[test]
fn declarations() {
    let g = load_one(
        "# a comment\nconfig foo\n\ttristate \"Foo\"\n\tdepends on BAR\n\tdepends on !BAZ\n\
         \tselect crc if X\n\tselect LIB\n\timply HELP if Y\n\nmenuconfig CONFIG_NUM\n\tint \"n\"\n",
    );
    let foo = g.symbol("FOO").unwrap();
    assert_eq!(foo.kind, SymbolKind::Tristate);
    assert_eq!(
        foo.depends_on,
        Some(ConfigExpr::And(
            Box::new(symbol("BAR")),
            Box::new(ConfigExpr::Not(Box::new(symbol("BAZ"))))
        ))
    );
    assert_eq!(
        foo.selects,
        vec![("CRC".to_owned(), symbol("X")), ("LIB".to_owned(), ConfigExpr::Always)]
    );
    assert_eq!(foo.implies, vec![("HELP".to_owned(), symbol("Y"))]);
    assert_eq!(foo.choice_group, None);
    assert_eq!(g.symbol("NUM").unwrap().kind, SymbolKind::Int);
    assert_eq!(g.symbol("NUM").unwrap().depends_on, None);
}

#[test]
fn every_type() {
    let g = load_one("config A\nbool\nconfig B\nhex\nconfig C\nstring \"s\"\nconfig D\n");
    assert_eq!(g.symbol("A").unwrap().kind, SymbolKind::Bool);
    assert_eq!(g.symbol("B").unwrap().kind, SymbolKind::Hex);
    assert_eq!(g.symbol("C").unwrap().kind, SymbolKind::String);
    assert_eq!(g.symbol("D").unwrap().kind, SymbolKind::Bool);
}

#[test]
fn blocks_of_conditions() {
    let g = load_one(
        "if A\nconfig X\n\tdepends on D\nif B\nconfig Y\nendif\nconfig Z\nendif\nconfig W\nendif\n",
    );
    let and = |a, b| ConfigExpr::And(Box::new(a), Box::new(b));
    // The conditions around the symbol are counted once for the symbol and once for its own.
    assert_eq!(
        g.symbol("X").unwrap().depends_on,
        Some(and(symbol("A"), and(symbol("A"), symbol("D"))))
    );
    assert_eq!(g.symbol("Y").unwrap().depends_on, Some(and(symbol("A"), symbol("B"))));
    assert_eq!(g.symbol("Z").unwrap().depends_on, Some(symbol("A")));
    assert_eq!(g.symbol("W").unwrap().depends_on, None);
}

#[test]
fn choices() {
    let g = load_one(
        "config FIRST\nchoice\n\tprompt \"Pick one\"\nconfig A\nendchoice\nconfig B\n\
         choice\nconfig C\nchoice\nconfig D\nendchoice\nconfig E\nendchoice\nconfig F\n",
    );
    assert_eq!(g.symbol("A").unwrap().choice_group.as_deref(), Some("Pick one"));
    assert_eq!(g.symbol("B").unwrap().choice_group, None);
    assert_eq!(g.symbol("C").unwrap().choice_group.as_deref(), Some("choice_3"));
    assert_eq!(g.symbol("D").unwrap().choice_group.as_deref(), Some("choice_4"));
    assert_eq!(g.symbol("E").unwrap().choice_group.as_deref(), Some("choice_4"));
    assert_eq!(g.symbol("F").unwrap().choice_group, None);
}

#[test]
fn dividers_end_a_declaration() {
    let g = load_one("config A\nmenu \"m\"\n\tselect X\nendmenu\nconfig B\ncomment \"c\"\n\tint\n");
    assert!(g.symbol("A").unwrap().selects.is_empty());
    assert_eq!(g.symbol("B").unwrap().kind, SymbolKind::Bool);
}

#[test]
fn files_are_brought_in_once_and_under_their_conditions() {
    let mut asked = Vec::new();
    let g = load(
        &[
            ("Kconfig", "if ARCH\nsource \"sub/Kconfig\"\nendif\nsource \"sub/Kconfig\"\nrsource \"gone\"\nconfig LAST\n"),
            ("sub/Kconfig", "config INNER\n\tbool\nosource \"deep\"\n"),
            ("deep", "config DEEP\n"),
        ],
        &mut asked,
    );
    assert_eq!(
        asked,
        vec![
            (0, false, "sub/Kconfig".to_owned()),
            (1, false, "deep".to_owned()),
            (0, false, "sub/Kconfig".to_owned()),
            (0, true, "gone".to_owned()),
        ]
    );
    assert_eq!(g.symbol("INNER").unwrap().depends_on, Some(symbol("ARCH")));
    assert_eq!(g.symbol("DEEP").unwrap().depends_on, Some(symbol("ARCH")));
    assert_eq!(g.symbol("LAST").unwrap().depends_on, None);
}

#[test]
fn a_file_is_entered_once() {
    let mut loader = KconfigLoader::new();
    assert!(loader.begin_file("a"));
    assert!(!loader.begin_file("a"));
    assert!(loader.begin_file("b"));
    assert!(matches!(loader.advance(), Request::Done));
}
