//! Parsing Kconfig expressions.
//!
//! From the loosest to the tightest: `||`, `&&`, comparisons, `!`, and parentheses. Parsing never
//! fails: what is missing counts as unconditionally true, and what follows a complete expression
//! is not read.
use crate::kconfig::expr::{ConfigExpr, Expr};
use crate::kconfig::token::{tok_views, tokenize_expr, tokens, Tok, Token};
use crate::text::chars_of;
use vstd::prelude::*;

verus! {

// ── The grammar ───────────────────────────────────────────────────────────────
//
// Each function gives the expression that starts at position `p` and the position behind it. A
// position behind an expression is never in front of it; the conditions on positions below say
// this, so that the definitions are well-founded.

/// Alternatives, joined from the left.
pub open spec fn or_at(t: Seq<Tok>, p: int) -> (Expr, int)
    decreases t.len() - p, 6int,
{
    let (a, q) = and_at(t, p);
    if p <= q <= t.len() {
        or_more(t, a, q)
    } else {
        (a, q)
    }
}

/// `left` and the alternatives that follow it.
pub open spec fn or_more(t: Seq<Tok>, left: Expr, p: int) -> (Expr, int)
    decreases t.len() - p, 5int,
{
    if 0 <= p < t.len() && t[p] == Tok::Or {
        let (b, q) = and_at(t, p + 1);
        let both = Expr::Or(Box::new(left), Box::new(b));
        if p < q <= t.len() {
            or_more(t, both, q)
        } else {
            (both, q)
        }
    } else {
        (left, p)
    }
}

/// Conjuncts, joined from the left.
pub open spec fn and_at(t: Seq<Tok>, p: int) -> (Expr, int)
    decreases t.len() - p, 4int,
{
    let (a, q) = comparison_at(t, p);
    if p <= q <= t.len() {
        and_more(t, a, q)
    } else {
        (a, q)
    }
}

/// `left` and the conjuncts that follow it.
pub open spec fn and_more(t: Seq<Tok>, left: Expr, p: int) -> (Expr, int)
    decreases t.len() - p, 3int,
{
    if 0 <= p < t.len() && t[p] == Tok::And {
        let (b, q) = comparison_at(t, p + 1);
        let both = Expr::And(Box::new(left), Box::new(b));
        if p < q <= t.len() {
            and_more(t, both, q)
        } else {
            (both, q)
        }
    } else {
        (left, p)
    }
}

/// Whether a token is the sign of a comparison.
pub open spec fn is_sign(t: Tok) -> bool {
    t == Tok::Eq || t == Tok::NEq || t == Tok::Lt || t == Tok::Le || t == Tok::Gt || t == Tok::Ge
}

/// The comparison that a sign stands for.
pub open spec fn comparison(sign: Tok, a: Expr, b: Expr) -> Expr {
    match sign {
        Tok::Eq => Expr::Equal(Box::new(a), Box::new(b)),
        Tok::NEq => Expr::NotEqual(Box::new(a), Box::new(b)),
        Tok::Lt => Expr::Less(Box::new(a), Box::new(b)),
        Tok::Le => Expr::LessEq(Box::new(a), Box::new(b)),
        Tok::Gt => Expr::Greater(Box::new(a), Box::new(b)),
        _ => Expr::GreaterEq(Box::new(a), Box::new(b)),
    }
}

/// One operand, or two with a sign between them.
pub open spec fn comparison_at(t: Seq<Tok>, p: int) -> (Expr, int)
    decreases t.len() - p, 2int,
{
    let (a, q) = unary_at(t, p);
    if p <= q < t.len() && is_sign(t[q]) {
        let (b, r) = unary_at(t, q + 1);
        (comparison(t[q], a, b), r)
    } else {
        (a, q)
    }
}

/// An operand behind any number of `!`.
pub open spec fn unary_at(t: Seq<Tok>, p: int) -> (Expr, int)
    decreases t.len() - p, 1int,
{
    if 0 <= p < t.len() && t[p] == Tok::Not {
        let (a, q) = unary_at(t, p + 1);
        (Expr::Not(Box::new(a)), q)
    } else {
        primary_at(t, p)
    }
}

/// A symbol, a literal, or an expression in parentheses, of which the closing one may be missing.
pub open spec fn primary_at(t: Seq<Tok>, p: int) -> (Expr, int)
    decreases t.len() - p, 0int,
{
    if 0 <= p < t.len() {
        match t[p] {
            Tok::LParen => {
                let (e, q) = or_at(t, p + 1);
                if 0 <= q < t.len() && t[q] == Tok::RParen {
                    (e, q + 1)
                } else {
                    (e, q)
                }
            },
            Tok::Sym(s) => (Expr::Symbol(s), p + 1),
            Tok::Lit(s) => (Expr::Literal(s), p + 1),
            _ => (Expr::Always, p),
        }
    } else {
        (Expr::Always, p)
    }
}

/// The expression that tokens stand for.
pub open spec fn tokens_expr(t: Seq<Tok>) -> Expr {
    or_at(t, 0).0
}

/// The expression that a text stands for.
pub open spec fn text_expr(s: Seq<char>) -> Expr {
    tokens_expr(tokens(s))
}

// ── The parser ────────────────────────────────────────────────────────────────

/// Parses an expression.
pub fn parse_expr(input: &str) -> (expr: ConfigExpr)
    ensures
        expr@ == text_expr(input@),
{
    parse_chars(chars_of(input).as_slice())
}

/// Parses an expression from characters.
pub fn parse_chars(input: &[char]) -> (expr: ConfigExpr)
    ensures
        expr@ == text_expr(input@),
{
    let tokens = tokenize_expr(input);
    parse_tokens(tokens.as_slice())
}

/// Parses an expression from its tokens.
pub fn parse_tokens(tokens: &[Token]) -> (expr: ConfigExpr)
    ensures
        expr@ == tokens_expr(tok_views(tokens@)),
{
    parse_or(tokens, 0).0
}

fn parse_or(tokens: &[Token], pos: usize) -> (r: (ConfigExpr, usize))
    requires
        pos <= tokens@.len(),
    ensures
        pos <= r.1 <= tokens@.len(),
        (r.0@, r.1 as int) == or_at(tok_views(tokens@), pos as int),
    decreases tokens@.len() - pos, 4int,
{
    let ghost t = tok_views(tokens@);
    let (mut left, mut at) = parse_and(tokens, pos);
    while at < tokens.len() && is_token_or(&tokens[at])
        invariant
            pos <= at <= tokens@.len(),
            t == tok_views(tokens@),
            or_more(t, left@, at as int) == or_at(t, pos as int),
        decreases tokens@.len() - at,
    {
        assert(t[at as int] == tokens@[at as int]@);
        let (right, next) = parse_and(tokens, at + 1);
        left = ConfigExpr::Or(Box::new(left), Box::new(right));
        at = next;
    }
    assert(at < tokens@.len() ==> t[at as int] == tokens@[at as int]@);
    (left, at)
}

fn parse_and(tokens: &[Token], pos: usize) -> (r: (ConfigExpr, usize))
    requires
        pos <= tokens@.len(),
    ensures
        pos <= r.1 <= tokens@.len(),
        (r.0@, r.1 as int) == and_at(tok_views(tokens@), pos as int),
    decreases tokens@.len() - pos, 3int,
{
    let ghost t = tok_views(tokens@);
    let (mut left, mut at) = parse_comparison(tokens, pos);
    while at < tokens.len() && is_token_and(&tokens[at])
        invariant
            pos <= at <= tokens@.len(),
            t == tok_views(tokens@),
            and_more(t, left@, at as int) == and_at(t, pos as int),
        decreases tokens@.len() - at,
    {
        assert(t[at as int] == tokens@[at as int]@);
        let (right, next) = parse_comparison(tokens, at + 1);
        left = ConfigExpr::And(Box::new(left), Box::new(right));
        at = next;
    }
    assert(at < tokens@.len() ==> t[at as int] == tokens@[at as int]@);
    (left, at)
}

fn is_token_or(t: &Token) -> (yes: bool)
    ensures
        yes == (t@ == Tok::Or),
{
    match t {
        Token::Or => true,
        _ => false,
    }
}

fn is_token_and(t: &Token) -> (yes: bool)
    ensures
        yes == (t@ == Tok::And),
{
    match t {
        Token::And => true,
        _ => false,
    }
}

fn is_comparison_sign(t: &Token) -> (yes: bool)
    ensures
        yes == is_sign(t@),
{
    match t {
        Token::Eq => true,
        Token::NEq => true,
        Token::Lt => true,
        Token::Le => true,
        Token::Gt => true,
        Token::Ge => true,
        _ => false,
    }
}

fn parse_comparison(tokens: &[Token], pos: usize) -> (r: (ConfigExpr, usize))
    requires
        pos <= tokens@.len(),
    ensures
        pos <= r.1 <= tokens@.len(),
        (r.0@, r.1 as int) == comparison_at(tok_views(tokens@), pos as int),
    decreases tokens@.len() - pos, 2int,
{
    let ghost t = tok_views(tokens@);
    let (left, at) = parse_unary(tokens, pos);
    assert(at < tokens@.len() ==> t[at as int] == tokens@[at as int]@);
    if at >= tokens.len() || !is_comparison_sign(&tokens[at]) {
        return (left, at);
    }
    let (right, end) = parse_unary(tokens, at + 1);
    let expr = match &tokens[at] {
        Token::Eq => ConfigExpr::Equal(Box::new(left), Box::new(right)),
        Token::NEq => ConfigExpr::NotEqual(Box::new(left), Box::new(right)),
        Token::Lt => ConfigExpr::Less(Box::new(left), Box::new(right)),
        Token::Le => ConfigExpr::LessEq(Box::new(left), Box::new(right)),
        Token::Gt => ConfigExpr::Greater(Box::new(left), Box::new(right)),
        _ => ConfigExpr::GreaterEq(Box::new(left), Box::new(right)),
    };
    (expr, end)
}

fn parse_unary(tokens: &[Token], pos: usize) -> (r: (ConfigExpr, usize))
    requires
        pos <= tokens@.len(),
    ensures
        pos <= r.1 <= tokens@.len(),
        (r.0@, r.1 as int) == unary_at(tok_views(tokens@), pos as int),
    decreases tokens@.len() - pos, 1int,
{
    let ghost t = tok_views(tokens@);
    assert(pos < tokens@.len() ==> t[pos as int] == tokens@[pos as int]@);
    if pos < tokens.len() && is_token_not(&tokens[pos]) {
        let (inner, end) = parse_unary(tokens, pos + 1);
        return (ConfigExpr::Not(Box::new(inner)), end);
    }
    parse_primary(tokens, pos)
}

fn parse_primary(tokens: &[Token], pos: usize) -> (r: (ConfigExpr, usize))
    requires
        pos <= tokens@.len(),
    ensures
        pos <= r.1 <= tokens@.len(),
        (r.0@, r.1 as int) == primary_at(tok_views(tokens@), pos as int),
    decreases tokens@.len() - pos, 0int,
{
    let ghost t = tok_views(tokens@);
    assert(pos < tokens@.len() ==> t[pos as int] == tokens@[pos as int]@);
    if pos >= tokens.len() {
        return (ConfigExpr::Always, pos);
    }
    match &tokens[pos] {
        Token::LParen => {
            let (expr, end) = parse_or(tokens, pos + 1);
            assert(end < tokens@.len() ==> t[end as int] == tokens@[end as int]@);
            if end < tokens.len() && is_token_close(&tokens[end]) {
                (expr, end + 1)
            } else {
                (expr, end)
            }
        },
        Token::Sym(s) => (ConfigExpr::Symbol(s.clone()), pos + 1),
        Token::Lit(s) => (ConfigExpr::Literal(s.clone()), pos + 1),
        _ => (ConfigExpr::Always, pos),
    }
}

fn is_token_not(t: &Token) -> (yes: bool)
    ensures
        yes == (t@ == Tok::Not),
{
    match t {
        Token::Not => true,
        _ => false,
    }
}

fn is_token_close(t: &Token) -> (yes: bool)
    ensures
        yes == (t@ == Tok::RParen),
{
    match t {
        Token::RParen => true,
        _ => false,
    }
}

} // verus!
