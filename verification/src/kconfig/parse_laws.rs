//! Parsing undoes writing: what an expression was written as is read as that expression, and the
//! signs bind as they should.
use crate::kconfig::expr::Expr;
use crate::kconfig::parse::{
    and_at, and_more, comparison, comparison_at, is_sign, or_at, or_more, primary_at, tokens_expr,
    unary_at,
};
use crate::kconfig::token::{ends_word, lemma_word_len, tokens, word_token, Tok};
use crate::split::lemma_until_char;
use crate::text::uppercase;
use vstd::prelude::*;

verus! {

// ── Writing ───────────────────────────────────────────────────────────────────

/// Two expressions with a sign between them, in parentheses.
pub open spec fn bracketed(a: Seq<Tok>, sign: Tok, b: Seq<Tok>) -> Seq<Tok> {
    seq![Tok::LParen] + a + seq![sign] + b + seq![Tok::RParen]
}

/// An expression as it is written with parentheses around each of its parts.
pub open spec fn written(e: Expr) -> Seq<Tok>
    decreases e,
{
    match e {
        Expr::Symbol(s) => seq![Tok::Sym(s)],
        Expr::Literal(s) => seq![Tok::Lit(s)],
        Expr::Always => seq![],
        Expr::Not(a) => seq![Tok::LParen, Tok::Not] + written(*a) + seq![Tok::RParen],
        Expr::And(a, b) => bracketed(written(*a), Tok::And, written(*b)),
        Expr::Or(a, b) => bracketed(written(*a), Tok::Or, written(*b)),
        Expr::Equal(a, b) => bracketed(written(*a), Tok::Eq, written(*b)),
        Expr::NotEqual(a, b) => bracketed(written(*a), Tok::NEq, written(*b)),
        Expr::Less(a, b) => bracketed(written(*a), Tok::Lt, written(*b)),
        Expr::LessEq(a, b) => bracketed(written(*a), Tok::Le, written(*b)),
        Expr::Greater(a, b) => bracketed(written(*a), Tok::Gt, written(*b)),
        Expr::GreaterEq(a, b) => bracketed(written(*a), Tok::Ge, written(*b)),
    }
}

/// Whether an expression can be written: it has no part that is unconditionally true.
pub open spec fn can_be_written(e: Expr) -> bool
    decreases e,
{
    match e {
        Expr::Symbol(_) => true,
        Expr::Literal(_) => true,
        Expr::Always => false,
        Expr::Not(a) => can_be_written(*a),
        Expr::And(a, b) => can_be_written(*a) && can_be_written(*b),
        Expr::Or(a, b) => can_be_written(*a) && can_be_written(*b),
        Expr::Equal(a, b) => can_be_written(*a) && can_be_written(*b),
        Expr::NotEqual(a, b) => can_be_written(*a) && can_be_written(*b),
        Expr::Less(a, b) => can_be_written(*a) && can_be_written(*b),
        Expr::LessEq(a, b) => can_be_written(*a) && can_be_written(*b),
        Expr::Greater(a, b) => can_be_written(*a) && can_be_written(*b),
        Expr::GreaterEq(a, b) => can_be_written(*a) && can_be_written(*b),
    }
}

/// Whether the tokens `part` stand in `t` at `p`.
pub open spec fn stand_at(t: Seq<Tok>, p: int, part: Seq<Tok>) -> bool {
    0 <= p && p + part.len() <= t.len() && t.subrange(p, p + part.len()) == part
}

// ── Reading ───────────────────────────────────────────────────────────────────

/// What a comparison, a conjunction and an alternative come to where no sign that goes on with them
/// follows.
proof fn lemma_stops(t: Seq<Tok>, p: int, e: Expr, q: int)
    requires
        unary_at(t, p) == (e, q),
        p <= q <= t.len(),
    ensures
        (q < t.len() ==> !is_sign(t[q])) ==> comparison_at(t, p) == (e, q),
        (q < t.len() ==> !is_sign(t[q]) && t[q] != Tok::And) ==> and_at(t, p) == (e, q),
        (q < t.len() ==> !is_sign(t[q]) && t[q] != Tok::And && t[q] != Tok::Or) ==> or_at(t, p) == (
            e,
            q,
        ),
{
    if q < t.len() ==> !is_sign(t[q]) {
        assert(comparison_at(t, p) == (e, q));
        if q < t.len() ==> t[q] != Tok::And {
            assert(and_more(t, e, q) == (e, q));
            assert(and_at(t, p) == (e, q));
            if q < t.len() ==> t[q] != Tok::Or {
                assert(or_more(t, e, q) == (e, q));
            }
        }
    }
}

/// Two operands with `&&` between them are a conjunct, and end where the second ends.
proof fn lemma_and_read(t: Seq<Tok>, p: int, a: Expr, q: int, b: Expr, r: int)
    requires
        0 <= p <= q,
        q < r <= t.len(),
        comparison_at(t, p) == (a, q),
        t[q] == Tok::And,
        comparison_at(t, q + 1) == (b, r),
        r < t.len() ==> t[r] != Tok::And,
    ensures
        and_at(t, p) == (Expr::And(Box::new(a), Box::new(b)), r),
{
    let both = Expr::And(Box::new(a), Box::new(b));
    assert(and_more(t, both, r) == (both, r));
    assert(and_more(t, a, q) == and_more(t, both, r));
}

/// Two conjuncts with `||` between them are an alternative, and end where the second ends.
proof fn lemma_or_read(t: Seq<Tok>, p: int, a: Expr, q: int, b: Expr, r: int)
    requires
        0 <= p <= q,
        q < r <= t.len(),
        and_at(t, p) == (a, q),
        t[q] == Tok::Or,
        and_at(t, q + 1) == (b, r),
        r < t.len() ==> t[r] != Tok::Or,
    ensures
        or_at(t, p) == (Expr::Or(Box::new(a), Box::new(b)), r),
{
    let both = Expr::Or(Box::new(a), Box::new(b));
    assert(or_more(t, both, r) == (both, r));
    assert(or_more(t, a, q) == or_more(t, both, r));
}

proof fn lemma_bracket_places(t: Seq<Tok>, p: int, a: Seq<Tok>, sign: Tok, b: Seq<Tok>)
    requires
        stand_at(t, p, bracketed(a, sign, b)),
    ensures
        t[p] == Tok::LParen,
        stand_at(t, p + 1, a),
        t[p + 1 + a.len()] == sign,
        stand_at(t, p + 2 + a.len(), b),
        t[p + 2 + a.len() + b.len()] == Tok::RParen,
        bracketed(a, sign, b).len() == a.len() + b.len() + 3,
        p + a.len() + b.len() + 3 <= t.len(),
{
    let whole = bracketed(a, sign, b);
    let part = t.subrange(p, p + whole.len());
    assert(part == whole);
    assert(part[0] == t[p]);
    assert(part[1 + a.len() as int] == t[p + 1 + a.len()]);
    assert(part[2 + a.len() + b.len() as int] == t[p + 2 + a.len() + b.len()]);
    assert(t.subrange(p + 1, p + 1 + a.len()) =~= a) by {
        assert forall|i: int| 0 <= i < a.len() implies t.subrange(p + 1, p + 1 + a.len())[i]
            == a[i] by {
            assert(part[1 + i] == a[i]);
        }
    }
    assert(t.subrange(p + 2 + a.len(), p + 2 + a.len() + b.len()) =~= b) by {
        assert forall|i: int| 0 <= i < b.len() implies t.subrange(
            p + 2 + a.len(),
            p + 2 + a.len() + b.len(),
        )[i] == b[i] by {
            assert(part[2 + a.len() + i] == b[i]);
        }
    }
}

proof fn lemma_compared(t: Seq<Tok>, p: int, a: Expr, b: Expr, sign: Tok)
    requires
        is_sign(sign),
        stand_at(t, p, bracketed(written(a), sign, written(b))),
        unary_at(t, p + 1) == (a, p + 1 + written(a).len()),
        unary_at(t, p + 2 + written(a).len()) == (b, p + 2 + written(a).len() + written(b).len()),
    ensures
        primary_at(t, p) == (
            comparison(sign, a, b),
            p + bracketed(written(a), sign, written(b)).len(),
        ),
{
    lemma_bracket_places(t, p, written(a), sign, written(b));
    let q = p + 1 + written(a).len();
    let r = q + 1 + written(b).len();
    let e = comparison(sign, a, b);
    assert(comparison_at(t, p + 1) == (e, r));
    assert(and_more(t, e, r) == (e, r));
    assert(and_at(t, p + 1) == (e, r));
    assert(or_more(t, e, r) == (e, r));
    assert(or_at(t, p + 1) == (e, r));
}

/// An expression that stands in the tokens as it is written is read as that expression, and reading
/// ends where it ends.
pub proof fn lemma_written_reads_back(t: Seq<Tok>, p: int, e: Expr)
    requires
        can_be_written(e),
        stand_at(t, p, written(e)),
    ensures
        written(e).len() > 0,
        primary_at(t, p) == (e, p + written(e).len()),
        unary_at(t, p) == (e, p + written(e).len()),
    decreases e,
{
    match e {
        Expr::Symbol(s) => {
            assert(t.subrange(p, p + 1)[0] == t[p]);
        },
        Expr::Literal(s) => {
            assert(t.subrange(p, p + 1)[0] == t[p]);
        },
        Expr::Always => {},
        Expr::Not(a) => {
            let w = written(*a);
            let part = t.subrange(p, p + written(e).len());
            assert(part[0] == t[p] && part[1] == t[p + 1]);
            assert(part[2 + w.len() as int] == t[p + 2 + w.len()]);
            assert(t.subrange(p + 2, p + 2 + w.len()) =~= w) by {
                assert forall|i: int| 0 <= i < w.len() implies t.subrange(p + 2, p + 2 + w.len())[i]
                    == w[i] by {
                    assert(part[2 + i] == w[i]);
                }
            }
            lemma_written_reads_back(t, p + 2, *a);
            assert(unary_at(t, p + 1) == (e, p + 2 + w.len()));
            lemma_stops(t, p + 1, e, p + 2 + w.len());
        },
        Expr::And(a, b) => {
            lemma_bracket_places(t, p, written(*a), Tok::And, written(*b));
            let q = p + 1 + written(*a).len();
            let r = q + 1 + written(*b).len();
            lemma_written_reads_back(t, p + 1, *a);
            lemma_written_reads_back(t, q + 1, *b);
            lemma_stops(t, p + 1, *a, q);
            lemma_stops(t, q + 1, *b, r);
            lemma_and_read(t, p + 1, *a, q, *b, r);
            assert(or_more(t, e, r) == (e, r));
        },
        Expr::Or(a, b) => {
            lemma_bracket_places(t, p, written(*a), Tok::Or, written(*b));
            let q = p + 1 + written(*a).len();
            let r = q + 1 + written(*b).len();
            lemma_written_reads_back(t, p + 1, *a);
            lemma_written_reads_back(t, q + 1, *b);
            lemma_stops(t, p + 1, *a, q);
            lemma_stops(t, q + 1, *b, r);
            lemma_or_read(t, p + 1, *a, q, *b, r);
        },
        Expr::Equal(a, b) => {
            lemma_bracket_places(t, p, written(*a), Tok::Eq, written(*b));
            lemma_written_reads_back(t, p + 1, *a);
            lemma_written_reads_back(t, p + 2 + written(*a).len(), *b);
            lemma_compared(t, p, *a, *b, Tok::Eq);
        },
        Expr::NotEqual(a, b) => {
            lemma_bracket_places(t, p, written(*a), Tok::NEq, written(*b));
            lemma_written_reads_back(t, p + 1, *a);
            lemma_written_reads_back(t, p + 2 + written(*a).len(), *b);
            lemma_compared(t, p, *a, *b, Tok::NEq);
        },
        Expr::Less(a, b) => {
            lemma_bracket_places(t, p, written(*a), Tok::Lt, written(*b));
            lemma_written_reads_back(t, p + 1, *a);
            lemma_written_reads_back(t, p + 2 + written(*a).len(), *b);
            lemma_compared(t, p, *a, *b, Tok::Lt);
        },
        Expr::LessEq(a, b) => {
            lemma_bracket_places(t, p, written(*a), Tok::Le, written(*b));
            lemma_written_reads_back(t, p + 1, *a);
            lemma_written_reads_back(t, p + 2 + written(*a).len(), *b);
            lemma_compared(t, p, *a, *b, Tok::Le);
        },
        Expr::Greater(a, b) => {
            lemma_bracket_places(t, p, written(*a), Tok::Gt, written(*b));
            lemma_written_reads_back(t, p + 1, *a);
            lemma_written_reads_back(t, p + 2 + written(*a).len(), *b);
            lemma_compared(t, p, *a, *b, Tok::Gt);
        },
        Expr::GreaterEq(a, b) => {
            lemma_bracket_places(t, p, written(*a), Tok::Ge, written(*b));
            lemma_written_reads_back(t, p + 1, *a);
            lemma_written_reads_back(t, p + 2 + written(*a).len(), *b);
            lemma_compared(t, p, *a, *b, Tok::Ge);
        },
    }
    if t[p] == Tok::LParen {
        assert(unary_at(t, p) == primary_at(t, p));
    }
}

/// An expression as it is written, and nothing else, is read as that expression.
pub proof fn lemma_expression_reads_back(e: Expr)
    requires
        can_be_written(e),
    ensures
        tokens_expr(written(e)) == e,
{
    let t = written(e);
    assert(t.subrange(0, t.len() as int) =~= t);
    lemma_written_reads_back(t, 0, e);
    lemma_stops(t, 0, e, t.len() as int);
}

// ── Binding ───────────────────────────────────────────────────────────────────

proof fn lemma_operand(t: Seq<Tok>, p: int, e: Expr, q: int)
    requires
        can_be_written(e),
        0 <= p <= q <= t.len(),
        t.subrange(p, q) =~= written(e),
    ensures
        p < q,
        unary_at(t, p) == (e, q),
{
    assert(t.subrange(p, q).len() == q - p);
    assert(p + written(e).len() == q);
    lemma_written_reads_back(t, p, e);
}

/// `&&` binds tighter than `||`, whichever stands first.
pub proof fn lemma_and_binds_tighter(a: Expr, b: Expr, c: Expr)
    requires
        can_be_written(a),
        can_be_written(b),
        can_be_written(c),
    ensures
        tokens_expr(written(a) + seq![Tok::Or] + written(b) + seq![Tok::And] + written(c))
            == Expr::Or(Box::new(a), Box::new(Expr::And(Box::new(b), Box::new(c)))),
        tokens_expr(written(a) + seq![Tok::And] + written(b) + seq![Tok::Or] + written(c))
            == Expr::Or(Box::new(Expr::And(Box::new(a), Box::new(b))), Box::new(c)),
{
    let (la, lb, lc) = (written(a).len() as int, written(b).len() as int, written(c).len() as int);
    let q = la + 1 + lb;
    let r = q + 1 + lc;
    let t = written(a) + seq![Tok::Or] + written(b) + seq![Tok::And] + written(c);
    lemma_operand(t, 0, a, la);
    lemma_operand(t, la + 1, b, q);
    lemma_operand(t, q + 1, c, r);
    lemma_stops(t, 0, a, la);
    lemma_stops(t, la + 1, b, q);
    lemma_stops(t, q + 1, c, r);
    lemma_and_read(t, la + 1, b, q, c, r);
    lemma_or_read(t, 0, a, la, Expr::And(Box::new(b), Box::new(c)), r);
    let u = written(a) + seq![Tok::And] + written(b) + seq![Tok::Or] + written(c);
    lemma_operand(u, 0, a, la);
    lemma_operand(u, la + 1, b, q);
    lemma_operand(u, q + 1, c, r);
    lemma_stops(u, 0, a, la);
    lemma_stops(u, la + 1, b, q);
    lemma_stops(u, q + 1, c, r);
    lemma_and_read(u, 0, a, la, b, q);
    lemma_or_read(u, 0, Expr::And(Box::new(a), Box::new(b)), q, c, r);
}

/// A comparison binds tighter than `&&`, and `!` tighter than a comparison.
pub proof fn lemma_comparison_binds_tighter(a: Expr, b: Expr, c: Expr, sign: Tok)
    requires
        can_be_written(a),
        can_be_written(b),
        can_be_written(c),
        is_sign(sign),
    ensures
        tokens_expr(written(a) + seq![sign] + written(b) + seq![Tok::And] + written(c))
            == Expr::And(Box::new(comparison(sign, a, b)), Box::new(c)),
        tokens_expr(seq![Tok::Not] + written(a) + seq![sign] + written(b)) == comparison(
            sign,
            Expr::Not(Box::new(a)),
            b,
        ),
        tokens_expr(seq![Tok::Not] + written(a) + seq![Tok::And] + written(b)) == Expr::And(
            Box::new(Expr::Not(Box::new(a))),
            Box::new(b),
        ),
{
    let (la, lb, lc) = (written(a).len() as int, written(b).len() as int, written(c).len() as int);
    let q = la + 1 + lb;
    let r = q + 1 + lc;
    let t = written(a) + seq![sign] + written(b) + seq![Tok::And] + written(c);
    lemma_operand(t, 0, a, la);
    lemma_operand(t, la + 1, b, q);
    lemma_operand(t, q + 1, c, r);
    lemma_stops(t, q + 1, c, r);
    assert(comparison_at(t, 0) == (comparison(sign, a, b), q));
    lemma_and_read(t, 0, comparison(sign, a, b), q, c, r);
    let whole = Expr::And(Box::new(comparison(sign, a, b)), Box::new(c));
    assert(or_more(t, whole, r) == (whole, r));
    let not_a = Expr::Not(Box::new(a));
    let u = seq![Tok::Not] + written(a) + seq![sign] + written(b);
    lemma_operand(u, 1, a, la + 1);
    lemma_operand(u, la + 2, b, q + 1);
    assert(unary_at(u, 0) == (not_a, la + 1));
    let compared = comparison(sign, not_a, b);
    assert(comparison_at(u, 0) == (compared, q + 1));
    assert(and_more(u, compared, q + 1) == (compared, q + 1));
    assert(or_more(u, compared, q + 1) == (compared, q + 1));
    let v = seq![Tok::Not] + written(a) + seq![Tok::And] + written(b);
    lemma_operand(v, 1, a, la + 1);
    lemma_operand(v, la + 2, b, q + 1);
    assert(unary_at(v, 0) == (not_a, la + 1));
    lemma_stops(v, 0, not_a, la + 1);
    lemma_stops(v, la + 2, b, q + 1);
    lemma_and_read(v, 0, not_a, la + 1, b, q + 1);
    let both = Expr::And(Box::new(not_a), Box::new(b));
    assert(or_more(v, both, q + 1) == (both, q + 1));
}

/// Each sign stands for its comparison.
pub proof fn lemma_signs(a: Expr, b: Expr)
    ensures
        comparison(Tok::Eq, a, b) == Expr::Equal(Box::new(a), Box::new(b)),
        comparison(Tok::NEq, a, b) == Expr::NotEqual(Box::new(a), Box::new(b)),
        comparison(Tok::Lt, a, b) == Expr::Less(Box::new(a), Box::new(b)),
        comparison(Tok::Le, a, b) == Expr::LessEq(Box::new(a), Box::new(b)),
        comparison(Tok::Gt, a, b) == Expr::Greater(Box::new(a), Box::new(b)),
        comparison(Tok::Ge, a, b) == Expr::GreaterEq(Box::new(a), Box::new(b)),
{
}

// ── Words and signs ───────────────────────────────────────────────────────────

/// Whether `w` is a word that names a symbol: none of its characters ends a word, it begins with no
/// digit, and it is no connective and no value.
pub open spec fn is_symbol_word(w: Seq<char>) -> bool {
    &&& w.len() > 0
    &&& forall|i: int| 0 <= i < w.len() ==> !ends_word(#[trigger] w[i])
    &&& !('0' <= w[0] && w[0] <= '9')
    &&& w != "&&"@ && w != "-a"@ && w != "||"@ && w != "-o"@
    &&& w != "y"@ && w != "m"@ && w != "n"@
}

/// A name in an expression is a symbol, in upper case; what follows it behind a space is read on its
/// own.
pub proof fn lemma_symbol_token(w: Seq<char>, rest: Seq<char>)
    requires
        is_symbol_word(w),
    ensures
        tokens(w + seq![' '] + rest) == seq![Tok::Sym(uppercase(w))] + tokens(rest),
        tokens(w) == seq![Tok::Sym(uppercase(w))],
{
    lemma_word_token(w, rest);
}

proof fn lemma_word_token(w: Seq<char>, rest: Seq<char>)
    requires
        w.len() > 0,
        forall|i: int| 0 <= i < w.len() ==> !ends_word(#[trigger] w[i]),
    ensures
        tokens(w + seq![' '] + rest) == seq![word_token(w, uppercase(w))] + tokens(rest),
        tokens(w) == seq![word_token(w, uppercase(w))],
{
    let s = w + seq![' '] + rest;
    let n = w.len() as int;
    assert forall|i: int| 0 <= i < n implies !ends_word(#[trigger] s[i]) by {
        assert(!ends_word(w[i]));
    }
    lemma_word_len(s, n);
    lemma_word_len(w, n);
    assert(!ends_word(s[0]) && !ends_word(w[0]));
    assert(s.take(n) =~= w);
    let tail = s.skip(n);
    assert(tail[0] == ' ');
    assert(tail.skip(1) =~= rest);
    assert(tokens(tail) == tokens(rest));
}

/// The connectives and the values are read as what they are.
pub proof fn lemma_connective_tokens(rest: Seq<char>)
    ensures
        tokens("&&"@ + seq![' '] + rest) == seq![Tok::And] + tokens(rest),
        tokens("||"@ + seq![' '] + rest) == seq![Tok::Or] + tokens(rest),
        tokens("y"@ + seq![' '] + rest) == seq![Tok::Lit("y"@)] + tokens(rest),
        tokens("m"@ + seq![' '] + rest) == seq![Tok::Lit("m"@)] + tokens(rest),
        tokens("n"@ + seq![' '] + rest) == seq![Tok::Lit("n"@)] + tokens(rest),
{
    reveal_strlit("&&");
    reveal_strlit("||");
    reveal_strlit("-a");
    reveal_strlit("-o");
    reveal_strlit("y");
    reveal_strlit("m");
    reveal_strlit("n");
    assert("&&"@[0] == '&' && "||"@[0] == '|' && "-a"@[0] == '-' && "-o"@[0] == '-');
    assert("&&"@[1] == '&' && "||"@[1] == '|' && "-a"@[1] == 'a' && "-o"@[1] == 'o');
    lemma_word_token("&&"@, rest);
    lemma_word_token("||"@, rest);
    lemma_word_token("y"@, rest);
    lemma_word_token("m"@, rest);
    lemma_word_token("n"@, rest);
    assert("y"@.len() == 1 && "m"@.len() == 1 && "n"@.len() == 1);
}

/// Signs are read as what they are, with no space around them; the longer one counts where two fit.
pub proof fn lemma_sign_tokens(rest: Seq<char>)
    ensures
        tokens(seq!['('] + rest) == seq![Tok::LParen] + tokens(rest),
        tokens(seq![')'] + rest) == seq![Tok::RParen] + tokens(rest),
        tokens(seq!['='] + rest) == seq![Tok::Eq] + tokens(rest),
        tokens(seq!['!', '='] + rest) == seq![Tok::NEq] + tokens(rest),
        tokens(seq!['<', '='] + rest) == seq![Tok::Le] + tokens(rest),
        tokens(seq!['>', '='] + rest) == seq![Tok::Ge] + tokens(rest),
        rest.len() > 0 && rest[0] != '=' ==> tokens(seq!['!'] + rest) == seq![Tok::Not] + tokens(
            rest,
        ),
        rest.len() > 0 && rest[0] != '=' ==> tokens(seq!['<'] + rest) == seq![Tok::Lt] + tokens(
            rest,
        ),
        rest.len() > 0 && rest[0] != '=' ==> tokens(seq!['>'] + rest) == seq![Tok::Gt] + tokens(
            rest,
        ),
        tokens(seq![' '] + rest) == tokens(rest),
        tokens(seq!['\t'] + rest) == tokens(rest),
{
    assert((seq!['('] + rest).skip(1) =~= rest);
    assert((seq![')'] + rest).skip(1) =~= rest);
    assert((seq!['='] + rest).skip(1) =~= rest);
    assert((seq!['!'] + rest).skip(1) =~= rest);
    assert((seq!['<'] + rest).skip(1) =~= rest);
    assert((seq!['>'] + rest).skip(1) =~= rest);
    assert((seq![' '] + rest).skip(1) =~= rest);
    assert((seq!['\t'] + rest).skip(1) =~= rest);
    assert((seq!['!', '='] + rest).skip(2) =~= rest);
    assert((seq!['<', '='] + rest).skip(2) =~= rest);
    assert((seq!['>', '='] + rest).skip(2) =~= rest);
}

/// A text in quotation marks is a literal, whatever is in it, and so is a word that begins with a
/// digit.
pub proof fn lemma_literal_tokens(s: Seq<char>, rest: Seq<char>, w: Seq<char>)
    requires
        forall|i: int| 0 <= i < s.len() ==> #[trigger] s[i] != '"',
        w.len() > 0,
        '0' <= w[0] && w[0] <= '9',
        forall|i: int| 0 <= i < w.len() ==> !ends_word(#[trigger] w[i]),
    ensures
        tokens(seq!['"'] + s + seq!['"'] + rest) == seq![Tok::Lit(s)] + tokens(rest),
        tokens(w + seq![' '] + rest) == seq![Tok::Lit(w)] + tokens(rest),
{
    let t = seq!['"'] + s + seq!['"'] + rest;
    let tail = t.skip(1);
    assert(tail =~= s + seq!['"'] + rest);
    assert forall|i: int| 0 <= i < s.len() implies tail[i] != '"' by {
        assert(s[i] != '"');
    }
    lemma_until_char(tail, '"', s.len() as int);
    let n = s.len() as int;
    assert(t.subrange(1, 1 + n) =~= s);
    assert(t.skip(2 + n) =~= rest);
    lemma_word_token(w, rest);
    reveal_strlit("&&");
    reveal_strlit("||");
    reveal_strlit("-a");
    reveal_strlit("-o");
    reveal_strlit("y");
    reveal_strlit("m");
    reveal_strlit("n");
    assert("&&"@[0] == '&' && "||"@[0] == '|' && "-a"@[0] == '-' && "-o"@[0] == '-');
    assert("y"@[0] == 'y' && "m"@[0] == 'm' && "n"@[0] == 'n');
}

/// Signs of one kind are taken from the left.
pub proof fn lemma_signs_from_the_left(a: Expr, b: Expr, c: Expr)
    requires
        can_be_written(a),
        can_be_written(b),
        can_be_written(c),
    ensures
        tokens_expr(written(a) + seq![Tok::And] + written(b) + seq![Tok::And] + written(c))
            == Expr::And(Box::new(Expr::And(Box::new(a), Box::new(b))), Box::new(c)),
        tokens_expr(written(a) + seq![Tok::Or] + written(b) + seq![Tok::Or] + written(c))
            == Expr::Or(Box::new(Expr::Or(Box::new(a), Box::new(b))), Box::new(c)),
{
    let (la, lb, lc) = (written(a).len() as int, written(b).len() as int, written(c).len() as int);
    let q = la + 1 + lb;
    let r = q + 1 + lc;
    let t = written(a) + seq![Tok::And] + written(b) + seq![Tok::And] + written(c);
    lemma_operand(t, 0, a, la);
    lemma_operand(t, la + 1, b, q);
    lemma_operand(t, q + 1, c, r);
    lemma_stops(t, 0, a, la);
    lemma_stops(t, la + 1, b, q);
    lemma_stops(t, q + 1, c, r);
    let two = Expr::And(Box::new(a), Box::new(b));
    let three = Expr::And(Box::new(two), Box::new(c));
    assert(and_more(t, three, r) == (three, r));
    assert(and_more(t, two, q) == and_more(t, three, r));
    assert(and_more(t, a, la) == and_more(t, two, q));
    assert(and_at(t, 0) == (three, r));
    assert(or_more(t, three, r) == (three, r));
    let u = written(a) + seq![Tok::Or] + written(b) + seq![Tok::Or] + written(c);
    lemma_operand(u, 0, a, la);
    lemma_operand(u, la + 1, b, q);
    lemma_operand(u, q + 1, c, r);
    lemma_stops(u, 0, a, la);
    lemma_stops(u, la + 1, b, q);
    lemma_stops(u, q + 1, c, r);
    let either = Expr::Or(Box::new(a), Box::new(b));
    let any = Expr::Or(Box::new(either), Box::new(c));
    assert(or_more(u, any, r) == (any, r));
    assert(or_more(u, either, q) == or_more(u, any, r));
    assert(or_more(u, a, la) == or_more(u, either, q));
}

/// What is missing counts as unconditionally true, a parenthesis that is not closed closes at the
/// end, and what follows a whole expression is not read.
pub proof fn lemma_incomplete_expressions(a: Expr, s: Seq<char>, rest: Seq<Tok>)
    requires
        can_be_written(a),
    ensures
        tokens_expr(seq![]) == Expr::Always,
        tokens_expr(written(a) + seq![Tok::And]) == Expr::And(
            Box::new(a),
            Box::new(Expr::Always),
        ),
        tokens_expr(seq![Tok::LParen] + written(a)) == a,
        tokens_expr(written(a) + seq![Tok::Sym(s)] + rest) == a,
{
    let none = Seq::<Tok>::empty();
    assert(primary_at(none, 0) == (Expr::Always, 0int));
    assert(unary_at(none, 0) == (Expr::Always, 0int));
    lemma_stops(none, 0, Expr::Always, 0);
    let la = written(a).len() as int;
    let t = written(a) + seq![Tok::And];
    lemma_operand(t, 0, a, la);
    lemma_stops(t, 0, a, la);
    assert(unary_at(t, la + 1) == (Expr::Always, la + 1));
    lemma_stops(t, la + 1, Expr::Always, la + 1);
    lemma_and_read(t, 0, a, la, Expr::Always, la + 1);
    let both = Expr::And(Box::new(a), Box::new(Expr::Always));
    assert(or_more(t, both, la + 1) == (both, la + 1));
    let u = seq![Tok::LParen] + written(a);
    lemma_operand(u, 1, a, la + 1);
    lemma_stops(u, 1, a, la + 1);
    assert(primary_at(u, 0) == (a, la + 1));
    assert(unary_at(u, 0) == (a, la + 1));
    lemma_stops(u, 0, a, la + 1);
    let v = written(a) + seq![Tok::Sym(s)] + rest;
    lemma_operand(v, 0, a, la);
    assert(v[la] == Tok::Sym(s));
    lemma_stops(v, 0, a, la);
}

} // verus!
