//! The words and signs of Kconfig expressions.
use crate::split::{find_char, until_char};
use crate::text::{is_word, string_of, uppercase};
use vstd::prelude::*;
use vstd::slice::slice_subrange;

verus! {

/// A word or sign of an expression.
#[derive(Debug, PartialEq, Eq)]
pub enum Token {
    Sym(String),
    Lit(String),
    And,
    Or,
    Not,
    Eq,
    NEq,
    Lt,
    Le,
    Gt,
    Ge,
    LParen,
    RParen,
}

/// What a token says.
pub ghost enum Tok {
    Sym(Seq<char>),
    Lit(Seq<char>),
    And,
    Or,
    Not,
    Eq,
    NEq,
    Lt,
    Le,
    Gt,
    Ge,
    LParen,
    RParen,
}

impl View for Token {
    type V = Tok;

    open spec fn view(&self) -> Tok {
        match self {
            Token::Sym(s) => Tok::Sym(s@),
            Token::Lit(s) => Tok::Lit(s@),
            Token::And => Tok::And,
            Token::Or => Tok::Or,
            Token::Not => Tok::Not,
            Token::Eq => Tok::Eq,
            Token::NEq => Tok::NEq,
            Token::Lt => Tok::Lt,
            Token::Le => Tok::Le,
            Token::Gt => Tok::Gt,
            Token::Ge => Tok::Ge,
            Token::LParen => Tok::LParen,
            Token::RParen => Tok::RParen,
        }
    }
}

/// What several tokens say.
pub open spec fn tok_views(v: Seq<Token>) -> Seq<Tok> {
    Seq::new(v.len(), |i: int| v[i]@)
}

// ── Words ─────────────────────────────────────────────────────────────────────

/// Whether `c` ends a word.
pub open spec fn ends_word(c: char) -> bool {
    c == ' ' || c == '\t' || c == '(' || c == ')' || c == '!' || c == '=' || c == '<' || c == '>'
        || c == '"'
}

/// The length of the word at the front of `s`.
pub open spec fn word_len(s: Seq<char>) -> nat
    decreases s.len(),
{
    if s.len() == 0 || ends_word(s[0]) {
        0
    } else {
        1 + word_len(s.drop_first())
    }
}

/// What the word `word` stands for, where `upper` is the word in upper case.
pub open spec fn word_token(word: Seq<char>, upper: Seq<char>) -> Tok {
    if word == "&&"@ || word == "-a"@ {
        Tok::And
    } else if word == "||"@ || word == "-o"@ {
        Tok::Or
    } else if word == "y"@ || word == "m"@ || word == "n"@ {
        Tok::Lit(word)
    } else if word.len() == 0 || '0' <= word[0] && word[0] <= '9' {
        Tok::Lit(word)
    } else {
        Tok::Sym(upper)
    }
}

/// Tells what a word stands for, given the word in upper case.
pub fn classify_word(word: &[char], upper: String) -> (token: Token)
    ensures
        token@ == word_token(word@, upper@),
{
    if is_word(word, "&&") || is_word(word, "-a") {
        Token::And
    } else if is_word(word, "||") || is_word(word, "-o") {
        Token::Or
    } else if is_word(word, "y") || is_word(word, "m") || is_word(word, "n") {
        Token::Lit(string_of(word))
    } else if word.len() == 0 || ('0' <= word[0] && word[0] <= '9') {
        Token::Lit(string_of(word))
    } else {
        Token::Sym(upper)
    }
}

// ── Texts ─────────────────────────────────────────────────────────────────────

/// The tokens of a text. Spaces and tabs separate, a quoted text runs to the next quotation mark or
/// to the end, and a word runs to the next sign, space or quotation mark.
pub open spec fn tokens(s: Seq<char>) -> Seq<Tok>
    decreases s.len(),
{
    if s.len() == 0 {
        seq![]
    } else if s[0] == ' ' || s[0] == '\t' {
        tokens(s.skip(1))
    } else if s[0] == '(' {
        seq![Tok::LParen] + tokens(s.skip(1))
    } else if s[0] == ')' {
        seq![Tok::RParen] + tokens(s.skip(1))
    } else if s[0] == '=' {
        seq![Tok::Eq] + tokens(s.skip(1))
    } else if s[0] == '!' {
        if s.len() > 1 && s[1] == '=' {
            seq![Tok::NEq] + tokens(s.skip(2))
        } else {
            seq![Tok::Not] + tokens(s.skip(1))
        }
    } else if s[0] == '<' {
        if s.len() > 1 && s[1] == '=' {
            seq![Tok::Le] + tokens(s.skip(2))
        } else {
            seq![Tok::Lt] + tokens(s.skip(1))
        }
    } else if s[0] == '>' {
        if s.len() > 1 && s[1] == '=' {
            seq![Tok::Ge] + tokens(s.skip(2))
        } else {
            seq![Tok::Gt] + tokens(s.skip(1))
        }
    } else if s[0] == '"' {
        let n = until_char(s.skip(1), '"') as int;
        if 1 + n < s.len() {
            seq![Tok::Lit(s.subrange(1, 1 + n))] + tokens(s.skip(2 + n))
        } else {
            seq![Tok::Lit(s.skip(1))]
        }
    } else {
        let n = word_len(s);
        if 0 < n < s.len() {
            seq![word_token(s.take(n as int), uppercase(s.take(n as int)))] + tokens(
                s.skip(n as int),
            )
        } else {
            seq![word_token(s, uppercase(s))]
        }
    }
}

/// What makes `n` the length of the word at the front.
pub proof fn lemma_word_len(s: Seq<char>, n: int)
    requires
        0 <= n <= s.len(),
        n < s.len() ==> ends_word(s[n]),
        forall|i: int| 0 <= i < n ==> !ends_word(#[trigger] s[i]),
    ensures
        word_len(s) == n,
    decreases s.len(),
{
    if s.len() > 0 && !ends_word(s[0]) {
        let t = s.drop_first();
        assert forall|i: int| 0 <= i < n - 1 implies !ends_word(#[trigger] t[i]) by {
            assert(!ends_word(s[i + 1]));
        }
        lemma_word_len(t, n - 1);
    }
}

/// Tests whether `c` ends a word.
fn is_word_end(c: char) -> (yes: bool)
    ensures
        yes == ends_word(c),
{
    c == ' ' || c == '\t' || c == '(' || c == ')' || c == '!' || c == '=' || c == '<' || c == '>'
        || c == '"'
}

/// Finds the end of the word that starts at `from`.
fn find_word_end(s: &[char], from: usize) -> (at: usize)
    requires
        from <= s@.len(),
    ensures
        from <= at <= s@.len(),
        at == from + word_len(s@.skip(from as int)),
{
    let mut at: usize = from;
    while at < s.len() && !is_word_end(s[at])
        invariant
            from <= at <= s@.len(),
            forall|k: int| from <= k < at ==> !ends_word(#[trigger] s@[k]),
        decreases s@.len() - at,
    {
        at += 1;
    }
    proof {
        let t = s@.skip(from as int);
        assert forall|i: int| 0 <= i < at - from implies !ends_word(#[trigger] t[i]) by {
            assert(!ends_word(s@[from + i]));
        }
        lemma_word_len(t, at - from);
    }
    at
}

/// The token at position `i`, where no space stands, and the position behind it.
fn next_token(s: &[char], i: usize) -> (r: (Token, usize))
    requires
        i < s@.len(),
        s@[i as int] != ' ',
        s@[i as int] != '\t',
    ensures
        i < r.1 <= s@.len(),
        tokens(s@.skip(i as int)) == seq![r.0@] + tokens(s@.skip(r.1 as int)),
{
    let ghost rest = s@.skip(i as int);
    let c = s[i];
    let next = if i + 1 < s.len() {
        s[i + 1]
    } else {
        ' '
    };
    proof {
        assert(rest.skip(1) == s@.skip(i + 1));
        if i + 2 <= s@.len() {
            assert(rest.skip(2) == s@.skip(i + 2));
        }
    }
    if c == '(' {
        (Token::LParen, i + 1)
    } else if c == ')' {
        (Token::RParen, i + 1)
    } else if c == '=' {
        (Token::Eq, i + 1)
    } else if c == '!' {
        if next == '=' {
            (Token::NEq, i + 2)
        } else {
            (Token::Not, i + 1)
        }
    } else if c == '<' {
        if next == '=' {
            (Token::Le, i + 2)
        } else {
            (Token::Lt, i + 1)
        }
    } else if c == '>' {
        if next == '=' {
            (Token::Ge, i + 2)
        } else {
            (Token::Gt, i + 1)
        }
    } else if c == '"' {
        let end = find_char(s, '"', i + 1);
        let text = slice_subrange(s, i + 1, end);
        if end < s.len() {
            assert(rest.subrange(1, end - i) == text@);
            assert(rest.skip(end - i + 1) == s@.skip(end + 1));
            (Token::Lit(string_of(text)), end + 1)
        } else {
            assert(rest.skip(1) == text@);
            assert(tokens(s@.skip(end as int)) =~= seq![]);
            assert(seq![Tok::Lit(text@)] + tokens(s@.skip(end as int)) =~= seq![Tok::Lit(text@)]);
            (Token::Lit(string_of(text)), end)
        }
    } else {
        let end = find_word_end(s, i);
        let word = slice_subrange(s, i, end);
        proof {
            assert(end > i);
            assert(rest.take(end - i) == word@);
            assert(rest.skip(end - i) == s@.skip(end as int));
            if end == s@.len() {
                assert(word@ == rest);
                assert(tokens(s@.skip(end as int)) =~= seq![]);
                let t = word_token(word@, uppercase(word@));
                assert(seq![t] + tokens(s@.skip(end as int)) =~= seq![t]);
            }
        }
        let text = string_of(word);
        let token = classify_word(word, text.as_str().to_uppercase());
        (token, end)
    }
}

/// Splits an expression into its tokens.
pub fn tokenize_expr(input: &[char]) -> (out: Vec<Token>)
    ensures
        tok_views(out@) == tokens(input@),
{
    let mut out: Vec<Token> = Vec::new();
    let mut i: usize = 0;
    assert(input@.skip(0) == input@);
    assert(tok_views(out@) + tokens(input@) =~= tokens(input@));
    while i < input.len()
        invariant
            i <= input@.len(),
            tok_views(out@) + tokens(input@.skip(i as int)) == tokens(input@),
        decreases input@.len() - i,
    {
        if input[i] == ' ' || input[i] == '\t' {
            assert(input@.skip(i as int).skip(1) == input@.skip(i + 1));
            i += 1;
        } else {
            let ghost before = tok_views(out@);
            let (token, end) = next_token(input, i);
            out.push(token);
            proof {
                let tail = tokens(input@.skip(end as int));
                assert(tok_views(out@) =~= before.push(token@));
                assert(before + (seq![token@] + tail) =~= before.push(token@) + tail);
            }
            i = end;
        }
    }
    assert(input@.skip(i as int) == Seq::<char>::empty());
    assert(tok_views(out@) + seq![] =~= tok_views(out@));
    out
}

} // verus!
