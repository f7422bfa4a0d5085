//! What reading Kconfig files comes to: which conditions a symbol stands under, and what each line
//! adds to it.
use crate::kconfig::expr::{holds, Expr};
use crate::kconfig::graph::{SymbolKind, SymbolView};
use crate::kconfig::lines::{
    argument, declared_name, depends_text, effective, first_word, if_text, kind_of, logical_lines,
    select_of, under,
};
use crate::kconfig::loader::{
    after_line, entered, flushed, is_divider, is_source, lemma_line_moves, run, source_of, FrameView,
    IncludeView, Place,
};
use crate::kconfig::parse::text_expr;
use crate::number::decimal;
use crate::text::trimmed;
use vstd::prelude::*;

verus! {

// ── Conditions ────────────────────────────────────────────────────────────────

/// Whether every one of the conditions holds.
pub open spec fn all_hold(conditions: Seq<Expr>, v: Map<Seq<char>, Seq<char>>) -> bool {
    forall|i: int| 0 <= i < conditions.len() ==> holds(#[trigger] conditions[i], v)
}

/// Whether what a symbol depends on, if anything, holds.
pub open spec fn dependencies_hold(d: Option<Expr>, v: Map<Seq<char>, Seq<char>>) -> bool {
    d is Some ==> holds(d->0, v)
}

/// The conditions of several blocks, taken together, hold just where each of them does.
pub proof fn lemma_effective_is_conjunction(conditions: Seq<Expr>, v: Map<Seq<char>, Seq<char>>)
    ensures
        dependencies_hold(effective(conditions), v) <==> all_hold(conditions, v),
        effective(conditions) is Some <==> conditions.len() > 0,
    decreases conditions.len(),
{
    if conditions.len() > 0 {
        let front = conditions.drop_last();
        lemma_effective_is_conjunction(front, v);
        if all_hold(conditions, v) {
            assert forall|i: int| 0 <= i < front.len() implies holds(#[trigger] front[i], v) by {
                assert(holds(conditions[i], v));
            }
            assert(holds(conditions[conditions.len() - 1], v));
        }
        if all_hold(front, v) && holds(conditions.last(), v) {
            assert forall|i: int| 0 <= i < conditions.len() implies holds(
                #[trigger] conditions[i],
                v,
            ) by {
                if i < front.len() {
                    assert(holds(front[i], v));
                }
            }
        }
    }
}

/// An expression under conditions holds just where it holds and each of them does.
pub proof fn lemma_under_is_conjunction(
    conditions: Seq<Expr>,
    e: Expr,
    v: Map<Seq<char>, Seq<char>>,
)
    ensures
        holds(under(conditions, e), v) <==> all_hold(conditions, v) && holds(e, v),
{
    lemma_effective_is_conjunction(conditions, v);
}

proof fn lemma_all_hold_push(conditions: Seq<Expr>, e: Expr, v: Map<Seq<char>, Seq<char>>)
    ensures
        all_hold(conditions.push(e), v) <==> all_hold(conditions, v) && holds(e, v),
{
    let more = conditions.push(e);
    if all_hold(more, v) {
        assert forall|i: int| 0 <= i < conditions.len() implies holds(
            #[trigger] conditions[i],
            v,
        ) by {
            assert(holds(more[i], v));
        }
        assert(holds(more[conditions.len() as int], v));
    }
}

// ── Lines ─────────────────────────────────────────────────────────────────────

/// The line that comes next.
pub open spec fn next_line_of(p: Place) -> Seq<char> {
    trimmed(p.frame.lines[p.frame.pos as int])
}

/// Whether the next line begins with `word`, and is neither blank nor a comment.
pub open spec fn next_is(p: Place, word: Seq<char>) -> bool {
    &&& p.frame.pos < p.frame.lines.len()
    &&& next_line_of(p).len() > 0
    &&& next_line_of(p)[0] != '#'
    &&& first_word(next_line_of(p)) == word
}

proof fn lemma_keywords_differ()
    ensures
        "config"@ != "menuconfig"@,
        "if"@ != "config"@ && "if"@ != "menuconfig"@,
        "endif"@ != "config"@ && "endif"@ != "menuconfig"@ && "endif"@ != "if"@,
        "choice"@ != "config"@ && "choice"@ != "menuconfig"@ && "choice"@ != "if"@ && "choice"@
            != "endif"@,
        "endchoice"@ != "config"@ && "endchoice"@ != "menuconfig"@ && "endchoice"@ != "if"@
            && "endchoice"@ != "endif"@ && "endchoice"@ != "choice"@,
        "depends"@ != "config"@ && "depends"@ != "menuconfig"@,
        "select"@ != "config"@ && "select"@ != "menuconfig"@ && "select"@ != "depends"@,
        "imply"@ != "config"@ && "imply"@ != "menuconfig"@ && "imply"@ != "depends"@ && "imply"@
            != "select"@,
        kind_of("config"@) is None,
        kind_of("menuconfig"@) is None,
        kind_of("if"@) is None,
        kind_of("endif"@) is None,
        kind_of("choice"@) is None,
        kind_of("endchoice"@) is None,
        kind_of("depends"@) is None,
        kind_of("select"@) is None,
        kind_of("imply"@) is None,
        kind_of("source"@) is None,
        kind_of("rsource"@) is None,
        kind_of("osource"@) is None,
        "if"@ != "depends"@ && "if"@ != "select"@ && "if"@ != "imply"@,
        "endif"@ != "depends"@ && "endif"@ != "select"@ && "endif"@ != "imply"@,
        "choice"@ != "depends"@ && "choice"@ != "select"@ && "choice"@ != "imply"@,
        "endchoice"@ != "depends"@ && "endchoice"@ != "select"@ && "endchoice"@ != "imply"@,
        forall|w: Seq<char>| #[trigger]
            is_source(w) ==> (w == "source"@ || w == "rsource"@ || w == "osource"@) && (w != "config"@ && w
                != "menuconfig"@ && w != "depends"@ && w != "select"@ && w != "imply"@ && w
                != "if"@ && w != "endif"@ && w != "choice"@ && w != "endchoice"@),
        "rsource"@ != "source"@ && "osource"@ != "source"@ && "rsource"@ != "osource"@,
{
    reveal_strlit("config");
    reveal_strlit("menuconfig");
    reveal_strlit("if");
    reveal_strlit("endif");
    reveal_strlit("choice");
    reveal_strlit("endchoice");
    reveal_strlit("depends");
    reveal_strlit("select");
    reveal_strlit("imply");
    reveal_strlit("source");
    reveal_strlit("rsource");
    reveal_strlit("osource");
    reveal_strlit("bool");
    reveal_strlit("tristate");
    reveal_strlit("int");
    reveal_strlit("hex");
    reveal_strlit("string");
    assert("config"@.len() == 6 && "config"@[0] == 'c');
    assert("menuconfig"@.len() == 10);
    assert("if"@.len() == 2);
    assert("endif"@.len() == 5 && "endif"@[0] == 'e');
    assert("choice"@.len() == 6 && "choice"@[1] == 'h' && "choice"@[0] == 'c');
    assert("config"@[1] == 'o');
    assert("endchoice"@.len() == 9);
    assert("depends"@.len() == 7 && "depends"@[0] == 'd');
    assert("select"@.len() == 6 && "select"@[0] == 's' && "select"@[1] == 'e');
    assert("imply"@.len() == 5 && "imply"@[0] == 'i');
    assert("source"@.len() == 6 && "source"@[0] == 's' && "source"@[1] == 'o');
    assert("rsource"@.len() == 7 && "rsource"@[0] == 'r');
    assert("osource"@.len() == 7 && "osource"@[0] == 'o');
    assert("bool"@.len() == 4 && "tristate"@.len() == 8 && "int"@.len() == 3 && "hex"@.len() == 3);
    assert("string"@.len() == 6 && "string"@[0] == 's' && "string"@[1] == 't');
}

/// A symbol depends, where it is declared, on every condition around the place, and on nothing else;
/// it bears the name that its line gives, and what was being declared before it is finished.
pub proof fn lemma_declared_under_all(p: Place, v: Map<Seq<char>, Seq<char>>)
    requires
        next_is(p, "config"@) || next_is(p, "menuconfig"@),
    ensures
        ({
            let s = after_line(p).frame.current;
            &&& s is Some
            &&& s->0.name == declared_name(next_line_of(p))
            &&& dependencies_hold(s->0.depends_on, v) <==> all_hold(p.frame.conditions, v)
            &&& s->0.selects.len() == 0
            &&& s->0.implies.len() == 0
            &&& s->0.kind == SymbolKind::Bool
            &&& s->0.choice_group == p.frame.choice_group
            &&& after_line(p).frame.conditions == p.frame.conditions
        }),
{
    lemma_effective_is_conjunction(p.frame.conditions, v);
}

/// An `if` line adds its condition to those around the place, and takes none away; an `endif` line
/// takes away the one that was added last.
pub proof fn lemma_blocks_nest(p: Place, v: Map<Seq<char>, Seq<char>>)
    ensures
        next_is(p, "if"@) && if_text(next_line_of(p)).len() > 0 ==> {
            &&& after_line(p).frame.conditions == p.frame.conditions.push(
                text_expr(if_text(next_line_of(p))),
            )
            &&& all_hold(after_line(p).frame.conditions, v) <==> all_hold(p.frame.conditions, v)
                && holds(text_expr(if_text(next_line_of(p))), v)
        },
        next_is(p, "endif"@) && p.frame.conditions.len() > 0 ==> after_line(p).frame.conditions.push(
            p.frame.conditions.last(),
        ) == p.frame.conditions,
        next_is(p, "if"@) || next_is(p, "endif"@) || after_line(p).frame.conditions
            == p.frame.conditions || p.frame.pos >= p.frame.lines.len(),
{
    lemma_keywords_differ();
    lemma_all_hold_push(p.frame.conditions, text_expr(if_text(next_line_of(p))), v);
    if next_is(p, "endif"@) && p.frame.conditions.len() > 0 {
        let c = p.frame.conditions;
        assert(c.drop_last().push(c.last()) =~= c);
    }
}

/// What stands between an `if` and its `endif` and opens and closes no block leaves the conditions
/// as they were in front of the `if`.
pub proof fn lemma_endif_undoes_if(p: Place, q: Place)
    requires
        next_is(p, "if"@),
        if_text(next_line_of(p)).len() > 0,
        next_is(q, "endif"@),
        q.frame.conditions == after_line(p).frame.conditions,
    ensures
        after_line(q).frame.conditions == p.frame.conditions,
{
    lemma_keywords_differ();
    let c = p.frame.conditions;
    let e = text_expr(if_text(next_line_of(p)));
    assert(c.push(e).drop_last() =~= c);
}

/// A `depends on` line adds to what the symbol depends on: its expression and the conditions around
/// the place. Nothing that the symbol depended on is lost.
pub proof fn lemma_depends_adds(p: Place, v: Map<Seq<char>, Seq<char>>)
    requires
        next_is(p, "depends"@),
        depends_text(next_line_of(p)).len() > 0,
        p.frame.current is Some,
    ensures
        ({
            let old_symbol = p.frame.current->0;
            let s = after_line(p).frame.current;
            &&& s is Some
            &&& dependencies_hold(s->0.depends_on, v) <==> dependencies_hold(
                old_symbol.depends_on,
                v,
            ) && holds(text_expr(depends_text(next_line_of(p))), v) && all_hold(
                p.frame.conditions,
                v,
            )
            &&& s->0 == (SymbolView { depends_on: s->0.depends_on, ..old_symbol })
        }),
{
    lemma_keywords_differ();
    lemma_under_is_conjunction(
        p.frame.conditions,
        text_expr(depends_text(next_line_of(p))),
        v,
    );
}

/// A `select` line adds one select behind those that the symbol has, an `imply` line one such, and
/// neither changes anything else.
pub proof fn lemma_selects_pile_up(p: Place)
    requires
        p.frame.current is Some,
    ensures
        next_is(p, "select"@) && select_of(next_line_of(p)) is Some
            ==> after_line(p).frame.current == Some(
            (SymbolView {
                selects: p.frame.current->0.selects.push(select_of(next_line_of(p))->0),
                ..p.frame.current->0
            }),
        ),
        next_is(p, "imply"@) && select_of(next_line_of(p)) is Some
            ==> after_line(p).frame.current == Some(
            (SymbolView {
                implies: p.frame.current->0.implies.push(select_of(next_line_of(p))->0),
                ..p.frame.current->0
            }),
        ),
{
    lemma_keywords_differ();
}

/// A line with a type gives the symbol that type and changes nothing else.
pub proof fn lemma_types_are_taken(p: Place)
    requires
        p.frame.current is Some,
    ensures
        next_is(p, "bool"@) ==> after_line(p).frame.current == Some(
            (SymbolView { kind: SymbolKind::Bool, ..p.frame.current->0 }),
        ),
        next_is(p, "tristate"@) ==> after_line(p).frame.current == Some(
            (SymbolView { kind: SymbolKind::Tristate, ..p.frame.current->0 }),
        ),
        next_is(p, "int"@) ==> after_line(p).frame.current == Some(
            (SymbolView { kind: SymbolKind::Int, ..p.frame.current->0 }),
        ),
        next_is(p, "hex"@) ==> after_line(p).frame.current == Some(
            (SymbolView { kind: SymbolKind::Hex, ..p.frame.current->0 }),
        ),
        next_is(p, "string"@) ==> after_line(p).frame.current == Some(
            (SymbolView { kind: SymbolKind::String, ..p.frame.current->0 }),
        ),
{
    lemma_types_differ();
}

proof fn lemma_types_differ()
    ensures
        kind_of("bool"@) == Some(SymbolKind::Bool),
        kind_of("tristate"@) == Some(SymbolKind::Tristate),
        kind_of("int"@) == Some(SymbolKind::Int),
        kind_of("hex"@) == Some(SymbolKind::Hex),
        kind_of("string"@) == Some(SymbolKind::String),
        kind_of("config"@) is None,
        kind_of("menuconfig"@) is None,
        !is_source("bool"@) && !is_source("tristate"@) && !is_source("int"@) && !is_source("hex"@)
            && !is_source("string"@),
{
    reveal_strlit("config");
    reveal_strlit("menuconfig");
    reveal_strlit("bool");
    reveal_strlit("tristate");
    reveal_strlit("int");
    reveal_strlit("hex");
    reveal_strlit("string");
    reveal_strlit("source");
    reveal_strlit("rsource");
    reveal_strlit("osource");
    assert("config"@.len() == 6 && "config"@[0] == 'c' && "menuconfig"@.len() == 10);
    assert("bool"@.len() == 4 && "tristate"@.len() == 8 && "int"@.len() == 3 && "hex"@.len() == 3);
    assert("int"@[0] == 'i' && "hex"@[0] == 'h');
    assert("string"@.len() == 6 && "string"@[0] == 's' && "string"@[1] == 't');
    assert("source"@.len() == 6 && "source"@[1] == 'o');
    assert("rsource"@.len() == 7 && "osource"@.len() == 7);
}

/// A line that is cut short changes nothing: an `if` without a condition, an `endif` without an `if`,
/// a `depends` without an expression, and a select without a target.
pub proof fn lemma_cut_lines_are_idle(p: Place)
    ensures
        next_is(p, "if"@) && if_text(next_line_of(p)).len() == 0 ==> after_line(p).frame.conditions
            == p.frame.conditions,
        next_is(p, "endif"@) && p.frame.conditions.len() == 0 ==> after_line(p).frame.conditions
            == p.frame.conditions,
        next_is(p, "depends"@) && depends_text(next_line_of(p)).len() == 0
            ==> after_line(p).frame.current == p.frame.current,
        (next_is(p, "select"@) || next_is(p, "imply"@)) && select_of(next_line_of(p)) is None
            ==> after_line(p).frame.current == p.frame.current,
{
    lemma_keywords_differ();
}

/// A line changes no finished symbol but the one that it finishes, and that one is as it was read.
pub proof fn lemma_line_finishes_one(p: Place, n: Seq<char>)
    requires
        p.frame.pos < p.frame.lines.len(),
    ensures
        p.frame.current is None ==> after_line(p).symbols == p.symbols,
        p.frame.current is Some ==> after_line(p).symbols == p.symbols || after_line(p).symbols
            == p.symbols.insert(p.frame.current->0.name, p.frame.current->0),
        p.symbols.contains_key(n) && (p.frame.current is Some ==> p.frame.current->0.name != n)
            ==> after_line(p).symbols.contains_key(n) && after_line(p).symbols[n] == p.symbols[n],
{
}

/// A symbol that is being declared is not lost: behind the next line it is still being declared,
/// under its name, or it is finished as it was.
pub proof fn lemma_current_is_kept(p: Place)
    requires
        p.frame.pos < p.frame.lines.len(),
        p.frame.current is Some,
    ensures
        ({
            let s = p.frame.current->0;
            let after = after_line(p);
            ||| after.symbols == p.symbols && after.frame.current is Some
                && after.frame.current->0.name == s.name
            ||| after.symbols == p.symbols.insert(s.name, s)
        }),
{
}

/// Lines that bring in a file, or open or close a block, finish the symbol that is being declared.
pub proof fn lemma_blocks_finish_symbols(p: Place, word: Seq<char>)
    requires
        next_is(p, word),
        word == "config"@ || word == "menuconfig"@ || word == "if"@ || word == "endif"@ || word
            == "choice"@ || word == "endchoice"@ || word == "menu"@ || word == "endmenu"@ || word
            == "comment"@ || word == "mainmenu"@ || word == "source"@ || word == "rsource"@ || word
            == "osource"@,
    ensures
        p.frame.current is Some ==> after_line(p).symbols == p.symbols.insert(
            p.frame.current->0.name,
            p.frame.current->0,
        ),
        word != "config"@ && word != "menuconfig"@ ==> after_line(p).frame.current is None,
{
    lemma_keywords_differ();
    lemma_dividers_differ();
    assert(is_divider(word) || is_source(word) || word == "config"@ || word == "menuconfig"@ || word
        == "if"@ || word == "endif"@ || word == "choice"@ || word == "endchoice"@);
}

proof fn lemma_dividers_differ()
    ensures
        forall|w: Seq<char>| #[trigger]
            is_divider(w) ==> kind_of(w) is None && w != "depends"@ && w != "select"@ && w
                != "imply"@ && w != "if"@ && w != "endif"@ && w != "choice"@ && w != "endchoice"@,
{
    reveal_strlit("menu");
    reveal_strlit("mainmenu");
    reveal_strlit("comment");
    reveal_strlit("endmenu");
    reveal_strlit("depends");
    reveal_strlit("select");
    reveal_strlit("imply");
    reveal_strlit("if");
    reveal_strlit("endif");
    reveal_strlit("choice");
    reveal_strlit("endchoice");
    reveal_strlit("bool");
    reveal_strlit("tristate");
    reveal_strlit("int");
    reveal_strlit("hex");
    reveal_strlit("string");
    assert("menu"@.len() == 4 && "menu"@[0] == 'm');
    assert("mainmenu"@.len() == 8 && "mainmenu"@[0] == 'm');
    assert("comment"@.len() == 7 && "comment"@[0] == 'c');
    assert("endmenu"@.len() == 7 && "endmenu"@[0] == 'e');
    assert("depends"@[0] == 'd' && "select"@.len() == 6 && "imply"@.len() == 5);
    assert("if"@.len() == 2 && "endif"@.len() == 5 && "choice"@.len() == 6);
    assert("endchoice"@.len() == 9 && "bool"@[0] == 'b' && "tristate"@[0] == 't');
    assert("int"@.len() == 3 && "hex"@.len() == 3 && "string"@.len() == 6);
}

/// A line that begins with none of the words that the language gives a meaning to here changes
/// nothing.
pub proof fn lemma_other_lines_are_idle(p: Place, word: Seq<char>)
    requires
        next_is(p, word),
        word != "config"@ && word != "menuconfig"@ && word != "if"@ && word != "endif"@,
        word != "choice"@ && word != "endchoice"@ && word != "menu"@ && word != "endmenu"@,
        word != "comment"@ && word != "mainmenu"@ && word != "source"@ && word != "rsource"@,
        word != "osource"@ && word != "depends"@ && word != "select"@ && word != "imply"@,
        word != "bool"@ && word != "tristate"@ && word != "int"@ && word != "hex"@,
        word != "string"@,
    ensures
        after_line(p) == (Place {
            frame: FrameView { pos: p.frame.pos + 1, ..p.frame },
            ..p
        }),
        source_of(p) is None,
{
}

/// Blank lines and comments change nothing, and neither does a line outside of any declaration that
/// belongs into one.
pub proof fn lemma_idle_lines(p: Place)
    requires
        p.frame.pos < p.frame.lines.len(),
        next_line_of(p).len() == 0 || next_line_of(p)[0] == '#' || ((next_is(p, "depends"@)
            || next_is(p, "select"@) || next_is(p, "imply"@) || next_is(p, "bool"@) || next_is(
            p,
            "tristate"@,
        ) || next_is(p, "int"@) || next_is(p, "hex"@) || next_is(p, "string"@))
            && p.frame.current is None),
    ensures
        after_line(p) == (Place {
            frame: FrameView { pos: p.frame.pos + 1, ..p.frame },
            ..p
        }),
        source_of(p) is None,
{
    lemma_keywords_differ();
    lemma_types_differ();
}

/// Between `choice` and `endchoice`, symbols belong to one choice; outside, to none.
pub proof fn lemma_choices_nest(p: Place, q: Place)
    ensures
        next_is(p, "choice"@) ==> after_line(p).frame.choice_group is Some
            && after_line(p).frame.choice_depth == p.frame.choice_depth + 1,
        next_is(q, "endchoice"@) && q.frame.choice_depth <= 1 ==> after_line(q).frame.choice_group
            is None && after_line(q).frame.choice_depth == 0,
        next_is(q, "endchoice"@) && q.frame.choice_depth > 1 ==> after_line(q).frame.choice_group
            == q.frame.choice_group && after_line(q).frame.choice_depth + 1
            == q.frame.choice_depth,
{
    lemma_keywords_differ();
}

/// A choice bears the name that a prompt on the next line gives it; that line is read with it. One
/// without a prompt is numbered by the symbols that are finished.
pub proof fn lemma_choices_are_named(p: Place)
    requires
        next_is(p, "choice"@),
        p.frame.current is None,
    ensures
        ({
            let after = after_line(p).frame;
            let at = p.frame.pos + 1;
            if at < p.frame.lines.len() && "prompt"@.is_prefix_of(
                trimmed(p.frame.lines[at as int]),
            ) {
                after.pos == at + 1 && after.choice_group == Some(
                    argument(trimmed(p.frame.lines[at as int]), "prompt"@),
                )
            } else {
                after.pos == at && after.choice_group == Some(
                    "choice_"@ + decimal(p.symbols.len()),
                )
            }
        }),
{
    lemma_keywords_differ();
}

// ── Files ─────────────────────────────────────────────────────────────────────

/// A file is read from its first logical line on, outside of any declaration and of any choice.
pub proof fn lemma_files_begin(file: nat, text: Seq<char>, frames: Seq<FrameView>)
    ensures
        entered(file, text, frames).file == file,
        entered(file, text, frames).pos == 0,
        entered(file, text, frames).lines == logical_lines(text),
        entered(file, text, frames).current is None,
        entered(file, text, frames).choice_group is None,
        entered(file, text, frames).choice_depth == 0,
{
}

/// A file is asked for by the lines that begin with `source`, `osource` or `rsource`, relative to
/// the file with the line by the last of these alone.
pub proof fn lemma_sources_are_asked_for(p: Place)
    requires
        p.frame.pos < p.frame.lines.len(),
    ensures
        source_of(p) is Some <==> next_is(p, "source"@) || next_is(p, "rsource"@) || next_is(
            p,
            "osource"@,
        ),
        next_is(p, "rsource"@) ==> source_of(p)->0.relative,
        next_is(p, "source"@) || next_is(p, "osource"@) ==> !source_of(p)->0.relative,
{
    lemma_keywords_differ();
}

/// A file that is brought in stands under every condition that the place stands under that brings
/// it in, those around the whole file of that place included, and under no other. The first file
/// stands under none.
pub proof fn lemma_sourced_under_all(
    file: nat,
    text: Seq<char>,
    frames: Seq<FrameView>,
    v: Map<Seq<char>, Seq<char>>,
)
    ensures
        frames.len() > 0 ==> (all_hold(entered(file, text, frames).conditions, v) <==> all_hold(
            frames.last().conditions,
            v,
        )),
        frames.len() == 0 ==> all_hold(entered(file, text, frames).conditions, v),
        frames.len() > 0 ==> forall|i: int|
            0 <= i < frames.last().conditions.len() ==> entered(
                file,
                text,
                frames,
            ).conditions.contains(#[trigger] frames.last().conditions[i]),
{
    if frames.len() > 0 {
        let c = frames.last().conditions;
        assert forall|i: int| 0 <= i < c.len() implies entered(
            file,
            text,
            frames,
        ).conditions.contains(#[trigger] c[i]) by {
            assert(entered(file, text, frames).conditions[i] == c[i]);
        }
    }
}

/// Bringing in a file from outside of any choice is like writing its lines in place of the line that
/// brings it in: the first of them finds the place as that line leaves it.
pub proof fn lemma_sourced_reads_in_place(
    file: nat,
    text: Seq<char>,
    frames: Seq<FrameView>,
    symbols: Map<Seq<char>, SymbolView>,
)
    requires
        frames.len() > 0,
        frames.last().current is None,
        frames.last().choice_group is None,
        frames.last().choice_depth == 0,
        logical_lines(text).len() > 0,
    ensures
        ({
            let there = after_line(Place { symbols, frame: entered(file, text, frames) });
            let here = after_line(
                Place {
                    symbols,
                    frame: FrameView { lines: logical_lines(text), pos: 0, ..frames.last() },
                },
            );
            &&& there.symbols == here.symbols
            &&& there.frame.conditions == here.frame.conditions
            &&& there.frame.current == here.frame.current
            &&& there.frame.choice_group == here.frame.choice_group
            &&& there.frame.choice_depth == here.frame.choice_depth
            &&& there.frame.pos == here.frame.pos
        }),
{
}

/// A symbol that is declared at the top of a file depends on all conditions around the line that
/// brings the file in.
pub proof fn lemma_sourced_symbol_under_all(
    file: nat,
    text: Seq<char>,
    frames: Seq<FrameView>,
    symbols: Map<Seq<char>, SymbolView>,
    v: Map<Seq<char>, Seq<char>>,
)
    requires
        frames.len() > 0,
        ({
            let p = Place { symbols, frame: entered(file, text, frames) };
            next_is(p, "config"@) || next_is(p, "menuconfig"@)
        }),
    ensures
        ({
            let s = after_line(
                Place { symbols, frame: entered(file, text, frames) },
            ).frame.current;
            s is Some && (dependencies_hold(s->0.depends_on, v) <==> all_hold(
                frames.last().conditions,
                v,
            ))
        }),
{
    lemma_declared_under_all(Place { symbols, frame: entered(file, text, frames) }, v);
    lemma_sourced_under_all(file, text, frames, v);
}

/// A symbol at the top of a file that is brought in from within two blocks, one in the other, depends
/// on both their conditions, and on those around the outer one.
pub proof fn lemma_sourced_from_two_blocks(
    p: Place,
    outer: Seq<FrameView>,
    file: nat,
    text: Seq<char>,
    v: Map<Seq<char>, Seq<char>>,
)
    requires
        next_is(p, "if"@),
        next_is(after_line(p), "if"@),
        is_source(first_word(next_line_of(after_line(after_line(p))))),
        next_is(
            after_line(after_line(p)),
            first_word(next_line_of(after_line(after_line(p)))),
        ),
        if_text(next_line_of(p)).len() > 0,
        if_text(next_line_of(after_line(p))).len() > 0,
        ({
            let at = after_line(after_line(after_line(p)));
            let q = Place {
                symbols: at.symbols,
                frame: entered(file, text, outer.push(at.frame)),
            };
            next_is(q, "config"@) || next_is(q, "menuconfig"@)
        }),
    ensures
        ({
            let at = after_line(after_line(after_line(p)));
            let s = after_line(
                Place { symbols: at.symbols, frame: entered(file, text, outer.push(at.frame)) },
            ).frame.current;
            s is Some && (dependencies_hold(s->0.depends_on, v) <==> all_hold(
                p.frame.conditions,
                v,
            ) && holds(text_expr(if_text(next_line_of(p))), v) && holds(
                text_expr(if_text(next_line_of(after_line(p)))),
                v,
            ))
        }),
{
    lemma_keywords_differ();
    let p1 = after_line(p);
    let p2 = after_line(p1);
    let p3 = after_line(p2);
    lemma_blocks_nest(p, v);
    lemma_blocks_nest(p1, v);
    lemma_blocks_nest(p2, v);
    assert(p3.frame.conditions == p2.frame.conditions);
    let frames = outer.push(p3.frame);
    assert(frames.last() == p3.frame);
    lemma_sourced_symbol_under_all(file, text, frames, p3.symbols, v);
}

// ── The whole tree ────────────────────────────────────────────────────────────

/// What reading on does first: it reads the next line of the innermost file, or leaves that file at
/// its end, which finishes the symbol being declared there.
pub proof fn lemma_run_reads_on(symbols: Map<Seq<char>, SymbolView>, frames: Seq<FrameView>)
    requires
        frames.len() > 0,
    ensures
        ({
            let top = frames.last();
            let p = Place { symbols, frame: top };
            let next = frames.drop_last().push(after_line(p).frame);
            if top.pos >= top.lines.len() {
                run(symbols, frames) == run(
                    match top.current {
                        Some(s) => symbols.insert(s.name, s),
                        None => symbols,
                    },
                    frames.drop_last(),
                )
            } else if source_of(p) is Some {
                run(symbols, frames) == (
                    after_line(p).symbols,
                    next,
                    Some(IncludeView { from: top.file, source: source_of(p)->0 }),
                )
            } else {
                run(symbols, frames) == run(after_line(p).symbols, next)
            }
        }),
{
    reveal_with_fuel(run, 2);
    assert(flushed(symbols, frames.last().current) == match frames.last().current {
        Some(s) => symbols.insert(s.name, s),
        None => symbols,
    });
}

/// Once everything has been read, every symbol that was being declared is among the finished ones.
pub proof fn lemma_every_symbol_is_finished(
    symbols: Map<Seq<char>, SymbolView>,
    frames: Seq<FrameView>,
    i: int,
)
    requires
        0 <= i < frames.len(),
        frames[i].current is Some,
        run(symbols, frames).2 is None,
    ensures
        run(symbols, frames).0.contains_key(frames[i].current->0.name),
    decreases frames.len(), frames.last().lines.len() - frames.last().pos,
{
    let top = frames.last();
    let p = Place { symbols, frame: top };
    let name = frames[i].current->0.name;
    lemma_run_reads_on(symbols, frames);
    if top.pos >= top.lines.len() {
        let more = flushed(symbols, top.current);
        if i < frames.len() - 1 {
            assert(frames.drop_last()[i] == frames[i]);
            lemma_every_symbol_is_finished(more, frames.drop_last(), i);
        } else {
            assert(more.contains_key(name));
            crate::kconfig::loader::lemma_symbols_stay(more, frames.drop_last());
        }
    } else {
        lemma_line_moves(p);
        let after = after_line(p);
        let next = frames.drop_last().push(after.frame);
        assert(next.last() == after.frame);
        if i < frames.len() - 1 {
            assert(next[i] == frames[i]);
            lemma_every_symbol_is_finished(after.symbols, next, i);
        } else {
            lemma_current_is_kept(p);
            if after.symbols.contains_key(name) {
                crate::kconfig::loader::lemma_symbols_stay(after.symbols, next);
            } else {
                assert(next[i] == after.frame);
                lemma_every_symbol_is_finished(after.symbols, next, i);
            }
        }
    }
}

} // verus!
