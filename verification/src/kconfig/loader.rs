//! Reading a tree of Kconfig files.
//!
//! The loader holds what has been read and where in which file it stands. It never touches a file
//! system: when a line brings in another file it asks for that file and goes on once it has been
//! given the text, or has been told nothing more of it.
use crate::kconfig::expr::{ConfigExpr, Expr};
use crate::kconfig::graph::{
    optional_text, symbol_views, target_views, KconfigGraph, Symbol, SymbolKind, SymbolView,
};
use crate::kconfig::lines::{
    and_with_stack, argument, char_lists, declared_name, depends_text, effective,
    effective_condition, expr_views, first_word, if_text, join_continuations, kind_of,
    logical_lines, parse_select_line, read_argument, read_declared_name, read_depends,
    read_first_word, read_if, read_kind, select_of, under,
};
use crate::kconfig::parse::text_expr;
use crate::names::{NameMap, NameSet};
use crate::number::{decimal, to_decimal};
use crate::text::{is_word, starts_with, string_of, trim, trimmed};
use vstd::prelude::*;

verus! {

/// A file that is being read.
struct Frame {
    file: usize,
    lines: Vec<Vec<char>>,
    pos: usize,
    /// The conditions of the `if` blocks around the place, those around the whole file included.
    if_stack: Vec<ConfigExpr>,
    /// The symbol whose declaration is being read.
    cur_sym: Option<Symbol>,
    /// The name of the choice block around the place.
    choice_group: Option<String>,
    choice_depth: usize,
}

/// What a file that is being read has come to.
pub ghost struct FrameView {
    pub file: nat,
    pub lines: Seq<Seq<char>>,
    pub pos: nat,
    pub conditions: Seq<Expr>,
    pub current: Option<SymbolView>,
    pub choice_group: Option<Seq<char>>,
    pub choice_depth: nat,
}

/// What an optional symbol says.
pub open spec fn optional_symbol(s: Option<Symbol>) -> Option<SymbolView> {
    match s {
        Some(x) => Some(x@),
        None => None,
    }
}

impl View for Frame {
    type V = FrameView;

    closed spec fn view(&self) -> FrameView {
        FrameView {
            file: self.file as nat,
            lines: char_lists(self.lines@),
            pos: self.pos as nat,
            conditions: expr_views(self.if_stack@),
            current: optional_symbol(self.cur_sym),
            choice_group: optional_text(self.choice_group),
            choice_depth: self.choice_depth as nat,
        }
    }
}

impl Frame {
    spec fn wf(self) -> bool {
        self.choice_depth <= self.pos <= self.lines@.len()
    }
}

// ── What a line does ──────────────────────────────────────────────────────────

/// What has been read of a tree: the finished symbols, and the file at the place.
pub ghost struct Place {
    pub symbols: Map<Seq<char>, SymbolView>,
    pub frame: FrameView,
}

/// The symbols once the one being read is finished.
pub open spec fn flushed(
    symbols: Map<Seq<char>, SymbolView>,
    current: Option<SymbolView>,
) -> Map<Seq<char>, SymbolView> {
    match current {
        Some(s) => symbols.insert(s.name, s),
        None => symbols,
    }
}

/// The place once the symbol being read is finished.
pub open spec fn closed_symbol(p: Place) -> Place {
    Place {
        symbols: flushed(p.symbols, p.frame.current),
        frame: FrameView { current: None, ..p.frame },
    }
}

/// The place with another symbol being read.
pub open spec fn with_current(p: Place, current: Option<SymbolView>) -> Place {
    Place { frame: FrameView { current, ..p.frame }, ..p }
}

/// A symbol that has just been declared.
pub open spec fn new_symbol(
    name: Seq<char>,
    conditions: Seq<Expr>,
    choice_group: Option<Seq<char>>,
) -> SymbolView {
    SymbolView {
        name,
        kind: SymbolKind::Bool,
        depends_on: effective(conditions),
        selects: seq![],
        implies: seq![],
        choice_group,
    }
}

/// The symbol with one more expression to depend on.
pub open spec fn also_depending(s: SymbolView, e: Expr) -> SymbolView {
    SymbolView {
        depends_on: Some(
            match s.depends_on {
                None => e,
                Some(d) => Expr::And(Box::new(d), Box::new(e)),
            },
        ),
        ..s
    }
}

/// What a line that continues the declaration of the symbol `s` makes of it.
pub open spec fn declared_further(
    s: SymbolView,
    word: Seq<char>,
    line: Seq<char>,
    conditions: Seq<Expr>,
) -> SymbolView {
    if kind_of(word) is Some {
        SymbolView { kind: kind_of(word)->0, ..s }
    } else if word == "depends"@ {
        if depends_text(line).len() > 0 {
            also_depending(s, under(conditions, text_expr(depends_text(line))))
        } else {
            s
        }
    } else if word == "select"@ {
        match select_of(line) {
            Some(t) => SymbolView { selects: s.selects.push(t), ..s },
            None => s,
        }
    } else if word == "imply"@ {
        match select_of(line) {
            Some(t) => SymbolView { implies: s.implies.push(t), ..s },
            None => s,
        }
    } else {
        s
    }
}

/// Whether a line with this first word continues the declaration of a symbol.
pub open spec fn is_attribute(word: Seq<char>) -> bool {
    kind_of(word) is Some || word == "depends"@ || word == "select"@ || word == "imply"@
}

/// Whether a line with this first word only ends the declaration of a symbol.
pub open spec fn is_divider(word: Seq<char>) -> bool {
    word == "menu"@ || word == "mainmenu"@ || word == "comment"@ || word == "endmenu"@
}

/// Whether a line with this first word brings in another file.
pub open spec fn is_source(word: Seq<char>) -> bool {
    word == "source"@ || word == "rsource"@ || word == "osource"@
}

/// The place behind a `choice` line. A prompt on the next line names the choice and is passed over;
/// without one the name is made from the number of finished symbols.
pub open spec fn after_choice(p: Place) -> Place {
    let f = p.frame;
    let prompted = f.pos < f.lines.len() && "prompt"@.is_prefix_of(trimmed(f.lines[f.pos as int]));
    Place {
        frame: FrameView {
            pos: if prompted {
                f.pos + 1
            } else {
                f.pos
            },
            choice_group: Some(
                if prompted {
                    argument(trimmed(f.lines[f.pos as int]), "prompt"@)
                } else {
                    "choice_"@ + decimal(p.symbols.len())
                },
            ),
            choice_depth: f.choice_depth + 1,
            ..f
        },
        ..p
    }
}

/// The place behind an `endchoice` line.
pub open spec fn after_endchoice(p: Place) -> Place {
    let f = p.frame;
    let depth = if f.choice_depth > 0 {
        (f.choice_depth - 1) as nat
    } else {
        0
    };
    Place {
        frame: FrameView {
            choice_depth: depth,
            choice_group: if depth == 0 {
                None
            } else {
                f.choice_group
            },
            ..f
        },
        ..p
    }
}

/// The place behind an `if` line.
pub open spec fn after_if(p: Place, line: Seq<char>) -> Place {
    if if_text(line).len() > 0 {
        Place {
            frame: FrameView {
                conditions: p.frame.conditions.push(text_expr(if_text(line))),
                ..p.frame
            },
            ..p
        }
    } else {
        p
    }
}

/// The place behind an `endif` line.
pub open spec fn after_endif(p: Place) -> Place {
    if p.frame.conditions.len() > 0 {
        Place {
            frame: FrameView { conditions: p.frame.conditions.drop_last(), ..p.frame },
            ..p
        }
    } else {
        p
    }
}

/// The place behind the line `line`, which begins with `word`; `p` stands behind the line and is
/// otherwise as it was in front of it.
pub open spec fn after_directive(p: Place, word: Seq<char>, line: Seq<char>) -> Place {
    if word == "config"@ || word == "menuconfig"@ {
        with_current(
            closed_symbol(p),
            Some(new_symbol(declared_name(line), p.frame.conditions, p.frame.choice_group)),
        )
    } else if is_attribute(word) {
        match p.frame.current {
            Some(s) => with_current(
                p,
                Some(declared_further(s, word, line, p.frame.conditions)),
            ),
            None => p,
        }
    } else if word == "if"@ {
        after_if(closed_symbol(p), line)
    } else if word == "endif"@ {
        after_endif(closed_symbol(p))
    } else if word == "choice"@ {
        after_choice(closed_symbol(p))
    } else if word == "endchoice"@ {
        after_endchoice(closed_symbol(p))
    } else if is_divider(word) || is_source(word) {
        closed_symbol(p)
    } else {
        p
    }
}

/// A file that a line brings in: whether it is named relative to the file with the line, and how
/// it is named.
pub ghost struct SourceView {
    pub relative: bool,
    pub raw: Seq<char>,
}

/// Whether a line is blank or a comment.
pub open spec fn is_idle_line(line: Seq<char>) -> bool {
    line.len() == 0 || line[0] == '#'
}

/// The place behind the next line.
pub open spec fn after_line(p: Place) -> Place {
    let line = trimmed(p.frame.lines[p.frame.pos as int]);
    let behind = Place { frame: FrameView { pos: p.frame.pos + 1, ..p.frame }, ..p };
    if is_idle_line(line) {
        behind
    } else {
        after_directive(behind, first_word(line), line)
    }
}

/// The file that the next line brings in.
pub open spec fn source_of(p: Place) -> Option<SourceView> {
    let line = trimmed(p.frame.lines[p.frame.pos as int]);
    let word = first_word(line);
    if !is_idle_line(line) && is_source(word) {
        Some(SourceView { relative: word == "rsource"@, raw: argument(line, word) })
    } else {
        None
    }
}

// ── Executing lines ───────────────────────────────────────────────────────────

/// The place that finished symbols and a file make up.
spec fn place_of(symbols: NameMap<Symbol>, f: Frame) -> Place {
    Place { symbols: symbol_views(symbols@), frame: f@ }
}

/// Finishes the symbol that is being read.
fn flush(symbols: &mut NameMap<Symbol>, f: &mut Frame)
    requires
        old(f).wf(),
    ensures
        final(f).wf(),
        place_of(*final(symbols), *final(f)) == closed_symbol(place_of(*old(symbols), *old(f))),
        final(f).lines == old(f).lines,
        final(f).pos == old(f).pos,
        final(f).if_stack == old(f).if_stack,
        final(f).choice_group == old(f).choice_group,
        final(f).choice_depth == old(f).choice_depth,
{
    let ghost before = symbols@;
    match f.cur_sym.take() {
        Some(sym) => {
            symbols.insert(sym.name.clone(), sym);
            assert(symbol_views(symbols@) =~= symbol_views(before).insert(sym@.name, sym@));
        },
        None => {},
    }
}

/// Starts the declaration of a symbol.
fn declare(symbols: &mut NameMap<Symbol>, f: &mut Frame, line: &[char])
    requires
        old(f).wf(),
    ensures
        final(f).wf(),
        ({
            let p = place_of(*old(symbols), *old(f));
            place_of(*final(symbols), *final(f)) == with_current(
                closed_symbol(p),
                Some(new_symbol(declared_name(line@), p.frame.conditions, p.frame.choice_group)),
            )
        }),
{
    flush(symbols, f);
    let name = read_declared_name(line);
    let depends_on = effective_condition(&f.if_stack);
    let choice_group = match &f.choice_group {
        Some(g) => Some(g.clone()),
        None => None,
    };
    let selects: Vec<(String, ConfigExpr)> = Vec::new();
    let implies: Vec<(String, ConfigExpr)> = Vec::new();
    assert(target_views(selects@) =~= seq![]);
    assert(target_views(implies@) =~= seq![]);
    f.cur_sym = Some(
        Symbol { name, kind: SymbolKind::Bool, depends_on, selects, implies, choice_group },
    );
}

/// Adds what the line says to the symbol that is being declared.
fn declare_further(sym: Symbol, word: &[char], line: &[char], stack: &Vec<ConfigExpr>) -> (more:
    Symbol)
    ensures
        more@ == declared_further(sym@, word@, line@, expr_views(stack@)),
{
    let mut sym = sym;
    let ghost before = sym@;
    if let Some(kind) = read_kind(word) {
        sym.kind = kind;
    } else if is_word(word, "depends") {
        if let Some(extra) = read_depends(line) {
            let extra = and_with_stack(extra, stack);
            sym.depends_on = match sym.depends_on.take() {
                None => Some(extra),
                Some(existing) => Some(ConfigExpr::And(Box::new(existing), Box::new(extra))),
            };
        }
    } else if is_word(word, "select") {
        if let Some(select) = parse_select_line(line) {
            let ghost t = (select.0@, select.1@);
            sym.selects.push(select);
            assert(target_views(sym.selects@) =~= before.selects.push(t));
        }
    } else if is_word(word, "imply") {
        if let Some(select) = parse_select_line(line) {
            let ghost t = (select.0@, select.1@);
            sym.implies.push(select);
            assert(target_views(sym.implies@) =~= before.implies.push(t));
        }
    }
    sym
}

/// Enters a choice block.
fn enter_choice(symbols: &NameMap<Symbol>, f: &mut Frame)
    requires
        old(f).wf(),
        old(f).choice_depth < old(f).pos,
    ensures
        final(f).wf(),
        place_of(*symbols, *final(f)) == after_choice(place_of(*symbols, *old(f))),
{
    let mut group = "choice_".to_owned();
    let mut prompted = false;
    if f.pos < f.lines.len() {
        let next = trim(f.lines[f.pos].as_slice());
        assert(f@.lines[f.pos as int] == f.lines@[f.pos as int]@);
        if starts_with(next, "prompt") {
            prompted = true;
            group = read_argument(next, "prompt");
        }
    }
    if prompted {
        f.pos += 1;
    } else {
        assert(symbol_views(symbols@).dom() =~= symbols@.dom());
        group.append(to_decimal(symbols.len() as u128).as_str());
    }
    f.choice_group = Some(group);
    f.choice_depth += 1;
}

/// Leaves a choice block.
fn leave_choice(symbols: &NameMap<Symbol>, f: &mut Frame)
    requires
        old(f).wf(),
    ensures
        final(f).wf(),
        place_of(*symbols, *final(f)) == after_endchoice(place_of(*symbols, *old(f))),
{
    if f.choice_depth > 0 {
        f.choice_depth -= 1;
    }
    if f.choice_depth == 0 {
        f.choice_group = None;
    }
}

/// Enters an `if` block.
fn enter_if(symbols: &NameMap<Symbol>, f: &mut Frame, line: &[char])
    requires
        old(f).wf(),
    ensures
        final(f).wf(),
        place_of(*symbols, *final(f)) == after_if(place_of(*symbols, *old(f)), line@),
{
    let ghost before = f@.conditions;
    if let Some(cond) = read_if(line) {
        let ghost c = cond@;
        f.if_stack.push(cond);
        assert(expr_views(f.if_stack@) =~= before.push(c));
    }
}

/// Leaves an `if` block.
fn leave_if(symbols: &NameMap<Symbol>, f: &mut Frame)
    requires
        old(f).wf(),
    ensures
        final(f).wf(),
        place_of(*symbols, *final(f)) == after_endif(place_of(*symbols, *old(f))),
{
    let ghost before = f@.conditions;
    if f.if_stack.len() > 0 {
        let _ = f.if_stack.pop();
        assert(expr_views(f.if_stack@) =~= before.drop_last());
    }
}

/// Whether the word continues the declaration of a symbol.
fn is_attribute_word(word: &[char]) -> (yes: bool)
    ensures
        yes == is_attribute(word@),
{
    read_kind(word).is_some() || is_word(word, "depends") || is_word(word, "select") || is_word(
        word,
        "imply",
    )
}

/// Whether the word only ends the declaration of a symbol.
fn is_divider_word(word: &[char]) -> (yes: bool)
    ensures
        yes == is_divider(word@),
{
    is_word(word, "menu") || is_word(word, "mainmenu") || is_word(word, "comment") || is_word(
        word,
        "endmenu",
    )
}

/// Whether the word brings in another file.
fn is_source_word(word: &[char]) -> (yes: bool)
    ensures
        yes == is_source(word@),
{
    is_word(word, "source") || is_word(word, "rsource") || is_word(word, "osource")
}

/// Does what the line says.
fn execute(symbols: &mut NameMap<Symbol>, f: &mut Frame, word: &[char], line: &[char])
    requires
        old(f).wf(),
        old(f).choice_depth < old(f).pos,
    ensures
        final(f).wf(),
        place_of(*final(symbols), *final(f)) == after_directive(
            place_of(*old(symbols), *old(f)),
            word@,
            line@,
        ),
{
    if is_word(word, "config") || is_word(word, "menuconfig") {
        declare(symbols, f, line);
    } else if is_attribute_word(word) {
        match f.cur_sym.take() {
            Some(sym) => {
                let more = declare_further(sym, word, line, &f.if_stack);
                f.cur_sym = Some(more);
            },
            None => {},
        }
    } else if is_word(word, "if") {
        flush(symbols, f);
        enter_if(symbols, f, line);
    } else if is_word(word, "endif") {
        flush(symbols, f);
        leave_if(symbols, f);
    } else if is_word(word, "choice") {
        flush(symbols, f);
        enter_choice(symbols, f);
    } else if is_word(word, "endchoice") {
        flush(symbols, f);
        leave_choice(symbols, f);
    } else if is_divider_word(word) || is_source_word(word) {
        flush(symbols, f);
    }
}

/// A file that a line brings in.
struct Source {
    relative: bool,
    raw: String,
}

/// Every line moves the place forward within its file.
pub proof fn lemma_line_moves(p: Place)
    requires
        p.frame.pos < p.frame.lines.len(),
    ensures
        after_line(p).frame.lines == p.frame.lines,
        after_line(p).frame.file == p.frame.file,
        p.frame.pos < after_line(p).frame.pos <= p.frame.lines.len(),
{
}

/// Does what the next line says, and tells which file it brings in.
fn next_line(symbols: &mut NameMap<Symbol>, f: &mut Frame) -> (source: Option<Source>)
    requires
        old(f).wf(),
        old(f).pos < old(f).lines@.len(),
    ensures
        final(f).wf(),
        place_of(*final(symbols), *final(f)) == after_line(place_of(*old(symbols), *old(f))),
        match source {
            Some(s) => source_of(place_of(*old(symbols), *old(f))) == Some(
                SourceView { relative: s.relative, raw: s.raw@ },
            ),
            None => source_of(place_of(*old(symbols), *old(f))) is None,
        },
{
    let count: usize = f.lines.len();
    assert(f.pos < count);
    let chars = clone_chars(&f.lines[f.pos]);
    let line = trim(chars.as_slice());
    assert(f@.lines[f.pos as int] == f.lines@[f.pos as int]@);
    f.pos += 1;
    if line.len() == 0 || line[0] == '#' {
        return None;
    }
    let word = read_first_word(line);
    execute(symbols, f, word.as_slice(), line);
    if is_source_word(word.as_slice()) {
        let relative = is_word(word.as_slice(), "rsource");
        Some(Source { relative, raw: read_argument(line, string_of(word.as_slice()).as_str()) })
    } else {
        None
    }
}

/// An owned copy of a line.
fn clone_chars(line: &Vec<char>) -> (copy: Vec<char>)
    ensures
        copy@ == line@,
{
    let mut copy: Vec<char> = Vec::new();
    for i in 0..line.len()
        invariant
            copy@ == line@.take(i as int),
    {
        copy.push(line[i]);
    }
    assert(line@.take(line@.len() as int) =~= line@);
    copy
}

// ── The loader ────────────────────────────────────────────────────────────────

/// Reads a tree of Kconfig files.
pub struct KconfigLoader {
    symbols: NameMap<Symbol>,
    visited: NameSet,
    frames: Vec<Frame>,
}

/// What the loader wants next.
#[derive(Debug)]
pub enum Request {
    /// Nothing: everything has been read.
    Done,
    /// The file that is named `raw` in file `from`, relative to the directory of that file if
    /// `relative`, else to the root of the source tree. It may not exist.
    Include { from: usize, relative: bool, raw: String },
}

/// What a loader has come to: the finished symbols, the keys of the files that have been entered,
/// and the files that are being read, the innermost last.
pub ghost struct LoaderView {
    pub symbols: Map<Seq<char>, SymbolView>,
    pub visited: Set<Seq<char>>,
    pub frames: Seq<FrameView>,
}

/// A file that is wanted.
pub ghost struct IncludeView {
    pub from: nat,
    pub source: SourceView,
}

/// What a request says.
pub open spec fn wanted_by(request: Request) -> Option<IncludeView> {
    match request {
        Request::Done => None,
        Request::Include { from, relative, raw } => Some(
            IncludeView { from: from as nat, source: SourceView { relative, raw: raw@ } },
        ),
    }
}

impl KconfigLoader {
    /// What the files that are being read have come to.
    spec fn frame_views(self) -> Seq<FrameView> {
        frames_of(self.frames@)
    }

    /// The invariant of a loader.
    pub closed spec fn wf(self) -> bool {
        forall|i: int| 0 <= i < self.frames@.len() ==> (#[trigger] self.frames@[i]).wf()
    }
}

spec fn frames_of(v: Seq<Frame>) -> Seq<FrameView> {
    Seq::new(v.len(), |i: int| v[i]@)
}

impl View for KconfigLoader {
    type V = LoaderView;

    closed spec fn view(&self) -> LoaderView {
        LoaderView {
            symbols: symbol_views(self.symbols@),
            visited: self.visited@,
            frames: self.frame_views(),
        }
    }
}

/// The file at its start, under the conditions around the place that brought it in.
pub open spec fn entered(file: nat, text: Seq<char>, frames: Seq<FrameView>) -> FrameView {
    FrameView {
        file,
        lines: logical_lines(text),
        pos: 0,
        conditions: if frames.len() > 0 {
            frames.last().conditions
        } else {
            seq![]
        },
        current: None,
        choice_group: None,
        choice_depth: 0,
    }
}

/// What reading on comes to: up to the next line that brings in a file, through the ends of the
/// files that are being read, or to the end of all of them.
#[verifier::opaque]
pub open spec fn run(symbols: Map<Seq<char>, SymbolView>, frames: Seq<FrameView>) -> (
    Map<Seq<char>, SymbolView>,
    Seq<FrameView>,
    Option<IncludeView>,
)
    decreases
            frames.len(),
            if frames.len() > 0 {
                frames.last().lines.len() - frames.last().pos
            } else {
                0
            },
{
    if frames.len() == 0 {
        (symbols, frames, None)
    } else {
        let top = frames.last();
        if top.pos >= top.lines.len() {
            run(flushed(symbols, top.current), frames.drop_last())
        } else {
            let p = Place { symbols, frame: top };
            let after = after_line(p);
            let next = frames.drop_last().push(after.frame);
            proof {
                lemma_line_moves(p);
            }
            match source_of(p) {
                Some(source) => (
                    after.symbols,
                    next,
                    Some(IncludeView { from: top.file, source }),
                ),
                None => run(after.symbols, next),
            }
        }
    }
}

/// Copies conditions.
fn copy_conditions(stack: &Vec<ConfigExpr>) -> (copy: Vec<ConfigExpr>)
    ensures
        expr_views(copy@) == expr_views(stack@),
{
    let mut copy: Vec<ConfigExpr> = Vec::new();
    for i in 0..stack.len()
        invariant
            copy@.len() == i,
            forall|k: int| 0 <= k < i ==> (#[trigger] copy@[k])@ == stack@[k]@,
    {
        copy.push(stack[i].clone());
    }
    assert(expr_views(copy@) =~= expr_views(stack@));
    copy
}

impl KconfigLoader {
    /// A loader that has read nothing.
    pub fn new() -> (loader: KconfigLoader)
        ensures
            loader.wf(),
            loader@ == (LoaderView {
                symbols: Map::empty(),
                visited: Set::empty(),
                frames: seq![],
            }),
    {
        let loader = KconfigLoader {
            symbols: NameMap::new(),
            visited: NameSet::new(),
            frames: Vec::new(),
        };
        assert(loader@.symbols =~= Map::empty());
        assert(loader@.frames =~= seq![]);
        loader
    }

    /// Marks the file that `key` identifies as entered; says whether it had not been. A file is
    /// read only if this says so, and thus once.
    pub fn begin_file(&mut self, key: &str) -> (new: bool)
        requires
            old(self).wf(),
        ensures
            final(self).wf(),
            new == !old(self)@.visited.contains(key@),
            final(self)@ == (LoaderView {
                visited: old(self)@.visited.insert(key@),
                ..old(self)@
            }),
    {
        self.visited.insert(key.to_owned())
    }

    /// Goes on at the start of the file with the number `file` and the content `text`, under the
    /// conditions around the place reached so far.
    pub fn push_file(&mut self, file: usize, text: &str)
        requires
            old(self).wf(),
        ensures
            final(self).wf(),
            final(self)@ == (LoaderView {
                frames: old(self)@.frames.push(entered(file as nat, text@, old(self)@.frames)),
                ..old(self)@
            }),
            old(self)@.frames.len() > 0 ==> final(self)@.frames.last().conditions == old(
                self,
            )@.frames.last().conditions,
            final(self)@.frames.last().lines == logical_lines(text@),
    {
        let ghost before = self.frame_views();
        let n: usize = self.frames.len();
        let if_stack = if n > 0 {
            assert(before.last() == self.frames@[n - 1]@);
            copy_conditions(&self.frames[n - 1].if_stack)
        } else {
            let none: Vec<ConfigExpr> = Vec::new();
            assert(expr_views(none@) =~= seq![]);
            none
        };
        let frame = Frame {
            file,
            lines: join_continuations(text),
            pos: 0,
            if_stack,
            cur_sym: None,
            choice_group: None,
            choice_depth: 0,
        };
        let ghost fv = frame@;
        self.frames.push(frame);
        assert(self.frame_views() =~= before.push(fv));
    }

    /// Reads one line, or leaves the innermost file at its end. Gives what is wanted next, or
    /// nothing where reading goes on.
    fn step(&mut self) -> (request: Option<Request>)
        requires
            old(self).wf(),
        ensures
            final(self).wf(),
            final(self)@.visited == old(self)@.visited,
            match request {
                Some(r) => run(old(self)@.symbols, old(self)@.frames) == (
                    final(self)@.symbols,
                    final(self)@.frames,
                    wanted_by(r),
                ),
                None => {
                    &&& run(old(self)@.symbols, old(self)@.frames) == run(
                        final(self)@.symbols,
                        final(self)@.frames,
                    )
                    &&& left(final(self)@.frames).0 < left(old(self)@.frames).0 || (left(
                        final(self)@.frames,
                    ).0 == left(old(self)@.frames).0 && left(final(self)@.frames).1 < left(
                        old(self)@.frames,
                    ).1)
                },
            },
    {
        proof {
            reveal_with_fuel(run, 2);
        }
        let ghost now = self@;
        let ghost olds = self.frames@;
        match self.frames.pop() {
            None => {
                assert(self@.frames =~= now.frames);
                Some(Request::Done)
            },
            Some(top) => {
                let mut top = top;
                let ghost t = top@;
                let ghost p = place_of(self.symbols, top);
                proof {
                    assert(olds.last() == top);
                    assert(top.wf());
                    assert(self.frame_views() =~= now.frames.drop_last());
                    assert(now.frames.last() == t);
                }
                if top.pos >= top.lines.len() {
                    flush(&mut self.symbols, &mut top);
                    assert(self.frame_views() =~= now.frames.drop_last());
                    None
                } else {
                    proof {
                        lemma_line_moves(p);
                    }
                    let from = top.file;
                    let source = next_line(&mut self.symbols, &mut top);
                    let ghost after = top@;
                    self.frames.push(top);
                    proof {
                        assert(self.frame_views() =~= now.frames.drop_last().push(after));
                        assert(after == after_line(p).frame);
                    }
                    match source {
                        Some(s) => Some(
                            Request::Include { from, relative: s.relative, raw: s.raw },
                        ),
                        None => None,
                    }
                }
            },
        }
    }

    /// Reads on to the next line that brings in a file, or to the end of everything.
    pub fn advance(&mut self) -> (request: Request)
        requires
            old(self).wf(),
        ensures
            final(self).wf(),
            final(self)@.visited == old(self)@.visited,
            run(old(self)@.symbols, old(self)@.frames) == (
                final(self)@.symbols,
                final(self)@.frames,
                wanted_by(request),
            ),
    {
        let ghost start = self@;
        loop
            invariant
                self.wf(),
                start == old(self)@,
                self@.visited == start.visited,
                run(self@.symbols, self@.frames) == run(start.symbols, start.frames),
            decreases left(self@.frames).0, left(self@.frames).1,
        {
            if let Some(request) = self.step() {
                return request;
            }
        }
    }
}

/// How much there is left to read: the number of files, and of lines in the innermost.
pub open spec fn left(frames: Seq<FrameView>) -> (nat, nat) {
    if frames.len() > 0 && frames.last().pos <= frames.last().lines.len() {
        (frames.len(), (frames.last().lines.len() - frames.last().pos) as nat)
    } else {
        (frames.len(), 0)
    }
}

impl KconfigGraph {
    /// The graph of the symbols that `loader` has read.
    pub fn load(loader: KconfigLoader) -> (g: KconfigGraph)
        ensures
            g@ == loader@.symbols,
    {
        KconfigGraph::for_test(loader.symbols)
    }
}

// ── Laws ──────────────────────────────────────────────────────────────────────

/// What reading one line, or leaving a file at its end, comes to.
#[verifier::opaque]
spec fn stepped(symbols: Map<Seq<char>, SymbolView>, frames: Seq<FrameView>) -> (
    Map<Seq<char>, SymbolView>,
    Seq<FrameView>,
    Option<IncludeView>,
) {
    let top = frames.last();
    if top.pos >= top.lines.len() {
        (flushed(symbols, top.current), frames.drop_last(), None)
    } else {
        let p = Place { symbols, frame: top };
        let wanted = match source_of(p) {
            Some(source) => Some(IncludeView { from: top.file, source }),
            None => None,
        };
        (after_line(p).symbols, frames.drop_last().push(after_line(p).frame), wanted)
    }
}

/// Reading on is reading line by line until a file is wanted.
proof fn lemma_run_steps(symbols: Map<Seq<char>, SymbolView>, frames: Seq<FrameView>)
    ensures
        frames.len() == 0 ==> run(symbols, frames) == (symbols, frames, None::<IncludeView>),
        frames.len() > 0 && stepped(symbols, frames).2 is Some ==> run(symbols, frames) == stepped(
            symbols,
            frames,
        ),
        frames.len() > 0 && stepped(symbols, frames).2 is None ==> run(symbols, frames) == run(
            stepped(symbols, frames).0,
            stepped(symbols, frames).1,
        ),
{
    reveal(stepped);
    reveal_with_fuel(run, 2);
}

/// A line takes no symbol away.
proof fn lemma_line_keeps(p: Place)
    ensures
        p.symbols.dom().subset_of(after_line(p).symbols.dom()),
{
}

proof fn lemma_step_keeps(symbols: Map<Seq<char>, SymbolView>, frames: Seq<FrameView>)
    requires
        frames.len() > 0,
    ensures
        ({
            let (more, next, wanted) = stepped(symbols, frames);
            &&& symbols.dom().subset_of(more.dom())
            &&& next.len() == frames.len() || next.len() == frames.len() - 1
            &&& forall|i: int| 0 <= i < next.len() - 1 ==> #[trigger] next[i] == frames[i]
            &&& next.len() == frames.len() ==> next.last().file == frames.last().file && left(
                next,
            ).1 < left(frames).1
            &&& wanted is Some ==> next.len() == frames.len() && wanted->0.from
                == frames.last().file
        }),
{
    reveal(stepped);
    let top = frames.last();
    let p = Place { symbols, frame: top };
    if top.pos < top.lines.len() {
        lemma_line_moves(p);
        lemma_line_keeps(p);
    }
}

/// Reading on leaves the files around the innermost one alone: where it stops, each of them stands
/// where it stood, under the conditions that it stood under.
pub proof fn lemma_outer_files_wait(
    symbols: Map<Seq<char>, SymbolView>,
    frames: Seq<FrameView>,
    i: int,
)
    requires
        0 <= i < run(symbols, frames).1.len() - 1,
    ensures
        i < frames.len() - 1,
        run(symbols, frames).1[i] == frames[i],
    decreases left(frames).0, left(frames).1,
{
    lemma_run_steps(symbols, frames);
    if frames.len() > 0 {
        lemma_step_keeps(symbols, frames);
        let (more, next, wanted) = stepped(symbols, frames);
        if wanted is None {
            lemma_outer_files_wait(more, next, i);
        }
    }
}

/// Reading on stops for a file just where files remain to be read, and the innermost of them is the
/// one that brings it in.
pub proof fn lemma_stops_for_files(symbols: Map<Seq<char>, SymbolView>, frames: Seq<FrameView>)
    ensures
        run(symbols, frames).2 is None <==> run(symbols, frames).1.len() == 0,
        run(symbols, frames).2 is Some ==> run(symbols, frames).2->0.from == run(
            symbols,
            frames,
        ).1.last().file,
    decreases left(frames).0, left(frames).1,
{
    lemma_run_steps(symbols, frames);
    if frames.len() > 0 {
        lemma_step_keeps(symbols, frames);
        let (more, next, wanted) = stepped(symbols, frames);
        if wanted is None {
            lemma_stops_for_files(more, next);
        }
    }
}

/// A symbol that has been read stays, whatever is read after it.
pub proof fn lemma_symbols_stay(symbols: Map<Seq<char>, SymbolView>, frames: Seq<FrameView>)
    ensures
        symbols.dom().subset_of(run(symbols, frames).0.dom()),
    decreases left(frames).0, left(frames).1,
{
    lemma_run_steps(symbols, frames);
    if frames.len() > 0 {
        lemma_step_keeps(symbols, frames);
        let (more, next, wanted) = stepped(symbols, frames);
        if wanted is None {
            lemma_symbols_stay(more, next);
        }
    }
}

} // verus!
