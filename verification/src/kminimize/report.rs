//! Lines of text for people to read.
use crate::gather::clusters::name_lists;
use crate::kminimize::reduce::{Candidates, Reduction};
use crate::names::NameSet;
use crate::number::{decimal, to_decimal};
use crate::text::texts;
use vstd::prelude::*;

verus! {

// ── Pieces ────────────────────────────────────────────────────────────────────

/// What a noun ends in that `n` things are counted by.
pub open spec fn plural(n: nat) -> Seq<char> {
    if n == 1 {
        ""@
    } else {
        "s"@
    }
}

/// What a noun ends in that `n` things are counted by.
pub fn plural_end(n: u128) -> (end: &'static str)
    ensures
        end@ == plural(n as nat),
{
    if n == 1 {
        ""
    } else {
        "s"
    }
}

/// Names with commas between them.
pub open spec fn comma_list(names: Seq<Seq<char>>) -> Seq<char>
    decreases names.len(),
{
    if names.len() == 0 {
        ""@
    } else if names.len() == 1 {
        names[0]
    } else {
        comma_list(names.drop_last()) + ", "@ + names.last()
    }
}

/// Joins names with commas between them.
pub fn join_comma(names: &Vec<String>) -> (list: String)
    ensures
        list@ == comma_list(texts(names@)),
{
    if names.len() == 0 {
        return "".to_owned();
    }
    let ghost all = texts(names@);
    let mut list = names[0].clone();
    let mut i: usize = 1;
    assert(all.take(1)[0] == all[0]);
    while i < names.len()
        invariant
            1 <= i <= names@.len(),
            all == texts(names@),
            list@ == comma_list(all.take(i as int)),
        decreases names@.len() - i,
    {
        assert(all.take(i + 1).drop_last() =~= all.take(i as int));
        assert(all.take(i + 1).last() == names@[i as int]@);
        list.append(", ");
        list.append(names[i].as_str());
        i += 1;
    }
    assert(all.take(i as int) =~= all);
    list
}

/// `n` blanks.
pub open spec fn blanks(n: nat) -> Seq<char> {
    Seq::new(n, |i: int| ' ')
}

/// `s` with blanks in front, so that it is `width` characters wide at least.
pub open spec fn right_aligned(s: Seq<char>, width: nat) -> Seq<char> {
    if s.len() < width {
        blanks((width - s.len()) as nat) + s
    } else {
        s
    }
}

/// `s` with blanks behind, so that it is `width` characters wide at least.
pub open spec fn left_aligned(s: Seq<char>, width: nat) -> Seq<char> {
    if s.len() < width {
        s + blanks((width - s.len()) as nat)
    } else {
        s
    }
}

fn make_blanks(n: usize) -> (s: String)
    ensures
        s@ == blanks(n as nat),
{
    let mut s = String::new();
    assert(s@ =~= blanks(0));
    for i in 0..n
        invariant
            s@ == blanks(i as nat),
    {
        s.push(' ');
        assert(s@ =~= blanks((i + 1) as nat));
    }
    s
}

/// Puts blanks in front of `s`.
pub fn align_right(s: &str, width: usize) -> (out: String)
    ensures
        out@ == right_aligned(s@, width as nat),
{
    let n: usize = crate::text::chars_of(s).len();
    if n < width {
        let mut out = make_blanks(width - n);
        out.append(s);
        out
    } else {
        s.to_owned()
    }
}

/// Puts blanks behind `s`.
pub fn align_left(s: &str, width: usize) -> (out: String)
    ensures
        out@ == left_aligned(s@, width as nat),
{
    let n: usize = crate::text::chars_of(s).len();
    let mut out = s.to_owned();
    if n < width {
        out.append(make_blanks(width - n).as_str());
    }
    out
}

/// Each of `names` between `before` and `after`.
pub open spec fn wrapped(
    before: Seq<char>,
    names: Seq<Seq<char>>,
    after: Seq<char>,
) -> Seq<Seq<char>> {
    Seq::new(names.len(), |i: int| before + names[i] + after)
}

/// Puts each of `names` between `before` and `after`.
pub fn wrap_each(before: &str, names: &Vec<String>, after: &str) -> (out: Vec<String>)
    ensures
        texts(out@) == wrapped(before@, texts(names@), after@),
{
    let mut out: Vec<String> = Vec::new();
    for i in 0..names.len()
        invariant
            out@.len() == i,
            forall|k: int| 0 <= k < i ==> (#[trigger] out@[k])@ == before@ + names@[k]@ + after@,
    {
        let mut line = before.to_owned();
        line.append(names[i].as_str());
        line.append(after);
        out.push(line);
    }
    assert(texts(out@) =~= wrapped(before@, texts(names@), after@));
    out
}

/// Appends `more` to `lines`.
pub fn add_lines(lines: &mut Vec<String>, more: Vec<String>)
    ensures
        texts(final(lines)@) == texts(old(lines)@) + texts(more@),
{
    let ghost before = lines@;
    let mut more = more;
    let ghost added = more@;
    lines.append(&mut more);
    assert(texts(lines@) =~= texts(before) + texts(added));
}

/// Appends one line to `lines`.
pub fn add_line(lines: &mut Vec<String>, line: String)
    ensures
        texts(final(lines)@) == texts(old(lines)@).push(line@),
{
    let ghost before = lines@;
    lines.push(line);
    assert(texts(lines@) =~= texts(before).push(line@));
}

/// No lines.
pub fn no_lines() -> (lines: Vec<String>)
    ensures
        texts(lines@) == Seq::<Seq<char>>::empty(),
{
    let lines: Vec<String> = Vec::new();
    assert(texts(lines@) =~= Seq::<Seq<char>>::empty());
    lines
}

// ── Candidates ────────────────────────────────────────────────────────────────

/// The number of names in all lists together.
pub open spec fn total_len(lists: Seq<Seq<Seq<char>>>) -> nat
    decreases lists.len(),
{
    if lists.len() == 0 {
        0
    } else {
        total_len(lists.drop_last()) + lists.last().len()
    }
}

fn count_names(clusters: &Vec<Vec<String>>) -> (total: u128)
    ensures
        total == total_len(name_lists(clusters@)),
{
    let ghost all = name_lists(clusters@);
    let mut total: u128 = 0;
    let mut i: usize = 0;
    while i < clusters.len()
        invariant
            i <= clusters@.len(),
            all == name_lists(clusters@),
            total == total_len(all.take(i as int)),
            total <= i * 0xffff_ffff_ffff_ffff,
        decreases clusters@.len() - i,
    {
        proof {
            assert(all.take(i + 1).drop_last() =~= all.take(i as int));
            assert(all.take(i + 1).last() == texts(clusters@[i as int]@));
            assert(i * 0xffff_ffff_ffff_ffff + 0xffff_ffff_ffff_ffff == (i + 1)
                * 0xffff_ffff_ffff_ffff) by (nonlinear_arith);
            assert((i + 1) * 0xffff_ffff_ffff_ffff <= 0xffff_ffff_ffff_ffff
                * 0xffff_ffff_ffff_ffff) by (nonlinear_arith)
                requires
                    i + 1 <= 0xffff_ffff_ffff_ffff,
            ;
        }
        total = total + clusters[i].len() as u128;
        i += 1;
    }
    assert(all.take(i as int) =~= all);
    total
}

/// The headline on what can be disabled.
pub open spec fn safe_line(modules: nat, clusters: nat) -> Seq<char> {
    "Safe to disable — "@ + decimal(modules) + " module"@ + plural(modules) + " in "@ + decimal(
        clusters,
    ) + " cluster"@ + plural(clusters)
}

/// The line on one cluster.
pub open spec fn cluster_line(names: Seq<Seq<char>>) -> Seq<char> {
    "  ["@ + right_aligned(decimal(names.len()), 3) + "]  "@ + comma_list(names)
}

/// The lines on clusters.
pub open spec fn clusters_lines(clusters: Seq<Seq<Seq<char>>>) -> Seq<Seq<char>> {
    seq![safe_line(total_len(clusters), clusters.len())] + Seq::new(
        clusters.len(),
        |i: int| cluster_line(clusters[i]),
    ) + seq![""@]
}

/// The lines on modules that the kernel source does not know.
pub open spec fn skipped_lines(skipped: Seq<Seq<char>>) -> Seq<Seq<char>> {
    if skipped.len() > 0 {
        seq!["Modules not found in kernel source (skipped): "@ + comma_list(skipped), ""@]
    } else {
        seq![]
    }
}

fn report_cluster(cluster: &Vec<String>) -> (line: String)
    ensures
        line@ == cluster_line(texts(cluster@)),
{
    let mut line = "  [".to_owned();
    line.append(align_right(to_decimal(cluster.len() as u128).as_str(), 3).as_str());
    line.append("]  ");
    line.append(join_comma(cluster).as_str());
    line
}

/// Reports clusters.
pub fn report_clusters(clusters: &Vec<Vec<String>>) -> (lines: Vec<String>)
    ensures
        texts(lines@) == clusters_lines(name_lists(clusters@)),
{
    let ghost all = name_lists(clusters@);
    let total = count_names(clusters);
    let count = clusters.len() as u128;
    let mut head = "Safe to disable — ".to_owned();
    head.append(to_decimal(total).as_str());
    head.append(" module");
    head.append(plural_end(total));
    head.append(" in ");
    head.append(to_decimal(count).as_str());
    head.append(" cluster");
    head.append(plural_end(count));
    let ghost h = head@;
    let mut lines = no_lines();
    add_line(&mut lines, head);
    let ghost body = Seq::new(all.len(), |i: int| cluster_line(all[i]));
    assert(texts(lines@) =~= seq![h] + body.take(0));
    for i in 0..clusters.len()
        invariant
            all == name_lists(clusters@),
            body == Seq::new(all.len(), |i: int| cluster_line(all[i])),
            texts(lines@) == seq![h] + body.take(i as int),
    {
        add_line(&mut lines, report_cluster(&clusters[i]));
        assert(texts(lines@) =~= seq![h] + body.take(i + 1));
    }
    assert(body.take(clusters@.len() as int) =~= body);
    add_line(&mut lines, "".to_owned());
    assert(texts(lines@) =~= clusters_lines(all));
    lines
}

/// Reports the modules that the kernel source does not know.
pub fn report_skipped(skipped: &Vec<String>) -> (lines: Vec<String>)
    ensures
        texts(lines@) == skipped_lines(texts(skipped@)),
{
    let mut lines = no_lines();
    if skipped.len() > 0 {
        let mut line = "Modules not found in kernel source (skipped): ".to_owned();
        line.append(join_comma(skipped).as_str());
        add_line(&mut lines, line);
        add_line(&mut lines, "".to_owned());
    }
    assert(texts(lines@) =~= skipped_lines(texts(skipped@)));
    lines
}

/// The lines on candidates.
pub open spec fn candidates_lines(c: Candidates) -> Seq<Seq<char>> {
    clusters_lines(name_lists(c.clusters@)) + skipped_lines(texts(c.skipped@)) + if c.idle.names().len()
        == 0 && c.never_loaded.names().len() == 0 {
        seq!["Nothing to disable — all candidate modules are already off."@]
    } else {
        seq![]
    }
}

/// Reports candidates.
pub fn report_candidates(c: &Candidates) -> (lines: Vec<String>)
    ensures
        texts(lines@) == candidates_lines(*c),
{
    let mut lines = report_clusters(&c.clusters);
    add_lines(&mut lines, report_skipped(&c.skipped));
    if c.idle.is_empty() && c.never_loaded.is_empty() {
        add_line(
            &mut lines,
            "Nothing to disable — all candidate modules are already off.".to_owned(),
        );
    }
    assert(texts(lines@) =~= candidates_lines(*c));
    lines
}

// ── Reductions ────────────────────────────────────────────────────────────────

/// The lines on symbols that are left alone because they would be turned on again.
pub open spec fn forced_lines(names: Seq<Seq<char>>) -> Seq<Seq<char>> {
    if names.len() > 0 {
        seq![
            "Skipping "@ + decimal(names.len()) + " loaded-but-idle symbol"@ + plural(names.len())
                + " — `select`ed by a still-enabled symbol (make oldconfig would restore them):"@,
        ] + wrapped("  "@, names, ""@) + seq![
            "  (use 'module-plan' to find a variant that also disables the selector)"@,
            ""@,
        ]
    } else {
        seq![]
    }
}

/// The lines on symbols of idle modules that are disabled.
pub open spec fn idle_lines(names: Seq<Seq<char>>) -> Seq<Seq<char>> {
    if names.len() > 0 {
        seq![
            "Disabling "@ + decimal(names.len()) + " loaded-but-idle CONFIG symbol"@ + plural(
                names.len(),
            ) + ":"@,
        ] + wrapped("  "@, names, "=n"@) + seq![""@]
    } else {
        seq![]
    }
}

/// What is said of symbols of modules never observed that are left alone.
pub open spec fn note_on_skipped(skipped: nat) -> Seq<char> {
    if skipped > 0 {
        ", "@ + decimal(skipped) + " skipped: forced on by select"@
    } else {
        ""@
    }
}

/// The lines on symbols of modules never observed: of `candidates` of them, `disabled` are disabled.
pub open spec fn never_loaded_lines(candidates: nat, disabled: nat) -> Seq<Seq<char>> {
    if candidates > 0 {
        seq![
            "Never-loaded modules: "@ + decimal(candidates)
                + " built but never observed — disabling "@ + decimal(disabled) + note_on_skipped(
                (candidates - disabled) as nat,
            ),
            ""@,
        ]
    } else {
        seq![]
    }
}

/// The lines on a reduction.
pub open spec fn reduction_lines(r: Reduction) -> Seq<Seq<char>> {
    forced_lines(r.idle_forced.names()) + idle_lines(r.idle.names()) + never_loaded_lines(
        r.never_loaded_candidates as nat,
        r.never_loaded.names().len(),
    ) + if r.idle.names().len() == 0 && r.never_loaded.names().len() == 0 {
        seq!["Nothing left to disable after filtering selected symbols."@]
    } else {
        seq![]
    }
}

fn report_forced(forced: &NameSet) -> (lines: Vec<String>)
    ensures
        texts(lines@) == forced_lines(forced.names()),
{
    let mut lines = no_lines();
    let names = forced.to_vec();
    let count = names.len() as u128;
    assert(forced.names().len() == names@.len());
    if names.len() > 0 {
        let mut head = "Skipping ".to_owned();
        head.append(to_decimal(count).as_str());
        head.append(" loaded-but-idle symbol");
        head.append(plural_end(count));
        head.append(
            " — `select`ed by a still-enabled symbol (make oldconfig would restore them):",
        );
        add_line(&mut lines, head);
        add_lines(&mut lines, wrap_each("  ", &names, ""));
        add_line(
            &mut lines,
            "  (use 'module-plan' to find a variant that also disables the selector)".to_owned(),
        );
        add_line(&mut lines, "".to_owned());
    }
    assert(texts(lines@) =~= forced_lines(forced.names()));
    lines
}

fn report_idle(idle: &NameSet) -> (lines: Vec<String>)
    ensures
        texts(lines@) == idle_lines(idle.names()),
{
    let mut lines = no_lines();
    let names = idle.to_vec();
    let count = names.len() as u128;
    assert(idle.names().len() == names@.len());
    if names.len() > 0 {
        let mut head = "Disabling ".to_owned();
        head.append(to_decimal(count).as_str());
        head.append(" loaded-but-idle CONFIG symbol");
        head.append(plural_end(count));
        head.append(":");
        add_line(&mut lines, head);
        add_lines(&mut lines, wrap_each("  ", &names, "=n"));
        add_line(&mut lines, "".to_owned());
    }
    assert(texts(lines@) =~= idle_lines(idle.names()));
    lines
}

fn report_never_loaded(candidates: usize, disabled: usize) -> (lines: Vec<String>)
    requires
        disabled <= candidates,
    ensures
        texts(lines@) == never_loaded_lines(candidates as nat, disabled as nat),
{
    let mut lines = no_lines();
    if candidates > 0 {
        let mut line = "Never-loaded modules: ".to_owned();
        line.append(to_decimal(candidates as u128).as_str());
        line.append(" built but never observed — disabling ");
        line.append(to_decimal(disabled as u128).as_str());
        let skipped: usize = candidates - disabled;
        let mut note = "".to_owned();
        if skipped > 0 {
            note = ", ".to_owned();
            note.append(to_decimal(skipped as u128).as_str());
            note.append(" skipped: forced on by select");
        }
        line.append(note.as_str());
        add_line(&mut lines, line);
        add_line(&mut lines, "".to_owned());
    }
    assert(texts(lines@) =~= never_loaded_lines(candidates as nat, disabled as nat));
    lines
}

/// Reports a reduction.
pub fn report_reduction(r: &Reduction) -> (lines: Vec<String>)
    requires
        r.never_loaded@.len() <= r.never_loaded_candidates,
    ensures
        texts(lines@) == reduction_lines(*r),
{
    let mut lines = report_forced(&r.idle_forced);
    add_lines(&mut lines, report_idle(&r.idle));
    add_lines(&mut lines, report_never_loaded(r.never_loaded_candidates, r.never_loaded.len()));
    if r.idle.is_empty() && r.never_loaded.is_empty() {
        add_line(
            &mut lines,
            "Nothing left to disable after filtering selected symbols.".to_owned(),
        );
    }
    assert(texts(lines@) =~= reduction_lines(*r));
    lines
}

} // verus!
