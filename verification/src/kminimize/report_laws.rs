//! Reports leave nothing out.
use crate::gather::proc_modules::EntryView;
use crate::gather::ModuleState;
use crate::kbuild::maps::ModuleView;
use crate::kminimize::compare::{
    false_positive_lines, missed_lines, verdict_lines, Comparison,
};
use crate::kminimize::plan::{
    active_line, cascade_lines, conflicts_lines, files_lines, module_lines, modules_lines,
    shown_lines, unconditional_line, variant_lines, variants_lines,
};
use crate::kminimize::reduce::{Candidates, Reduction};
use crate::kminimize::report::{
    candidates_lines, cluster_line, clusters_lines, comma_list, forced_lines, idle_lines,
    never_loaded_lines, reduction_lines, skipped_lines, total_len, wrapped,
};
use crate::kminimize::snapshots::{
    entry_row, lemma_ranked_is_sorted, live_ranked, snapshot_lines, transitional,
    transitional_line, transitional_lines,
};
use crate::kminimize::variants::DisableVariant;
use crate::number::decimal;
use crate::paths::lists::{lemma_path_sorted, lemma_unrepeated, path_sorted, unrepeated};
use crate::paths::sets::has_path;
use crate::paths::steps::same_path;
use crate::text::texts;
use vstd::prelude::*;

verus! {

proof fn lemma_wrapped_has(before: Seq<char>, names: Seq<Seq<char>>, after: Seq<char>, n: Seq<char>)
    requires
        names.contains(n),
    ensures
        wrapped(before, names, after).contains(before + n + after),
{
    let i = choose|i: int| 0 <= i < names.len() && names[i] == n;
    assert(wrapped(before, names, after)[i] == before + n + after);
}

proof fn lemma_sum_has(a: Seq<Seq<char>>, b: Seq<Seq<char>>, x: Seq<char>)
    ensures
        (a + b).contains(x) <==> a.contains(x) || b.contains(x),
{
    if a.contains(x) {
        let i = choose|i: int| 0 <= i < a.len() && a[i] == x;
        assert((a + b)[i] == x);
    }
    if b.contains(x) {
        let i = choose|i: int| 0 <= i < b.len() && b[i] == x;
        assert((a + b)[a.len() + i] == x);
    }
    if (a + b).contains(x) {
        let i = choose|i: int| 0 <= i < (a + b).len() && (a + b)[i] == x;
        if i < a.len() {
            assert(a[i] == x);
        } else {
            assert(b[i - a.len()] == x);
        }
    }
}

/// A list with commas is put together from its parts.
pub proof fn lemma_comma_lists_add_up(a: Seq<Seq<char>>, b: Seq<Seq<char>>, n: Seq<char>)
    ensures
        a.len() > 0 && b.len() > 0 ==> comma_list(a + b) == comma_list(a) + ", "@ + comma_list(b),
        comma_list(seq![n]) == n,
    decreases b.len(),
{
    if a.len() > 0 && b.len() == 1 {
        assert((a + b).drop_last() =~= a);
        assert((a + b).last() == b[0]);
    } else if a.len() > 0 && b.len() > 1 {
        assert((a + b).drop_last() =~= a + b.drop_last());
        lemma_comma_lists_add_up(a, b.drop_last(), n);
        assert(comma_list(a + b) =~= comma_list(a) + ", "@ + comma_list(b));
    }
}

/// All modules of all clusters are counted.
pub proof fn lemma_clusters_are_counted(a: Seq<Seq<Seq<char>>>, b: Seq<Seq<Seq<char>>>)
    ensures
        total_len(a + b) == total_len(a) + total_len(b),
        b.len() == 1 ==> total_len(b) == b[0].len(),
    decreases b.len(),
{
    if b.len() == 0 {
        assert(a + b =~= a);
    } else {
        assert((a + b).drop_last() =~= a + b.drop_last());
        lemma_clusters_are_counted(a, b.drop_last());
    }
}

/// Every cluster has a line with all its modules, in the order of the clusters.
pub proof fn lemma_every_cluster_is_reported(clusters: Seq<Seq<Seq<char>>>, i: int)
    requires
        0 <= i < clusters.len(),
    ensures
        clusters_lines(clusters).len() == clusters.len() + 2,
        clusters_lines(clusters)[i + 1] == cluster_line(clusters[i]),
{
}

/// Every symbol that is disabled because its module is idle has a line, and so has every one that is
/// left alone.
pub proof fn lemma_every_symbol_is_reported(r: Reduction, n: Seq<char>)
    ensures
        r.idle@.contains(n) ==> reduction_lines(r).contains("  "@ + n + "=n"@),
        r.idle_forced@.contains(n) ==> reduction_lines(r).contains("  "@ + n + ""@),
{
    let forced = forced_lines(r.idle_forced.names());
    let idle = idle_lines(r.idle.names());
    let never = never_loaded_lines(
        r.never_loaded_candidates as nat,
        r.never_loaded.names().len(),
    );
    let end = if r.idle.names().len() == 0 && r.never_loaded.names().len() == 0 {
        seq!["Nothing left to disable after filtering selected symbols."@]
    } else {
        seq![]
    };
    if r.idle@.contains(n) {
        let x = "  "@ + n + "=n"@;
        let names = r.idle.names();
        assert(names.contains(n));
        lemma_wrapped_has("  "@, names, "=n"@, n);
        let i = choose|i: int|
            0 <= i < wrapped("  "@, names, "=n"@).len() && wrapped("  "@, names, "=n"@)[i] == x;
        assert(idle[i + 1] == x);
        lemma_sum_has(forced, idle, x);
        lemma_sum_has(forced + idle, never, x);
        lemma_sum_has(forced + idle + never, end, x);
    }
    if r.idle_forced@.contains(n) {
        let x = "  "@ + n + ""@;
        let names = r.idle_forced.names();
        assert(names.contains(n));
        lemma_wrapped_has("  "@, names, ""@, n);
        let i = choose|i: int|
            0 <= i < wrapped("  "@, names, ""@).len() && wrapped("  "@, names, ""@)[i] == x;
        assert(forced[i + 1] == x);
        lemma_sum_has(forced, idle, x);
        lemma_sum_has(forced + idle, never, x);
        lemma_sum_has(forced + idle + never, end, x);
    }
}

/// Of a variant, every symbol that has to be disabled along has a line, every module that goes with
/// it, and, where all are asked for or there are few, every file.
pub proof fn lemma_variant_is_reported(rank: nat, v: DisableVariant, verbose: bool, n: Seq<char>)
    ensures
        v.cascade_unconditional@.contains(n) ==> variant_lines(rank, v, verbose).contains(
            unconditional_line(n, v.change.0@),
        ),
        v.cascade_active@.contains(n) ==> variant_lines(rank, v, verbose).contains(
            active_line(n, v.change.0@),
        ),
        texts(v.collateral_modules@).contains(n) ==> variant_lines(rank, v, verbose).contains(
            "    "@ + n + ""@,
        ),
        v.side_effect_files@.contains(n) && (verbose || v.side_effect_files.names().len() <= 10)
            ==> variant_lines(rank, v, verbose).contains("    "@ + n + ""@),
{
    let all = variant_lines(rank, v, verbose);
    let names = v.side_effect_files.names();
    let sorted = path_sorted(names);
    let files = files_lines(sorted, verbose);
    let u = v.cascade_unconditional.names();
    let a = v.cascade_active.names();
    let change = v.change.0@;
    let cascade = cascade_lines(u, a, change);
    let modules = modules_lines(texts(v.collateral_modules@));
    let head = seq![
        crate::kminimize::plan::variant_head(rank, names.len(), v.cascade_count()),
        "  CONFIG_"@ + change + "=n"@,
    ];
    let end = seq![""@];
    assert(all == head + files + cascade + modules + end);
    assert forall|x: Seq<char>| files.contains(x) || cascade.contains(x) || modules.contains(
        x,
    ) implies #[trigger] all.contains(x) by {
        lemma_sum_has(head, files, x);
        lemma_sum_has(head + files, cascade, x);
        lemma_sum_has(head + files + cascade, modules, x);
        lemma_sum_has(head + files + cascade + modules, end, x);
    }
    if v.cascade_unconditional@.contains(n) {
        let i = choose|i: int| 0 <= i < u.len() && u[i] == n;
        assert(cascade[i + 1] == unconditional_line(n, change));
        assert(cascade.contains(unconditional_line(n, change)));
    }
    if v.cascade_active@.contains(n) {
        let i = choose|i: int| 0 <= i < a.len() && a[i] == n;
        assert(cascade[i + 1 + u.len()] == active_line(n, change));
        assert(cascade.contains(active_line(n, change)));
    }
    if texts(v.collateral_modules@).contains(n) {
        let m = texts(v.collateral_modules@);
        let i = choose|i: int| 0 <= i < m.len() && m[i] == n;
        assert(modules[i + 1] == "    "@ + n + ""@);
        assert(modules.contains("    "@ + n + ""@));
    }
    if v.side_effect_files@.contains(n) && (verbose || names.len() <= 10) {
        lemma_path_sorted(names);
        assert(names.contains(n));
        assert(sorted.contains(n));
        let i = choose|i: int| 0 <= i < sorted.len() && sorted[i] == n;
        assert(files[i + 1] == "    "@ + n + ""@);
        assert(files.contains("    "@ + n + ""@));
    }
}

/// Of many files, the first ten have lines where not all are asked for, and the others are counted.
pub proof fn lemma_many_files_are_counted(files: Seq<Seq<char>>, i: int)
    requires
        files.len() > 10,
    ensures
        files_lines(files, false).len() == 12,
        0 <= i < 10 ==> files_lines(files, false)[i + 1] == "    "@ + files[i] + ""@,
        files_lines(files, false).last() == "    ... ("@ + decimal((files.len() - 10) as nat)
            + " more, use --verbose to list all)"@,
{
}

/// The first five variants are reported, or all where there are fewer, in their order.
pub proof fn lemma_variants_are_reported(
    variants: Seq<DisableVariant>,
    verbose: bool,
    k: nat,
    i: int,
    x: Seq<char>,
)
    requires
        0 <= i < k <= variants.len(),
        variant_lines(i as nat, variants[i], verbose).contains(x),
    ensures
        shown_lines(variants, k, verbose).contains(x),
        k <= 5 && (k == 5 || k == variants.len()) ==> variants_lines(variants, verbose).contains(x),
    decreases k,
{
    let front = shown_lines(variants, (k - 1) as nat, verbose);
    let last = variant_lines((k - 1) as nat, variants[k - 1], verbose);
    lemma_sum_has(front, last, x);
    if i < k - 1 {
        lemma_variants_are_reported(variants, verbose, (k - 1) as nat, i, x);
    }
    if k <= 5 && (k == 5 || k == variants.len()) {
        let shown = shown_lines(variants, k, verbose);
        let all = variants_lines(variants, verbose);
        assert(crate::kminimize::plan::shown_of(variants.len()) == k);
        let j = choose|j: int| 0 <= j < shown.len() && shown[j] == x;
        assert(all[j + 2] == x);
    }
}

/// Every file that was expected to go and stayed is reported, and every one that went and was not
/// expected to; where there is neither, and only there, the verdict is that all matched.
pub proof fn lemma_verdict_names_all(c: Comparison, n: Seq<char>)
    ensures
        c.false_positives@.contains(n) || c.missed@.contains(n) ==> verdict_lines(c).contains(
            "    "@ + n + ""@,
        ) && verdict_lines(c).last() == "  FAIL"@,
        c.false_positives.names().len() == 0 && c.missed.names().len() == 0
            ==> verdict_lines(c).last() == "  PASS: predictions match reality exactly"@,
{
    let fps = c.false_positives.names();
    let missed = c.missed.names();
    let x = "    "@ + n + ""@;
    let head = seq![""@];
    let end = seq![""@, "  FAIL"@];
    let f = false_positive_lines(path_sorted(fps));
    let m = missed_lines(path_sorted(missed));
    lemma_path_sorted(fps);
    lemma_path_sorted(missed);
    lemma_sum_has(head, f, x);
    lemma_sum_has(head + f, m, x);
    lemma_sum_has(head + f + m, end, x);
    if c.false_positives@.contains(n) {
        assert(fps.contains(n));
        assert(path_sorted(fps).contains(n));
        let i = choose|i: int| 0 <= i < path_sorted(fps).len() && path_sorted(fps)[i] == n;
        assert(f[i + 1] == x);
    }
    if c.missed@.contains(n) {
        assert(missed.contains(n));
        assert(path_sorted(missed).contains(n));
        let i = choose|i: int| 0 <= i < path_sorted(missed).len() && path_sorted(missed)[i] == n;
        assert(m[i + 1] == x);
    }
}

/// Every symbol that would still be turned on again is named.
pub proof fn lemma_conflicts_are_named(conflicts: Seq<Seq<char>>, change: Seq<char>, n: Seq<char>)
    requires
        conflicts.contains(n),
    ensures
        conflicts_lines(conflicts, change).contains("  CONFIG_"@ + n + ""@),
{
    let i = choose|i: int| 0 <= i < conflicts.len() && conflicts[i] == n;
    assert(conflicts_lines(conflicts, change)[i + 1] == "  CONFIG_"@ + n + ""@);
}

/// Every file of a module has a line, under one of the spellings of its path.
pub proof fn lemma_module_files_are_listed(module: ModuleView, i: int) -> (spelling: Seq<char>)
    requires
        0 <= i < module.files.len(),
    ensures
        same_path(spelling, module.files[i]),
        module.files.contains(spelling),
        module_lines(module).contains("  "@ + spelling + ""@),
{
    let sorted = path_sorted(module.files);
    let once = unrepeated(sorted);
    lemma_path_sorted(module.files);
    lemma_unrepeated(sorted);
    assert(module.files.contains(module.files[i]));
    assert(sorted.contains(module.files[i]));
    let k = choose|k: int| 0 <= k < sorted.len() && sorted[k] == module.files[i];
    assert(has_path(once.to_set(), sorted[k]));
    let q = choose|q: Seq<char>| #[trigger] once.to_set().contains(q) && same_path(q, sorted[k]);
    assert(once.contains(q));
    assert(sorted.contains(q));
    let j = choose|j: int| 0 <= j < once.len() && once[j] == q;
    assert(module_lines(module)[j + 2] == "  "@ + q + ""@);
    q
}

/// Every loaded module of a snapshot has a row, and every other a line.
pub proof fn lemma_every_entry_is_listed(timestamp: nat, entries: Seq<EntryView>, e: EntryView)
    requires
        entries.contains(e),
    ensures
        e.state == ModuleState::Live ==> snapshot_lines(timestamp, entries).contains(entry_row(e)),
        e.state != ModuleState::Live ==> snapshot_lines(timestamp, entries).contains(
            transitional_line(e),
        ),
{
    let live = live_ranked(entries);
    let rest = transitional(entries);
    lemma_entries_kept(entries, e);
    let all = snapshot_lines(timestamp, entries);
    if e.state == ModuleState::Live {
        let i = choose|i: int| 0 <= i < live.len() && live[i] == e;
        assert(all[i + 5] == entry_row(e));
    } else {
        let i = choose|i: int| 0 <= i < rest.len() && rest[i] == e;
        assert(transitional_lines(rest)[i + 2] == transitional_line(e));
        assert(all[i + 7 + live.len()] == transitional_line(e));
    }
}

proof fn lemma_entries_kept(entries: Seq<EntryView>, e: EntryView)
    requires
        entries.contains(e),
    ensures
        e.state == ModuleState::Live ==> live_ranked(entries).contains(e),
        e.state != ModuleState::Live ==> transitional(entries).contains(e),
    decreases entries.len(),
{
    let front = entries.drop_last();
    let last = entries.last();
    let k = choose|k: int| 0 <= k < entries.len() && entries[k] == e;
    if k < front.len() {
        assert(front[k] == e);
        lemma_entries_kept(front, e);
    }
    if e.state == ModuleState::Live {
        lemma_ranked_is_sorted(entries);
        let pick = |x: EntryView| x.state == ModuleState::Live;
        entries.lemma_filter_contains(pick, k);
        assert(entries.filter(pick).contains(e));
        broadcast use vstd::seq_lib::group_to_multiset_ensures;

        assert(entries.filter(pick).to_multiset().count(e) > 0);
        assert(live_ranked(entries).to_multiset().count(e) > 0);
    } else if k < front.len() {
        let j = choose|j: int| 0 <= j < transitional(front).len() && transitional(front)[j] == e;
        assert(transitional(entries)[j] == e);
    } else {
        assert(transitional(entries)[transitional(front).len() as int] == e);
    }
}

/// A report on candidates names the modules that were skipped, all of them, and says that there is
/// nothing to disable just where there are no candidates.
pub proof fn lemma_candidates_are_reported(c: Candidates)
    ensures
        texts(c.skipped@).len() > 0 ==> candidates_lines(c).contains(
            "Modules not found in kernel source (skipped): "@ + comma_list(texts(c.skipped@)),
        ),
        c.idle.names().len() == 0 && c.never_loaded.names().len() == 0
            ==> candidates_lines(c).last()
            == "Nothing to disable — all candidate modules are already off."@,
{
    let first = clusters_lines(crate::gather::clusters::name_lists(c.clusters@));
    let second = skipped_lines(texts(c.skipped@));
    if texts(c.skipped@).len() > 0 {
        assert(second[0] == "Modules not found in kernel source (skipped): "@ + comma_list(
            texts(c.skipped@),
        ));
        assert(candidates_lines(c)[first.len() as int] == second[0]);
    }
}

} // verus!
