//! Snapshots taken from a remote system: when to take the next, which shows the most use, and how
//! one is reported.
use crate::gather::proc_modules::{entry_views, EntryView};
use crate::gather::{ModuleEntry, ModuleSnapshot, ModuleState};
use crate::kminimize::report::{
    add_line, align_left, align_right, comma_list, join_comma, left_aligned, no_lines,
    right_aligned,
};
use crate::names::{
    lemma_order_total, lemma_order_trans, order_texts, precedes, text_order, Order,
};
use crate::number::{decimal, to_decimal};
use crate::text::texts;
use vstd::prelude::*;

verus! {

// ── When ──────────────────────────────────────────────────────────────────────

/// Whether a run that has lasted `elapsed` has come to its end; one without a duration never has.
pub fn is_over(elapsed: u128, duration: Option<u128>) -> (over: bool)
    ensures
        over == (duration matches Some(d) && elapsed >= d),
{
    match duration {
        Some(d) => elapsed >= d,
        None => false,
    }
}

/// How long to wait before the next snapshot; nothing where the observation is over. All times are
/// in one unit.
pub fn next_wait(elapsed: u128, duration: u128, interval: u128) -> (wait: Option<u128>)
    ensures
        wait == if elapsed >= duration {
            None::<u128>
        } else if (duration - elapsed) < interval {
            Some((duration - elapsed) as u128)
        } else {
            Some(interval)
        },
{
    if elapsed >= duration {
        return None;
    }
    let remaining: u128 = duration - elapsed;
    if remaining < interval {
        Some(remaining)
    } else {
        Some(interval)
    }
}

// ── How much ──────────────────────────────────────────────────────────────────

/// The use counts of the loaded modules together.
pub open spec fn total_use(entries: Seq<EntryView>) -> nat
    decreases entries.len(),
{
    if entries.len() == 0 {
        0
    } else {
        total_use(entries.drop_last()) + if entries.last().state == ModuleState::Live {
            entries.last().use_count
        } else {
            0
        }
    }
}

/// The number of loaded modules that are in use.
pub open spec fn active_count(entries: Seq<EntryView>) -> nat
    decreases entries.len(),
{
    if entries.len() == 0 {
        0
    } else {
        active_count(entries.drop_last()) + if entries.last().state == ModuleState::Live
            && entries.last().use_count > 0 {
            1nat
        } else {
            0nat
        }
    }
}

/// Adds up the use counts of the loaded modules.
pub fn sum_use(snapshot: &ModuleSnapshot) -> (total: u128)
    ensures
        total == total_use(entry_views(snapshot.modules@)),
{
    let ghost all = entry_views(snapshot.modules@);
    let mut total: u128 = 0;
    let mut i: usize = 0;
    while i < snapshot.modules.len()
        invariant
            i <= snapshot.modules@.len(),
            all == entry_views(snapshot.modules@),
            total == total_use(all.take(i as int)),
            total <= i * 0xffff_ffff,
        decreases snapshot.modules@.len() - i,
    {
        proof {
            assert(all.take(i + 1).drop_last() =~= all.take(i as int));
            assert(all.take(i + 1).last() == snapshot.modules@[i as int]@);
        }
        let e = &snapshot.modules[i];
        if e.state == ModuleState::Live {
            total = total + e.use_count as u128;
        }
        i += 1;
    }
    assert(all.take(i as int) =~= all);
    total
}

/// Counts the loaded modules that are in use.
pub fn count_active(snapshot: &ModuleSnapshot) -> (n: usize)
    ensures
        n == active_count(entry_views(snapshot.modules@)),
{
    let ghost all = entry_views(snapshot.modules@);
    let mut n: usize = 0;
    let mut i: usize = 0;
    while i < snapshot.modules.len()
        invariant
            i <= snapshot.modules@.len(),
            all == entry_views(snapshot.modules@),
            n == active_count(all.take(i as int)),
            n <= i,
        decreases snapshot.modules@.len() - i,
    {
        proof {
            assert(all.take(i + 1).drop_last() =~= all.take(i as int));
            assert(all.take(i + 1).last() == snapshot.modules@[i as int]@);
        }
        let e = &snapshot.modules[i];
        if e.state == ModuleState::Live && e.use_count > 0 {
            n += 1;
        }
        i += 1;
    }
    assert(all.take(i as int) =~= all);
    n
}

/// The use that snapshot `i` shows.
pub open spec fn use_at(snapshots: Seq<ModuleSnapshot>, i: int) -> nat {
    total_use(entry_views(snapshots[i].modules@))
}

/// Finds the snapshot with the largest total use count across loaded modules (highest combined
/// reference count = peak usage exposure), the last one where several show as much.
pub fn peak_snapshot(snapshots: &Vec<ModuleSnapshot>) -> (peak: Option<usize>)
    ensures
        match peak {
            Some(p) => {
                &&& p < snapshots@.len()
                &&& forall|i: int|
                    0 <= i < p ==> #[trigger] use_at(snapshots@, i) <= use_at(
                        snapshots@,
                        p as int,
                    )
                &&& forall|i: int|
                    p < i < snapshots@.len() ==> #[trigger] use_at(snapshots@, i) < use_at(
                        snapshots@,
                        p as int,
                    )
            },
            None => snapshots@.len() == 0,
        },
{
    if snapshots.len() == 0 {
        return None;
    }
    let mut peak: usize = 0;
    let mut most: u128 = sum_use(&snapshots[0]);
    let mut i: usize = 1;
    while i < snapshots.len()
        invariant
            1 <= i <= snapshots@.len(),
            peak < i,
            most == use_at(snapshots@, peak as int),
            forall|k: int| 0 <= k < peak ==> #[trigger] use_at(snapshots@, k) <= most,
            forall|k: int| peak < k < i ==> #[trigger] use_at(snapshots@, k) < most,
        decreases snapshots@.len() - i,
    {
        let total = sum_use(&snapshots[i]);
        assert(total == use_at(snapshots@, i as int));
        if total >= most {
            most = total;
            peak = i;
        }
        i += 1;
    }
    Some(peak)
}

// ── The order of the report ───────────────────────────────────────────────────

/// Whether `a` may stand in front of `b`: it has more users, or as many and no greater name.
pub open spec fn entry_before(a: EntryView, b: EntryView) -> bool {
    a.use_count > b.use_count || (a.use_count == b.use_count && text_order(a.name, b.name)
        != Order::Greater)
}

/// How many entries at the front of `list` may stand in front of `e`.
pub open spec fn entry_slot(list: Seq<EntryView>, e: EntryView) -> nat
    decreases list.len(),
{
    if list.len() == 0 || !entry_before(list[0], e) {
        0
    } else {
        1 + entry_slot(list.drop_first(), e)
    }
}

/// The loaded ones of `entries`, those with the most users first, those with as many by name, and
/// those with the same name too in the order in which they were.
pub open spec fn live_ranked(entries: Seq<EntryView>) -> Seq<EntryView>
    decreases entries.len(),
{
    if entries.len() == 0 {
        seq![]
    } else {
        let front = live_ranked(entries.drop_last());
        let e = entries.last();
        if e.state == ModuleState::Live {
            front.insert(entry_slot(front, e) as int, e)
        } else {
            front
        }
    }
}

/// The ones of `entries` that are not loaded, in their order.
pub open spec fn transitional(entries: Seq<EntryView>) -> Seq<EntryView>
    decreases entries.len(),
{
    if entries.len() == 0 {
        seq![]
    } else if entries.last().state == ModuleState::Live {
        transitional(entries.drop_last())
    } else {
        transitional(entries.drop_last()).push(entries.last())
    }
}

proof fn lemma_entry_slot(list: Seq<EntryView>, e: EntryView, n: int)
    requires
        0 <= n <= list.len(),
        forall|k: int| 0 <= k < n ==> entry_before(#[trigger] list[k], e),
        n < list.len() ==> !entry_before(list[n], e),
    ensures
        entry_slot(list, e) == n,
    decreases list.len(),
{
    if n > 0 {
        let t = list.drop_first();
        assert(entry_before(list[0], e));
        assert forall|k: int| 0 <= k < n - 1 implies entry_before(#[trigger] t[k], e) by {
            assert(t[k] == list[k + 1]);
        }
        lemma_entry_slot(t, e, n - 1);
    }
}

spec fn ref_views(v: Seq<&ModuleEntry>) -> Seq<EntryView> {
    Seq::new(v.len(), |i: int| v[i]@)
}

fn may_precede(a: &ModuleEntry, b: &ModuleEntry) -> (yes: bool)
    ensures
        yes == entry_before(a@, b@),
{
    if a.use_count != b.use_count {
        a.use_count > b.use_count
    } else {
        match order_texts(a.name.as_str(), b.name.as_str()) {
            Order::Greater => false,
            _ => true,
        }
    }
}

fn rank_live(snapshot: &ModuleSnapshot) -> (live: Vec<&ModuleEntry>)
    ensures
        ref_views(live@) == live_ranked(entry_views(snapshot.modules@)),
{
    let ghost all = entry_views(snapshot.modules@);
    let mut live: Vec<&ModuleEntry> = Vec::new();
    let mut i: usize = 0;
    assert(all.take(0) =~= Seq::<EntryView>::empty());
    assert(ref_views(live@) =~= seq![]);
    while i < snapshot.modules.len()
        invariant
            i <= snapshot.modules@.len(),
            all == entry_views(snapshot.modules@),
            ref_views(live@) == live_ranked(all.take(i as int)),
        decreases snapshot.modules@.len() - i,
    {
        proof {
            assert(all.take(i + 1).drop_last() =~= all.take(i as int));
            assert(all.take(i + 1).last() == snapshot.modules@[i as int]@);
        }
        let e = &snapshot.modules[i];
        if e.state == ModuleState::Live {
            let ghost before = ref_views(live@);
            let mut at: usize = 0;
            while at < live.len() && may_precede(live[at], e)
                invariant
                    at <= live@.len(),
                    before == ref_views(live@),
                    forall|k: int| 0 <= k < at ==> entry_before(#[trigger] before[k], e@),
                decreases live@.len() - at,
            {
                assert(before[at as int] == live@[at as int]@);
                at += 1;
            }
            proof {
                if at < live@.len() {
                    assert(before[at as int] == live@[at as int]@);
                }
                lemma_entry_slot(before, e@, at as int);
            }
            live.insert(at, e);
            assert(ref_views(live@) =~= before.insert(at as int, e@));
        }
        i += 1;
    }
    assert(all.take(i as int) =~= all);
    live
}

fn list_transitional(snapshot: &ModuleSnapshot) -> (rest: Vec<&ModuleEntry>)
    ensures
        ref_views(rest@) == transitional(entry_views(snapshot.modules@)),
{
    let ghost all = entry_views(snapshot.modules@);
    let mut rest: Vec<&ModuleEntry> = Vec::new();
    let mut i: usize = 0;
    assert(all.take(0) =~= Seq::<EntryView>::empty());
    assert(ref_views(rest@) =~= seq![]);
    while i < snapshot.modules.len()
        invariant
            i <= snapshot.modules@.len(),
            all == entry_views(snapshot.modules@),
            ref_views(rest@) == transitional(all.take(i as int)),
        decreases snapshot.modules@.len() - i,
    {
        proof {
            assert(all.take(i + 1).drop_last() =~= all.take(i as int));
            assert(all.take(i + 1).last() == snapshot.modules@[i as int]@);
        }
        let e = &snapshot.modules[i];
        let ghost before = ref_views(rest@);
        if e.state != ModuleState::Live {
            rest.push(e);
            assert(ref_views(rest@) =~= before.push(e@));
        }
        i += 1;
    }
    assert(all.take(i as int) =~= all);
    rest
}

// ── The report ────────────────────────────────────────────────────────────────

/// A row of the table.
pub open spec fn table_row(name: Seq<char>, count: Seq<char>, used_by: Seq<char>) -> Seq<char> {
    left_aligned(name, 36) + " "@ + right_aligned(count, 9) + "  "@ + used_by
}

/// The row on an entry.
pub open spec fn entry_row(e: EntryView) -> Seq<char> {
    table_row(
        e.name,
        decimal(e.use_count),
        if e.used_by.len() == 0 {
            "-"@
        } else {
            comma_list(e.used_by)
        },
    ) + if e.is_out_of_tree {
        "  (out-of-tree)"@
    } else {
        ""@
    }
}

/// The word for a state.
pub open spec fn state_word(state: ModuleState) -> Seq<char> {
    match state {
        ModuleState::Live => "Live"@,
        ModuleState::Loading => "Loading"@,
        ModuleState::Unloading => "Unloading"@,
    }
}

/// The line on an entry that is not loaded.
pub open spec fn transitional_line(e: EntryView) -> Seq<char> {
    "    "@ + state_word(e.state) + "  "@ + e.name
}

/// The lines on entries that are not loaded.
pub open spec fn transitional_lines(entries: Seq<EntryView>) -> Seq<Seq<char>> {
    if entries.len() == 0 {
        seq![]
    } else {
        seq![""@, "  Transitional modules ("@ + decimal(entries.len()) + "):"@] + Seq::new(
            entries.len(),
            |i: int| transitional_line(entries[i]),
        )
    }
}

/// The lines on a snapshot.
pub open spec fn snapshot_lines(timestamp: nat, entries: Seq<EntryView>) -> Seq<Seq<char>> {
    let live = live_ranked(entries);
    seq![
        "  timestamp : "@ + decimal(timestamp) + " (Unix seconds)"@,
        "  modules   : "@ + decimal(entries.len()) + " loaded, "@ + decimal(active_count(entries))
            + " active (use_count > 0), total use_count = "@ + decimal(total_use(entries)),
        ""@,
        table_row("module"@, "use_count"@, "used_by"@),
        "------------------------------------------------------------------------"@,
    ] + Seq::new(live.len(), |i: int| entry_row(live[i])) + transitional_lines(
        transitional(entries),
    )
}

fn write_row(name: &str, count: &str, used_by: &str) -> (line: String)
    ensures
        line@ == table_row(name@, count@, used_by@),
{
    let mut line = align_left(name, 36);
    line.append(" ");
    line.append(align_right(count, 9).as_str());
    line.append("  ");
    line.append(used_by);
    line
}

fn write_entry(e: &ModuleEntry) -> (line: String)
    ensures
        line@ == entry_row(e@),
{
    let count = to_decimal(e.use_count as u128);
    let used_by = if e.used_by.len() == 0 {
        "-".to_owned()
    } else {
        join_comma(&e.used_by)
    };
    let mut line = write_row(e.name.as_str(), count.as_str(), used_by.as_str());
    line.append(
        if e.is_out_of_tree {
            "  (out-of-tree)"
        } else {
            ""
        },
    );
    line
}

fn write_transitional(e: &ModuleEntry) -> (line: String)
    ensures
        line@ == transitional_line(e@),
{
    let mut line = "    ".to_owned();
    line.append(
        match e.state {
            ModuleState::Live => "Live",
            ModuleState::Loading => "Loading",
            ModuleState::Unloading => "Unloading",
        },
    );
    line.append("  ");
    line.append(e.name.as_str());
    line
}

/// Writes the lines on a snapshot.
pub fn print_snapshot(snapshot: &ModuleSnapshot) -> (lines: Vec<String>)
    ensures
        texts(lines@) == snapshot_lines(
            snapshot.timestamp_secs as nat,
            entry_views(snapshot.modules@),
        ),
{
    let ghost entries = entry_views(snapshot.modules@);
    let ghost ranked = live_ranked(entries);
    let mut lines = no_lines();
    let mut stamp = "  timestamp : ".to_owned();
    stamp.append(to_decimal(snapshot.timestamp_secs as u128).as_str());
    stamp.append(" (Unix seconds)");
    add_line(&mut lines, stamp);
    let mut counts = "  modules   : ".to_owned();
    counts.append(to_decimal(snapshot.modules.len() as u128).as_str());
    counts.append(" loaded, ");
    counts.append(to_decimal(count_active(snapshot) as u128).as_str());
    counts.append(" active (use_count > 0), total use_count = ");
    counts.append(to_decimal(sum_use(snapshot)).as_str());
    add_line(&mut lines, counts);
    add_line(&mut lines, "".to_owned());
    add_line(&mut lines, write_row("module", "use_count", "used_by"));
    add_line(
        &mut lines,
        "------------------------------------------------------------------------".to_owned(),
    );
    let ghost head = texts(lines@);
    let live = rank_live(snapshot);
    let ghost rows = Seq::new(ranked.len(), |i: int| entry_row(ranked[i]));
    assert(head + rows.take(0) =~= head);
    for i in 0..live.len()
        invariant
            ref_views(live@) == ranked,
            rows == Seq::new(ranked.len(), |i: int| entry_row(ranked[i])),
            texts(lines@) == head + rows.take(i as int),
    {
        assert(ref_views(live@)[i as int] == live@[i as int]@);
        add_line(&mut lines, write_entry(live[i]));
        assert(texts(lines@) =~= head + rows.take(i + 1));
    }
    assert(rows.take(live@.len() as int) =~= rows);
    let ghost table = texts(lines@);
    let rest = list_transitional(snapshot);
    let ghost others = transitional(entries);
    if rest.len() > 0 {
        add_line(&mut lines, "".to_owned());
        let mut title = "  Transitional modules (".to_owned();
        title.append(to_decimal(rest.len() as u128).as_str());
        title.append("):");
        let ghost t = title@;
        add_line(&mut lines, title);
        let ghost body = Seq::new(others.len(), |i: int| transitional_line(others[i]));
        assert(texts(lines@) =~= table + (seq![""@, t] + body.take(0)));
        for i in 0..rest.len()
            invariant
                ref_views(rest@) == others,
                body == Seq::new(others.len(), |i: int| transitional_line(others[i])),
                texts(lines@) == table + (seq![""@, t] + body.take(i as int)),
        {
            assert(ref_views(rest@)[i as int] == rest@[i as int]@);
            add_line(&mut lines, write_transitional(rest[i]));
            assert(texts(lines@) =~= table + (seq![""@, t] + body.take(i + 1)));
        }
        assert(body.take(rest@.len() as int) =~= body);
        assert(seq![""@, t] + body =~= transitional_lines(others));
    } else {
        assert(ref_views(rest@).len() == 0);
        assert(transitional_lines(others) =~= seq![]);
    }
    assert(texts(lines@) =~= snapshot_lines(snapshot.timestamp_secs as nat, entries));
    lines
}

// ── Laws ──────────────────────────────────────────────────────────────────────

proof fn lemma_entry_before_trans(a: EntryView, b: EntryView, c: EntryView)
    requires
        entry_before(a, b),
        entry_before(b, c),
    ensures
        entry_before(a, c),
{
    lemma_order_total(a.name, b.name);
    lemma_order_total(b.name, c.name);
    lemma_order_total(a.name, c.name);
    if a.use_count == b.use_count && b.use_count == c.use_count && a.name != b.name && b.name
        != c.name {
        lemma_order_trans(a.name, b.name, c.name);
    }
}

proof fn lemma_entry_slot_parts(list: Seq<EntryView>, e: EntryView)
    ensures
        entry_slot(list, e) <= list.len(),
        forall|k: int| 0 <= k < entry_slot(list, e) ==> entry_before(#[trigger] list[k], e),
        entry_slot(list, e) < list.len() ==> !entry_before(list[entry_slot(list, e) as int], e),
    decreases list.len(),
{
    if list.len() > 0 && entry_before(list[0], e) {
        let t = list.drop_first();
        lemma_entry_slot_parts(t, e);
        assert forall|k: int| 0 <= k < entry_slot(list, e) implies entry_before(
            #[trigger] list[k],
            e,
        ) by {
            if k > 0 {
                assert(entry_before(t[k - 1], e));
            }
        }
    }
}

/// The ranked entries stand in order, and are the loaded ones, each as often as it was observed.
pub proof fn lemma_ranked_is_sorted(entries: Seq<EntryView>)
    ensures
        forall|i: int, j: int|
            0 <= i < j < live_ranked(entries).len() ==> entry_before(
                #[trigger] live_ranked(entries)[i],
                #[trigger] live_ranked(entries)[j],
            ),
        live_ranked(entries).to_multiset() == entries.filter(
            |e: EntryView| e.state == ModuleState::Live,
        ).to_multiset(),
    decreases entries.len(),
{
    let live = |e: EntryView| e.state == ModuleState::Live;
    broadcast use vstd::seq_lib::group_to_multiset_ensures;
    if entries.len() == 0 {
        assert(entries.filter(live) =~= Seq::<EntryView>::empty()) by {
            reveal(Seq::filter);
        }
        assert(live_ranked(entries) =~= Seq::<EntryView>::empty());
    } else {
        let before = entries.drop_last();
        let e = entries.last();
        let front = live_ranked(before);
        lemma_ranked_is_sorted(before);
        assert(entries.filter(live) == if live(e) {
            before.filter(live).push(e)
        } else {
            before.filter(live)
        }) by {
            reveal(Seq::filter);
        }
        if e.state == ModuleState::Live {
            let at = entry_slot(front, e) as int;
            lemma_entry_slot_parts(front, e);
            let after = front.insert(at, e);
            assert forall|k: int| at <= k < front.len() implies entry_before(
                e,
                #[trigger] front[k],
            ) by {
                lemma_order_total(front[at].name, e.name);
                assert(entry_before(e, front[at]));
                if k > at {
                    lemma_entry_before_trans(e, front[at], front[k]);
                }
            }
            assert forall|i: int, j: int| 0 <= i < j < after.len() implies entry_before(
                #[trigger] after[i],
                #[trigger] after[j],
            ) by {
                let i0 = if i < at { i } else { i - 1 };
                let j0 = if j < at { j } else { j - 1 };
                if i != at {
                    assert(after[i] == front[i0]);
                }
                if j != at {
                    assert(after[j] == front[j0]);
                }
            }
            vstd::seq_lib::to_multiset_insert(front, at, e);
        }
    }
}

/// The use of two runs of entries, one behind the other, is that of both together, and so is the
/// number of active ones; an entry that is not loaded adds nothing.
pub proof fn lemma_use_adds_up(a: Seq<EntryView>, b: Seq<EntryView>, e: EntryView)
    ensures
        total_use(a + b) == total_use(a) + total_use(b),
        active_count(a + b) == active_count(a) + active_count(b),
        total_use(seq![e]) == (if e.state == ModuleState::Live {
            e.use_count
        } else {
            0
        }),
        active_count(seq![e]) == (if e.state == ModuleState::Live && e.use_count > 0 {
            1nat
        } else {
            0nat
        }),
    decreases b.len(),
{
    assert(seq![e].drop_last() =~= Seq::<EntryView>::empty());
    assert(total_use(seq![e].drop_last()) == 0);
    assert(active_count(seq![e].drop_last()) == 0);
    assert(seq![e].last() == e);
    if b.len() == 0 {
        assert(a + b =~= a);
    } else {
        assert((a + b).drop_last() =~= a + b.drop_last());
        lemma_use_adds_up(a, b.drop_last(), e);
    }
}

/// The entries that are not loaded are told of in their order, and no others.
pub proof fn lemma_transitional_in_order(a: Seq<EntryView>, b: Seq<EntryView>, e: EntryView)
    ensures
        transitional(a + b) == transitional(a) + transitional(b),
        transitional(seq![e]) == (if e.state == ModuleState::Live {
            Seq::<EntryView>::empty()
        } else {
            seq![e]
        }),
    decreases b.len(),
{
    assert(seq![e].drop_last() =~= Seq::<EntryView>::empty());
    assert(transitional(seq![e].drop_last()) =~= seq![]);
    assert(seq![e].last() == e);
    assert(Seq::<EntryView>::empty().push(e) =~= seq![e]);
    if b.len() == 0 {
        assert(a + b =~= a);
        assert(transitional(a) + transitional(b) =~= transitional(a));
    } else {
        assert((a + b).drop_last() =~= a + b.drop_last());
        lemma_transitional_in_order(a, b.drop_last(), e);
        assert(transitional(a + b) =~= transitional(a) + transitional(b));
    }
}

/// The loaded modules are listed with the most used first, and those used as much by name.
pub proof fn lemma_most_used_first(entries: Seq<EntryView>, i: int, j: int)
    requires
        0 <= i < j < live_ranked(entries).len(),
    ensures
        live_ranked(entries)[i].use_count >= live_ranked(entries)[j].use_count,
        live_ranked(entries)[i].use_count == live_ranked(entries)[j].use_count
            ==> live_ranked(entries)[i].name == live_ranked(entries)[j].name || precedes(
            live_ranked(entries)[i].name,
            live_ranked(entries)[j].name,
        ),
{
    lemma_ranked_is_sorted(entries);
    assert(entry_before(live_ranked(entries)[i], live_ranked(entries)[j]));
    lemma_order_total(live_ranked(entries)[i].name, live_ranked(entries)[j].name);
}

} // verus!
