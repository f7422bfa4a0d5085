//! What the observations come to, entry by entry and alias by alias.
use crate::gather::alias::{glob, lemma_glob_literal};
use crate::gather::clusters::{in_some, stands_before};
use crate::gather::usage::{
    count, is_dependents, stats_alone, stats_names, ModuleStats, UsageReport,
};
use crate::gather::{Evidence, ModuleEntry, ModuleList, ModuleSnapshot, ModuleState};
use crate::names::ascending;
use crate::reach::{leads_to, lemma_closed, lemma_leads_to_self, lemma_leads_to_step};
use crate::text::texts;
use vstd::prelude::*;
use vstd::utf8::encode_utf8;

verus! {

// ── Patterns ──────────────────────────────────────────────────────────────────

/// Two patterns, one behind the other, match just the texts that can be cut into one for each.
pub proof fn lemma_glob_concatenates(p: Seq<u8>, q: Seq<u8>, txt: Seq<u8>)
    ensures
        glob(p + q, txt) <==> exists|i: int|
            0 <= i <= txt.len() && glob(p, txt.take(i)) && #[trigger] glob(q, txt.skip(i)),
    decreases p.len(),
{
    if p.len() == 0 {
        assert(p + q =~= q);
        assert(txt.skip(0) =~= txt);
        assert(txt.take(0).len() == 0);
        if glob(q, txt) {
            assert(glob(p, txt.take(0)) && glob(q, txt.skip(0)));
        }
        if exists|i: int|
            0 <= i <= txt.len() && glob(p, txt.take(i)) && #[trigger] glob(q, txt.skip(i)) {
            let i = choose|i: int|
                0 <= i <= txt.len() && glob(p, txt.take(i)) && #[trigger] glob(q, txt.skip(i));
            assert(i == 0);
        }
    } else {
        let rest = p.drop_first();
        assert((p + q).drop_first() =~= rest + q);
        assert((p + q)[0] == p[0]);
        if p[0] == 42 {
            if glob(p + q, txt) {
                let i = choose|i: int|
                    0 <= i <= txt.len() && glob((p + q).drop_first(), #[trigger] txt.skip(i));
                lemma_glob_concatenates(rest, q, txt.skip(i));
                let j = choose|j: int|
                    0 <= j <= txt.skip(i).len() && glob(rest, txt.skip(i).take(j)) && #[trigger] glob(
                        q,
                        txt.skip(i).skip(j),
                    );
                assert(txt.skip(i).skip(j) =~= txt.skip(i + j));
                assert(txt.take(i + j).skip(i) =~= txt.skip(i).take(j));
                assert(glob(rest, txt.take(i + j).skip(i)));
                assert(glob(p, txt.take(i + j)));
                assert(glob(q, txt.skip(i + j)));
            }
            if exists|i: int|
                0 <= i <= txt.len() && glob(p, txt.take(i)) && #[trigger] glob(q, txt.skip(i)) {
                let k = choose|k: int|
                    0 <= k <= txt.len() && glob(p, txt.take(k)) && #[trigger] glob(q, txt.skip(k));
                let i = choose|i: int|
                    0 <= i <= txt.take(k).len() && glob(rest, #[trigger] txt.take(k).skip(i));
                assert(txt.skip(i).take(k - i) =~= txt.take(k).skip(i));
                assert(txt.skip(i).skip(k - i) =~= txt.skip(k));
                assert(glob(q, txt.skip(i).skip(k - i)));
                lemma_glob_concatenates(rest, q, txt.skip(i));
                assert(glob((p + q).drop_first(), txt.skip(i)));
            }
        } else if txt.len() > 0 {
            lemma_glob_concatenates(rest, q, txt.drop_first());
            if glob(p + q, txt) {
                let i = choose|i: int|
                    0 <= i <= txt.drop_first().len() && glob(rest, txt.drop_first().take(i))
                        && #[trigger] glob(q, txt.drop_first().skip(i));
                assert(txt.drop_first().skip(i) =~= txt.skip(i + 1));
                assert(txt.take(i + 1).drop_first() =~= txt.drop_first().take(i));
                assert(glob(p, txt.take(i + 1)));
                assert(glob(q, txt.skip(i + 1)));
            }
            if exists|i: int|
                0 <= i <= txt.len() && glob(p, txt.take(i)) && #[trigger] glob(q, txt.skip(i)) {
                let k = choose|k: int|
                    0 <= k <= txt.len() && glob(p, txt.take(k)) && #[trigger] glob(q, txt.skip(k));
                assert(k > 0);
                assert(txt.drop_first().take(k - 1) =~= txt.take(k).drop_first());
                assert(txt.drop_first().skip(k - 1) =~= txt.skip(k));
                assert(glob(q, txt.drop_first().skip(k - 1)));
            }
        } else {
            if exists|i: int|
                0 <= i <= txt.len() && glob(p, txt.take(i)) && #[trigger] glob(q, txt.skip(i)) {
                let k = choose|k: int|
                    0 <= k <= txt.len() && glob(p, txt.take(k)) && #[trigger] glob(q, txt.skip(k));
                assert(txt.take(k).len() == 0);
            }
        }
    }
}

/// A star alone matches every text, a question mark alone every text of one byte, and any other
/// byte alone itself.
pub proof fn lemma_glob_of_one(b: u8, txt: Seq<u8>)
    ensures
        b == 42 ==> glob(seq![b], txt),
        b == 63 ==> (glob(seq![b], txt) <==> txt.len() == 1),
        b != 42 && b != 63 ==> (glob(seq![b], txt) <==> txt == seq![b]),
        glob(seq![], txt) <==> txt.len() == 0,
{
    assert(seq![b].drop_first() =~= Seq::<u8>::empty());
    if b == 42 {
        assert(glob(seq![b].drop_first(), txt.skip(txt.len() as int)));
    } else if b != 63 {
        lemma_glob_literal(seq![b], txt);
    } else if txt.len() > 0 {
        assert(glob(seq![b].drop_first(), txt.drop_first()) <==> txt.drop_first().len() == 0);
    }
}

/// A text that begins as a pattern does, up to a star at the pattern's end, matches it.
pub proof fn lemma_glob_prefix(front: Seq<u8>, txt: Seq<u8>)
    requires
        forall|i: int| 0 <= i < front.len() ==> #[trigger] front[i] != 42 && front[i] != 63,
    ensures
        glob(front.push(42), txt) <==> front.is_prefix_of(txt),
{
    let star = seq![42u8];
    assert(front.push(42) =~= front + star);
    lemma_glob_concatenates(front, star, txt);
    if front.is_prefix_of(txt) {
        let n = front.len() as int;
        assert(txt.take(n) =~= front);
        lemma_glob_literal(front, txt.take(n));
        lemma_glob_of_one(42, txt.skip(n));
        assert(glob(star, txt.skip(n)));
    }
    if glob(front.push(42), txt) {
        let i = choose|i: int|
            0 <= i <= txt.len() && glob(front, txt.take(i)) && #[trigger] glob(star, txt.skip(i));
        lemma_glob_literal(front, txt.take(i));
    }
}

// ── Devices ───────────────────────────────────────────────────────────────────

/// Every entry of the alias map whose pattern matches a device on the target names a module that is
/// required, whatever other entries match.
pub proof fn lemma_every_alias_counts(list: ModuleList, i: int, j: int)
    requires
        0 <= i < list.device_aliases@.len(),
        0 <= j < list.modules_alias@.len(),
        glob(encode_utf8(list.modules_alias@[j].0@), encode_utf8(list.device_aliases@[i]@)),
    ensures
        list.drives_device(list.modules_alias@[j].1@),
{
    assert(list.alias_matches(i, j));
}

/// A module is required only if an entry of the alias map names it whose pattern matches a device on
/// the target.
pub proof fn lemma_required_has_device(list: ModuleList, name: Seq<char>)
    requires
        list.drives_device(name),
    ensures
        exists|i: int, j: int|
            #![trigger list.device_aliases@[i], list.modules_alias@[j]]
            0 <= i < list.device_aliases@.len() && 0 <= j < list.modules_alias@.len()
                && list.modules_alias@[j].1@ == name && glob(
                encode_utf8(list.modules_alias@[j].0@),
                encode_utf8(list.device_aliases@[i]@),
            ),
{
    let (i, j) = choose|i: int, j: int|
        0 <= i < list.device_aliases@.len() && 0 <= j < list.modules_alias@.len()
            && #[trigger] list.alias_matches(i, j) && list.modules_alias@[j].1@ == name;
    assert(list.device_aliases@[i]@ == list.device_aliases@[i]@);
    assert(list.modules_alias@[j].1@ == name);
}

/// Of two alias maps, one behind the other, each requires what it requires alone, and together they
/// require nothing else. So more entries, in front or behind, take no module out.
pub proof fn lemma_alias_maps_add_up(
    a: ModuleList,
    b: ModuleList,
    both: ModuleList,
    name: Seq<char>,
)
    requires
        a.device_aliases@ == both.device_aliases@,
        b.device_aliases@ == both.device_aliases@,
        both.modules_alias@ == a.modules_alias@ + b.modules_alias@,
    ensures
        both.drives_device(name) <==> a.drives_device(name) || b.drives_device(name),
{
    let n = a.modules_alias@.len();
    if both.drives_device(name) {
        let (i, j) = choose|i: int, j: int|
            0 <= i < both.device_aliases@.len() && 0 <= j < both.modules_alias@.len()
                && #[trigger] both.alias_matches(i, j) && both.modules_alias@[j].1@ == name;
        if j < n {
            assert(a.modules_alias@[j] == both.modules_alias@[j]);
            lemma_every_alias_counts(a, i, j);
        } else {
            assert(b.modules_alias@[j - n] == both.modules_alias@[j]);
            lemma_every_alias_counts(b, i, j - n);
        }
    }
    if a.drives_device(name) {
        let (i, j) = choose|i: int, j: int|
            0 <= i < a.device_aliases@.len() && 0 <= j < a.modules_alias@.len()
                && #[trigger] a.alias_matches(i, j) && a.modules_alias@[j].1@ == name;
        assert(a.modules_alias@[j] == both.modules_alias@[j]);
        lemma_every_alias_counts(both, i, j);
    }
    if b.drives_device(name) {
        let (i, j) = choose|i: int, j: int|
            0 <= i < b.device_aliases@.len() && 0 <= j < b.modules_alias@.len()
                && #[trigger] b.alias_matches(i, j) && b.modules_alias@[j].1@ == name;
        assert(b.modules_alias@[j] == both.modules_alias@[j + n]);
        lemma_every_alias_counts(both, i, j + n);
    }
}

/// Of two lists of devices, one behind the other, each requires what it requires alone, and together
/// they require nothing else.
pub proof fn lemma_devices_add_up(a: ModuleList, b: ModuleList, both: ModuleList, name: Seq<char>)
    requires
        a.modules_alias@ == both.modules_alias@,
        b.modules_alias@ == both.modules_alias@,
        both.device_aliases@ == a.device_aliases@ + b.device_aliases@,
    ensures
        both.drives_device(name) <==> a.drives_device(name) || b.drives_device(name),
{
    let n = a.device_aliases@.len();
    if both.drives_device(name) {
        let (i, j) = choose|i: int, j: int|
            0 <= i < both.device_aliases@.len() && 0 <= j < both.modules_alias@.len()
                && #[trigger] both.alias_matches(i, j) && both.modules_alias@[j].1@ == name;
        if i < n {
            assert(a.device_aliases@[i] == both.device_aliases@[i]);
            lemma_every_alias_counts(a, i, j);
        } else {
            assert(b.device_aliases@[i - n] == both.device_aliases@[i]);
            lemma_every_alias_counts(b, i - n, j);
        }
    }
    if a.drives_device(name) {
        let (i, j) = choose|i: int, j: int|
            0 <= i < a.device_aliases@.len() && 0 <= j < a.modules_alias@.len()
                && #[trigger] a.alias_matches(i, j) && a.modules_alias@[j].1@ == name;
        assert(a.device_aliases@[i] == both.device_aliases@[i]);
        lemma_every_alias_counts(both, i, j);
    }
    if b.drives_device(name) {
        let (i, j) = choose|i: int, j: int|
            0 <= i < b.device_aliases@.len() && 0 <= j < b.modules_alias@.len()
                && #[trigger] b.alias_matches(i, j) && b.modules_alias@[j].1@ == name;
        assert(b.device_aliases@[i] == both.device_aliases@[i + n]);
        lemma_every_alias_counts(both, i + n, j);
    }
}

// ── Evidence ──────────────────────────────────────────────────────────────────

/// Every entry of every snapshot is evidence: an in-tree one that the module is known, a `Live` one
/// of these that it is loaded, with a use count above zero that it is used, and with a use count
/// above the number of the modules that use it that it is in direct use.
pub proof fn lemma_every_entry_counts(list: ModuleList, i: int, j: int)
    requires
        0 <= i < list.snapshots@.len(),
        0 <= j < list.snapshots@[i].modules@.len(),
        !list.snapshots@[i].modules@[j].is_out_of_tree,
    ensures
        ({
            let e = list.snapshots@[i].modules@[j];
            &&& list.shows(Evidence::InTree, e.name@)
            &&& e.state == ModuleState::Live ==> list.shows(Evidence::Live, e.name@)
            &&& e.state == ModuleState::Live && e.use_count > 0 ==> list.shows(
                Evidence::Used,
                e.name@,
            )
            &&& e.state == ModuleState::Live && e.use_count > e.used_by@.len() ==> list.shows(
                Evidence::DirectlyUsed,
                e.name@,
            )
        }),
{
    let e = list.snapshots@[i].modules@[j];
    assert(list.observed(e));
}

/// Whether some snapshot has an in-tree entry for the module `n` with a use count of at least
/// `least`, which is `Live` if `live`.
pub open spec fn has_entry(list: ModuleList, n: Seq<char>, live: bool, least: int) -> bool {
    exists|i: int, j: int|
        0 <= i < list.snapshots@.len() && 0 <= j < list.snapshots@[i].modules@.len() && {
            let e = #[trigger] list.snapshots@[i].modules@[j];
            &&& e.name@ == n
            &&& !e.is_out_of_tree
            &&& live ==> e.state == ModuleState::Live
            &&& e.use_count >= least
        }
}

/// Evidence for a module is an in-tree entry for it; that it is loaded, used or in direct use takes
/// one that is `Live`, and that it is used or in direct use one with a use count above zero.
pub proof fn lemma_evidence_has_entry(list: ModuleList, what: Evidence, n: Seq<char>)
    requires
        list.shows(what, n),
        what != Evidence::OutOfTree,
    ensures
        has_entry(list, n, false, 0),
        what != Evidence::InTree ==> has_entry(list, n, true, 0),
        what == Evidence::Used || what == Evidence::DirectlyUsed ==> has_entry(list, n, true, 1),
{
    let e = choose|e: ModuleEntry| #[trigger]
        list.observed(e) && what.given_by(e) && e.name@ == n;
    let (i, j) = choose|i: int, j: int|
        0 <= i < list.snapshots@.len() && 0 <= j < list.snapshots@[i].modules@.len()
            && #[trigger] list.snapshots@[i].modules@[j] == e;
    assert(list.snapshots@[i].modules@[j].name@ == n);
}

/// What is in direct use has more users than modules that use it, in one entry.
pub proof fn lemma_direct_use_has_entry(list: ModuleList, n: Seq<char>)
    requires
        list.shows(Evidence::DirectlyUsed, n),
    ensures
        exists|i: int, j: int|
            0 <= i < list.snapshots@.len() && 0 <= j < list.snapshots@[i].modules@.len() && {
                let e = #[trigger] list.snapshots@[i].modules@[j];
                e.name@ == n && !e.is_out_of_tree && e.state == ModuleState::Live && e.use_count
                    > e.used_by@.len()
            },
{
    let e = choose|e: ModuleEntry| #[trigger]
        list.observed(e) && Evidence::DirectlyUsed.given_by(e) && e.name@ == n;
    let (i, j) = choose|i: int, j: int|
        0 <= i < list.snapshots@.len() && 0 <= j < list.snapshots@[i].modules@.len()
            && #[trigger] list.snapshots@[i].modules@[j] == e;
    assert(list.snapshots@[i].modules@[j].name@ == n);
}

/// Two runs of snapshots, one behind the other, observe just what each of them observes.
pub proof fn lemma_snapshots_add_up(
    a: ModuleList,
    b: ModuleList,
    both: ModuleList,
    what: Evidence,
    m: Seq<char>,
    n: Seq<char>,
)
    requires
        both.snapshots@ == a.snapshots@ + b.snapshots@,
    ensures
        both.shows(what, n) <==> a.shows(what, n) || b.shows(what, n),
        both.depends(what, m, n) <==> a.depends(what, m, n) || b.depends(what, m, n),
{
    assert forall|e: ModuleEntry| #[trigger] both.observed(e) <==> a.observed(e) || b.observed(
        e,
    ) by {
        let k = a.snapshots@.len();
        if both.observed(e) {
            let (i, j) = choose|i: int, j: int|
                0 <= i < both.snapshots@.len() && 0 <= j < both.snapshots@[i].modules@.len()
                    && #[trigger] both.snapshots@[i].modules@[j] == e;
            if i < k {
                assert(a.snapshots@[i].modules@[j] == e);
            } else {
                assert(b.snapshots@[i - k].modules@[j] == e);
            }
        }
        if a.observed(e) {
            let (i, j) = choose|i: int, j: int|
                0 <= i < a.snapshots@.len() && 0 <= j < a.snapshots@[i].modules@.len()
                    && #[trigger] a.snapshots@[i].modules@[j] == e;
            assert(both.snapshots@[i].modules@[j] == e);
        }
        if b.observed(e) {
            let (i, j) = choose|i: int, j: int|
                0 <= i < b.snapshots@.len() && 0 <= j < b.snapshots@[i].modules@.len()
                    && #[trigger] b.snapshots@[i].modules@[j] == e;
            assert(both.snapshots@[i + k].modules@[j] == e);
        }
    }
    if both.shows(what, n) {
        let e = choose|e: ModuleEntry| #[trigger]
            both.observed(e) && what.given_by(e) && e.name@ == n;
        assert(a.observed(e) || b.observed(e));
    }
    if a.shows(what, n) {
        let e = choose|e: ModuleEntry| #[trigger] a.observed(e) && what.given_by(e) && e.name@ == n;
        assert(both.observed(e));
    }
    if b.shows(what, n) {
        let e = choose|e: ModuleEntry| #[trigger] b.observed(e) && what.given_by(e) && e.name@ == n;
        assert(both.observed(e));
    }
    if both.depends(what, m, n) {
        let e = choose|e: ModuleEntry| #[trigger]
            both.observed(e) && what.given_by(e) && e.is_used_by(m) && e.name@ == n;
        assert(a.observed(e) || b.observed(e));
    }
    if a.depends(what, m, n) {
        let e = choose|e: ModuleEntry| #[trigger]
            a.observed(e) && what.given_by(e) && e.is_used_by(m) && e.name@ == n;
        assert(both.observed(e));
    }
    if b.depends(what, m, n) {
        let e = choose|e: ModuleEntry| #[trigger]
            b.observed(e) && what.given_by(e) && e.is_used_by(m) && e.name@ == n;
        assert(both.observed(e));
    }
}

// ── Dependencies ──────────────────────────────────────────────────────────────

/// Every module that an in-tree entry lists among its users depends on the entry's module, wherever
/// it stands in the list; by a `Live` entry it does so while loaded.
pub proof fn lemma_every_user_depends(list: ModuleList, i: int, j: int, k: int)
    requires
        0 <= i < list.snapshots@.len(),
        0 <= j < list.snapshots@[i].modules@.len(),
        0 <= k < list.snapshots@[i].modules@[j].used_by@.len(),
        !list.snapshots@[i].modules@[j].is_out_of_tree,
    ensures
        ({
            let e = list.snapshots@[i].modules@[j];
            &&& list.depends(Evidence::InTree, e.used_by@[k]@, e.name@)
            &&& e.state == ModuleState::Live ==> list.depends(
                Evidence::Live,
                e.used_by@[k]@,
                e.name@,
            )
        }),
{
    let e = list.snapshots@[i].modules@[j];
    assert(list.observed(e));
    assert(e.used_by@[k]@ == e.used_by@[k]@);
    assert(e.is_used_by(e.used_by@[k]@));
}

/// A dependence comes from an in-tree entry that lists the one module among the users of the other,
/// and one while loaded from a `Live` entry.
pub proof fn lemma_dependence_has_entry(
    list: ModuleList,
    what: Evidence,
    a: Seq<char>,
    b: Seq<char>,
)
    requires
        what == Evidence::InTree || what == Evidence::Live,
        list.depends(what, a, b),
    ensures
        exists|i: int, j: int, k: int|
            #![trigger list.snapshots@[i].modules@[j].used_by@[k]]
            0 <= i < list.snapshots@.len() && 0 <= j < list.snapshots@[i].modules@.len() && 0 <= k
                < list.snapshots@[i].modules@[j].used_by@.len()
                && list.snapshots@[i].modules@[j].used_by@[k]@ == a
                && list.snapshots@[i].modules@[j].name@ == b
                && !list.snapshots@[i].modules@[j].is_out_of_tree && (what == Evidence::Live
                ==> list.snapshots@[i].modules@[j].state == ModuleState::Live),
{
    let e = choose|e: ModuleEntry| #[trigger]
        list.observed(e) && what.given_by(e) && e.is_used_by(a) && e.name@ == b;
    let (i, j) = choose|i: int, j: int|
        0 <= i < list.snapshots@.len() && 0 <= j < list.snapshots@[i].modules@.len()
            && #[trigger] list.snapshots@[i].modules@[j] == e;
    let k = choose|k: int| 0 <= k < e.used_by@.len() && (#[trigger] e.used_by@[k])@ == a;
    assert(list.snapshots@[i].modules@[j].used_by@[k]@ == a);
}

/// A cascade takes along every module that an in-tree entry shows to be used by the start or by
/// another module of the cascade.
pub proof fn lemma_cascade_takes_along(
    list: ModuleList,
    start: Seq<char>,
    a: Seq<char>,
    i: int,
    j: int,
    k: int,
)
    requires
        a == start || leads_to(list.dependency(Evidence::InTree), start, a),
        0 <= i < list.snapshots@.len(),
        0 <= j < list.snapshots@[i].modules@.len(),
        0 <= k < list.snapshots@[i].modules@[j].used_by@.len(),
        !list.snapshots@[i].modules@[j].is_out_of_tree,
        list.snapshots@[i].modules@[j].used_by@[k]@ == a,
    ensures
        leads_to(
            list.dependency(Evidence::InTree),
            start,
            list.snapshots@[i].modules@[j].name@,
        ),
{
    let edge = list.dependency(Evidence::InTree);
    lemma_every_user_depends(list, i, j, k);
    lemma_leads_to_self(edge, start);
    assert(edge(a, list.snapshots@[i].modules@[j].name@));
    lemma_leads_to_step(edge, start, a, list.snapshots@[i].modules@[j].name@);
}

/// Whether the set holds, with each module in it, those that a `Live` (or, if not `live`, any)
/// in-tree entry shows it to use.
pub open spec fn holds_what_it_uses(list: ModuleList, set: Set<Seq<char>>, live: bool) -> bool {
    forall|i: int, j: int, k: int|
        #![trigger list.snapshots@[i].modules@[j].used_by@[k]]
        0 <= i < list.snapshots@.len() && 0 <= j < list.snapshots@[i].modules@.len() && 0 <= k
            < list.snapshots@[i].modules@[j].used_by@.len()
            && !list.snapshots@[i].modules@[j].is_out_of_tree && (live
            ==> list.snapshots@[i].modules@[j].state == ModuleState::Live) && set.contains(
            list.snapshots@[i].modules@[j].used_by@[k]@,
        ) ==> set.contains(list.snapshots@[i].modules@[j].name@)
}

/// A cascade takes along nothing else: it lies in every set that holds the start and, with each
/// module, those that it uses.
pub proof fn lemma_cascade_is_least(
    list: ModuleList,
    start: Seq<char>,
    set: Set<Seq<char>>,
    n: Seq<char>,
)
    requires
        set.contains(start),
        holds_what_it_uses(list, set, false),
        leads_to(list.dependency(Evidence::InTree), start, n),
    ensures
        set.contains(n),
{
    let edge = list.dependency(Evidence::InTree);
    assert forall|x: Seq<char>, y: Seq<char>| set.contains(x) && #[trigger] edge(
        x,
        y,
    ) implies set.contains(y) by {
        lemma_dependence_has_entry(list, Evidence::InTree, x, y);
    }
    lemma_closed(edge, set, start, n);
}

// ── What has to stay ──────────────────────────────────────────────────────────

/// A module in direct use has to stay, and so has the driver of a device on the target.
pub proof fn lemma_used_and_drivers_stay(list: ModuleList, n: Seq<char>)
    requires
        list.drives_device(n) || has_direct_use(list, n),
    ensures
        list.must_keep(n),
        !list.disableable(n),
{
    if !list.drives_device(n) {
        let (i, j) = choose|i: int, j: int|
            0 <= i < list.snapshots@.len() && 0 <= j < list.snapshots@[i].modules@.len() && {
                let e = #[trigger] list.snapshots@[i].modules@[j];
                e.name@ == n && !e.is_out_of_tree && e.state == ModuleState::Live && e.use_count
                    > e.used_by@.len()
            };
        lemma_every_entry_counts(list, i, j);
    }
    assert(list.vital().contains(n));
    lemma_leads_to_self(list.dependency(Evidence::Live), n);
}

/// What a module that has to stay is listed as a user of, in a `Live` in-tree entry, has to stay.
pub proof fn lemma_what_is_used_stays(list: ModuleList, i: int, j: int, k: int)
    requires
        0 <= i < list.snapshots@.len(),
        0 <= j < list.snapshots@[i].modules@.len(),
        0 <= k < list.snapshots@[i].modules@[j].used_by@.len(),
        !list.snapshots@[i].modules@[j].is_out_of_tree,
        list.snapshots@[i].modules@[j].state == ModuleState::Live,
        list.must_keep(list.snapshots@[i].modules@[j].used_by@[k]@),
    ensures
        list.must_keep(list.snapshots@[i].modules@[j].name@),
        !list.disableable(list.snapshots@[i].modules@[j].name@),
{
    let edge = list.dependency(Evidence::Live);
    let a = list.snapshots@[i].modules@[j].used_by@[k]@;
    let b = list.snapshots@[i].modules@[j].name@;
    lemma_every_user_depends(list, i, j, k);
    let s = choose|s: Seq<char>| #[trigger] list.vital().contains(s) && leads_to(edge, s, a);
    assert(edge(a, b));
    lemma_leads_to_step(edge, s, a, b);
}

/// Nothing else has to stay: what has to stay lies in every set that holds the modules in direct use
/// and the drivers, and, with each module, those that it uses while loaded.
pub proof fn lemma_nothing_else_stays(list: ModuleList, set: Set<Seq<char>>, n: Seq<char>)
    requires
        forall|i: int, j: int|
            0 <= i < list.snapshots@.len() && 0 <= j < list.snapshots@[i].modules@.len() && {
                let e = #[trigger] list.snapshots@[i].modules@[j];
                !e.is_out_of_tree && e.state == ModuleState::Live && e.use_count > e.used_by@.len()
            } ==> set.contains(list.snapshots@[i].modules@[j].name@),
        forall|m: Seq<char>| #[trigger] list.drives_device(m) ==> set.contains(m),
        holds_what_it_uses(list, set, true),
        list.must_keep(n),
    ensures
        set.contains(n),
{
    let edge = list.dependency(Evidence::Live);
    let s = choose|s: Seq<char>| #[trigger] list.vital().contains(s) && leads_to(edge, s, n);
    if !list.drives_device(s) {
        lemma_direct_use_has_entry(list, s);
    }
    assert forall|x: Seq<char>, y: Seq<char>| set.contains(x) && #[trigger] edge(
        x,
        y,
    ) implies set.contains(y) by {
        lemma_dependence_has_entry(list, Evidence::Live, x, y);
    }
    lemma_closed(edge, set, s, n);
}

/// A module that some `Live` in-tree entry shows to be loaded stands in a cluster unless it has to
/// stay; and only such modules do.
pub proof fn lemma_clusters_hold_the_rest(
    list: ModuleList,
    clusters: Seq<Seq<Seq<char>>>,
    n: Seq<char>,
)
    requires
        list.is_clustering(clusters),
    ensures
        in_some(clusters, n) <==> has_entry(list, n, true, 0) && !list.must_keep(n),
{
    assert(list.disableable(n) <==> in_some(clusters, n));
    if list.shows(Evidence::Live, n) {
        lemma_evidence_has_entry(list, Evidence::Live, n);
    }
    if has_entry(list, n, true, 0) {
        let (i, j) = choose|i: int, j: int|
            0 <= i < list.snapshots@.len() && 0 <= j < list.snapshots@[i].modules@.len() && {
                let e = #[trigger] list.snapshots@[i].modules@[j];
                &&& e.name@ == n
                &&& !e.is_out_of_tree
                &&& true ==> e.state == ModuleState::Live
                &&& e.use_count >= 0
            };
        lemma_every_entry_counts(list, i, j);
    }
}

/// A module is never removed without those that use it: where an in-tree entry lists one removable
/// module among the users of another, both stand in one cluster.
pub proof fn lemma_users_share_a_cluster(
    list: ModuleList,
    clusters: Seq<Seq<Seq<char>>>,
    i: int,
    j: int,
    k: int,
    p: int,
    q: int,
)
    requires
        list.is_clustering(clusters),
        0 <= i < list.snapshots@.len(),
        0 <= j < list.snapshots@[i].modules@.len(),
        0 <= k < list.snapshots@[i].modules@[j].used_by@.len(),
        !list.snapshots@[i].modules@[j].is_out_of_tree,
        0 <= p < clusters.len(),
        0 <= q < clusters.len(),
        clusters[p].contains(list.snapshots@[i].modules@[j].used_by@[k]@),
        clusters[q].contains(list.snapshots@[i].modules@[j].name@),
    ensures
        p == q,
{
    let a = list.snapshots@[i].modules@[j].used_by@[k]@;
    let b = list.snapshots@[i].modules@[j].name@;
    lemma_every_user_depends(list, i, j, k);
    assert(in_some(clusters, a) && in_some(clusters, b));
    assert(list.disableable(a) && list.disableable(b));
    let edge = list.linkage();
    assert(edge(a, b));
    lemma_leads_to_self(edge, a);
    lemma_leads_to_step(edge, a, a, b);
}

/// A cluster holds nothing that need not be removed with the rest: a set of modules that holds, with
/// each removable module, the removable ones that it uses and is used by, and holds one module of a
/// cluster, holds all of it.
pub proof fn lemma_cluster_is_connected(
    list: ModuleList,
    clusters: Seq<Seq<Seq<char>>>,
    p: int,
    set: Set<Seq<char>>,
    a: Seq<char>,
    b: Seq<char>,
)
    requires
        list.is_clustering(clusters),
        0 <= p < clusters.len(),
        clusters[p].contains(a),
        clusters[p].contains(b),
        set.contains(a),
        forall|i: int, j: int, k: int|
            #![trigger list.snapshots@[i].modules@[j].used_by@[k]]
            0 <= i < list.snapshots@.len() && 0 <= j < list.snapshots@[i].modules@.len() && 0 <= k
                < list.snapshots@[i].modules@[j].used_by@.len()
                && !list.snapshots@[i].modules@[j].is_out_of_tree && in_some(
                clusters,
                list.snapshots@[i].modules@[j].used_by@[k]@,
            ) && in_some(clusters, list.snapshots@[i].modules@[j].name@) ==> (set.contains(
                list.snapshots@[i].modules@[j].used_by@[k]@,
            ) <==> set.contains(list.snapshots@[i].modules@[j].name@)),
    ensures
        set.contains(b),
{
    let edge = list.linkage();
    assert forall|x: Seq<char>, y: Seq<char>| set.contains(x) && #[trigger] edge(
        x,
        y,
    ) implies set.contains(y) by {
        assert(list.linked(x, y));
        assert(list.disableable(x) <==> in_some(clusters, x));
        assert(list.disableable(y) <==> in_some(clusters, y));
        if list.depends(Evidence::InTree, x, y) {
            lemma_dependence_has_entry(list, Evidence::InTree, x, y);
        } else {
            lemma_dependence_has_entry(list, Evidence::InTree, y, x);
        }
    }
    lemma_closed(edge, set, a, b);
}

/// The largest clusters come first; the names of each stand in order, none twice, and no module
/// stands in two.
pub proof fn lemma_clusters_in_order(
    list: ModuleList,
    clusters: Seq<Seq<Seq<char>>>,
    i: int,
    j: int,
)
    requires
        list.is_clustering(clusters),
        0 <= i < j < clusters.len(),
    ensures
        clusters[i].len() >= clusters[j].len() >= 1,
        clusters[i].len() == clusters[j].len() ==> crate::names::precedes(
            clusters[i][0],
            clusters[j][0],
        ),
        ascending(clusters[i]),
        ascending(clusters[j]),
        forall|n: Seq<char>| !(#[trigger] clusters[i].contains(n) && clusters[j].contains(n)),
{
    assert(stands_before(clusters[i], clusters[j]));
    assert forall|n: Seq<char>| !(#[trigger] clusters[i].contains(n) && clusters[j].contains(
        n,
    )) by {
        if clusters[i].contains(n) && clusters[j].contains(n) {
            lemma_leads_to_self(list.linkage(), n);
        }
    }
}

/// A module counts as known to be out-of-tree just where there are entries for it, and none of them
/// is in-tree.
pub proof fn lemma_only_out_of_tree(list: ModuleList, n: Seq<char>)
    ensures
        list.only_out_of_tree(n) <==> !has_entry(list, n, false, 0) && exists|i: int, j: int|
            0 <= i < list.snapshots@.len() && 0 <= j < list.snapshots@[i].modules@.len()
                && (#[trigger] list.snapshots@[i].modules@[j]).name@ == n,
{
    if list.shows(Evidence::InTree, n) {
        lemma_evidence_has_entry(list, Evidence::InTree, n);
    }
    if has_entry(list, n, false, 0) {
        let (i, j) = choose|i: int, j: int|
            0 <= i < list.snapshots@.len() && 0 <= j < list.snapshots@[i].modules@.len() && {
                let e = #[trigger] list.snapshots@[i].modules@[j];
                &&& e.name@ == n
                &&& !e.is_out_of_tree
                &&& false ==> e.state == ModuleState::Live
                &&& e.use_count >= 0
            };
        lemma_every_entry_counts(list, i, j);
    }
    if list.only_out_of_tree(n) {
        let e = choose|e: ModuleEntry| #[trigger]
            list.observed(e) && e.is_out_of_tree && e.name@ == n;
        let (i, j) = choose|i: int, j: int|
            0 <= i < list.snapshots@.len() && 0 <= j < list.snapshots@[i].modules@.len()
                && #[trigger] list.snapshots@[i].modules@[j] == e;
        assert(list.snapshots@[i].modules@[j].name@ == n);
    }
    if !has_entry(list, n, false, 0) && exists|i: int, j: int|
        0 <= i < list.snapshots@.len() && 0 <= j < list.snapshots@[i].modules@.len()
            && (#[trigger] list.snapshots@[i].modules@[j]).name@ == n {
        let (i, j) = choose|i: int, j: int|
            0 <= i < list.snapshots@.len() && 0 <= j < list.snapshots@[i].modules@.len()
                && (#[trigger] list.snapshots@[i].modules@[j]).name@ == n;
        let e = list.snapshots@[i].modules@[j];
        assert(list.observed(e));
    }
}

// ── The usage report ──────────────────────────────────────────────────────────

/// The snapshots that are evidence for a module are counted one by one, wherever they stand.
pub proof fn lemma_counts_add_up(
    a: Seq<ModuleSnapshot>,
    b: Seq<ModuleSnapshot>,
    what: Evidence,
    name: Seq<char>,
)
    ensures
        count(a + b, what, name) == count(a, what, name) + count(b, what, name),
    decreases b.len(),
{
    if b.len() == 0 {
        assert(a + b =~= a);
    } else {
        assert((a + b).drop_last() =~= a + b.drop_last());
        lemma_counts_add_up(a, b.drop_last(), what, name);
    }
}

/// One snapshot counts once as one in which a module was loaded if an in-tree entry of it for the
/// module is `Live`, however many are, and as one in which it was used if one of these has a use
/// count above zero.
pub proof fn lemma_snapshot_counts_once(s: ModuleSnapshot, name: Seq<char>)
    ensures
        count(seq![s], Evidence::Live, name) == (if exists|j: int|
            0 <= j < s.modules@.len() && (#[trigger] s.modules@[j]).name@ == name
                && !s.modules@[j].is_out_of_tree && s.modules@[j].state == ModuleState::Live {
            1nat
        } else {
            0nat
        }),
        count(seq![s], Evidence::Used, name) == (if exists|j: int|
            0 <= j < s.modules@.len() && (#[trigger] s.modules@[j]).name@ == name
                && !s.modules@[j].is_out_of_tree && s.modules@[j].state == ModuleState::Live
                && s.modules@[j].use_count > 0 {
            1nat
        } else {
            0nat
        }),
{
    reveal_with_fuel(count, 2);
    assert(seq![s].drop_last() =~= Seq::<ModuleSnapshot>::empty());
    assert(seq![s].last() == s);
    if s.shows(Evidence::Live, name) {
        let j = choose|j: int|
            0 <= j < s.modules@.len() && Evidence::Live.given_by(#[trigger] s.modules@[j])
                && s.modules@[j].name@ == name;
        assert(s.modules@[j].name@ == name);
    }
    if s.shows(Evidence::Used, name) {
        let j = choose|j: int|
            0 <= j < s.modules@.len() && Evidence::Used.given_by(#[trigger] s.modules@[j])
                && s.modules@[j].name@ == name;
        assert(s.modules@[j].name@ == name);
    }
    if exists|j: int|
        0 <= j < s.modules@.len() && (#[trigger] s.modules@[j]).name@ == name
            && !s.modules@[j].is_out_of_tree && s.modules@[j].state == ModuleState::Live {
        let j = choose|j: int|
            0 <= j < s.modules@.len() && (#[trigger] s.modules@[j]).name@ == name
                && !s.modules@[j].is_out_of_tree && s.modules@[j].state == ModuleState::Live;
        assert(Evidence::Live.given_by(s.modules@[j]));
    }
    if exists|j: int|
        0 <= j < s.modules@.len() && (#[trigger] s.modules@[j]).name@ == name
            && !s.modules@[j].is_out_of_tree && s.modules@[j].state == ModuleState::Live
            && s.modules@[j].use_count > 0 {
        let j = choose|j: int|
            0 <= j < s.modules@.len() && (#[trigger] s.modules@[j]).name@ == name
                && !s.modules@[j].is_out_of_tree && s.modules@[j].state == ModuleState::Live
                && s.modules@[j].use_count > 0;
        assert(Evidence::Used.given_by(s.modules@[j]));
    }
}

/// Of a module, the report gives the greatest use count that any `Live` in-tree entry for it has,
/// in whichever snapshot.
pub proof fn lemma_max_use_is_greatest(list: ModuleList, stats: ModuleStats, i: int, j: int)
    requires
        stats.of(list),
    ensures
        ({
            &&& 0 <= i < list.snapshots@.len()
            &&& 0 <= j < list.snapshots@[i].modules@.len()
            &&& list.snapshots@[i].modules@[j].name@ == stats.name@
            &&& !list.snapshots@[i].modules@[j].is_out_of_tree
            &&& list.snapshots@[i].modules@[j].state == ModuleState::Live
        }) ==> list.snapshots@[i].modules@[j].use_count <= stats.max_use,
        exists|p: int, q: int|
            0 <= p < list.snapshots@.len() && 0 <= q < list.snapshots@[p].modules@.len() && {
                let e = #[trigger] list.snapshots@[p].modules@[q];
                e.name@ == stats.name@ && !e.is_out_of_tree && e.state == ModuleState::Live
                    && e.use_count == stats.max_use
            },
{
    if 0 <= i < list.snapshots@.len() && 0 <= j < list.snapshots@[i].modules@.len() {
        assert(list.observed(list.snapshots@[i].modules@[j]));
    }
    let e = choose|e: ModuleEntry| #[trigger]
        list.observed(e) && Evidence::Live.given_by(e) && e.name@ == stats.name@ && e.use_count
            == stats.max_use;
    let (p, q) = choose|p: int, q: int|
        0 <= p < list.snapshots@.len() && 0 <= q < list.snapshots@[p].modules@.len()
            && #[trigger] list.snapshots@[p].modules@[q] == e;
    assert(list.snapshots@[p].modules@[q].name@ == stats.name@);
}

/// Whether some `Live` in-tree entry for the module `n` has more users than modules that use it.
pub open spec fn has_direct_use(list: ModuleList, n: Seq<char>) -> bool {
    exists|i: int, j: int|
        0 <= i < list.snapshots@.len() && 0 <= j < list.snapshots@[i].modules@.len() && {
            let e = #[trigger] list.snapshots@[i].modules@[j];
            e.name@ == n && !e.is_out_of_tree && e.state == ModuleState::Live && e.use_count
                > e.used_by@.len()
        }
}

/// Whether some in-tree entry for the module `n` lists a user.
pub open spec fn has_users(list: ModuleList, n: Seq<char>) -> bool {
    exists|i: int, j: int|
        0 <= i < list.snapshots@.len() && 0 <= j < list.snapshots@[i].modules@.len() && {
            let e = #[trigger] list.snapshots@[i].modules@[j];
            e.name@ == n && !e.is_out_of_tree && e.used_by@.len() > 0
        }
}

/// Every module that some `Live` in-tree entry shows to be loaded stands in one part of the report:
/// with those in direct use if an entry shows that, else with the infrastructure if an in-tree entry
/// lists a user of it, else with the idle ones.
pub proof fn lemma_report_sorts_modules(list: ModuleList, report: UsageReport, n: Seq<char>)
    requires
        report.of(list),
    ensures
        stats_names(report.directly_active@).contains(n) <==> has_direct_use(list, n),
        stats_names(stats_alone(report.infrastructure@)).contains(n) <==> has_entry(
            list,
            n,
            true,
            0,
        ) && !has_direct_use(list, n) && has_users(list, n),
        stats_names(report.idle@).contains(n) <==> has_entry(list, n, true, 0) && !has_direct_use(
            list,
            n,
        ) && !has_users(list, n),
{
    if list.shows(Evidence::DirectlyUsed, n) {
        lemma_direct_use_has_entry(list, n);
    }
    if has_direct_use(list, n) {
        let (i, j) = choose|i: int, j: int|
            0 <= i < list.snapshots@.len() && 0 <= j < list.snapshots@[i].modules@.len() && {
                let e = #[trigger] list.snapshots@[i].modules@[j];
                e.name@ == n && !e.is_out_of_tree && e.state == ModuleState::Live && e.use_count
                    > e.used_by@.len()
            };
        lemma_every_entry_counts(list, i, j);
    }
    if list.shows(Evidence::Live, n) {
        lemma_evidence_has_entry(list, Evidence::Live, n);
    }
    if has_entry(list, n, true, 0) {
        let (i, j) = choose|i: int, j: int|
            0 <= i < list.snapshots@.len() && 0 <= j < list.snapshots@[i].modules@.len() && {
                let e = #[trigger] list.snapshots@[i].modules@[j];
                &&& e.name@ == n
                &&& !e.is_out_of_tree
                &&& true ==> e.state == ModuleState::Live
                &&& e.use_count >= 0
            };
        lemma_every_entry_counts(list, i, j);
    }
    if list.has_dependents(n) {
        let a = choose|a: Seq<char>| list.depends(Evidence::InTree, a, n);
        lemma_dependence_has_entry(list, Evidence::InTree, a, n);
        let (i, j, k) = choose|i: int, j: int, k: int|
            #![trigger list.snapshots@[i].modules@[j].used_by@[k]]
            0 <= i < list.snapshots@.len() && 0 <= j < list.snapshots@[i].modules@.len() && 0 <= k
                < list.snapshots@[i].modules@[j].used_by@.len()
                && list.snapshots@[i].modules@[j].used_by@[k]@ == a
                && list.snapshots@[i].modules@[j].name@ == n
                && !list.snapshots@[i].modules@[j].is_out_of_tree;
        assert(list.snapshots@[i].modules@[j].name@ == n);
        assert(has_users(list, n));
    }
    if has_users(list, n) {
        let (i, j) = choose|i: int, j: int|
            0 <= i < list.snapshots@.len() && 0 <= j < list.snapshots@[i].modules@.len() && {
                let e = #[trigger] list.snapshots@[i].modules@[j];
                e.name@ == n && !e.is_out_of_tree && e.used_by@.len() > 0
            };
        lemma_every_user_depends(list, i, j, 0);
        assert(list.has_dependents(n));
    }
    assert(stats_names(report.directly_active@).contains(n) <==> (list.is_directly_active())(n));
    assert(stats_names(stats_alone(report.infrastructure@)).contains(n) <==> (
    list.is_infrastructure())(n));
    assert(stats_names(report.idle@).contains(n) <==> (list.is_idle())(n));
}

/// With each module of the infrastructure stand all modules that any in-tree entry for it lists as
/// users, in whichever snapshot, and no others.
pub proof fn lemma_report_lists_users(
    list: ModuleList,
    report: UsageReport,
    p: int,
    a: Seq<char>,
)
    requires
        report.of(list),
        0 <= p < report.infrastructure@.len(),
    ensures
        texts(report.infrastructure@[p].1@).contains(a) <==> exists|i: int, j: int, k: int|
            #![trigger list.snapshots@[i].modules@[j].used_by@[k]]
            0 <= i < list.snapshots@.len() && 0 <= j < list.snapshots@[i].modules@.len() && 0 <= k
                < list.snapshots@[i].modules@[j].used_by@.len()
                && list.snapshots@[i].modules@[j].used_by@[k]@ == a
                && list.snapshots@[i].modules@[j].name@ == report.infrastructure@[p].0.name@
                && !list.snapshots@[i].modules@[j].is_out_of_tree,
        ascending(texts(report.infrastructure@[p].1@)),
{
    let name = report.infrastructure@[p].0.name@;
    assert(is_dependents(list, name, texts(report.infrastructure@[p].1@)));
    assert(texts(report.infrastructure@[p].1@).contains(a) <==> list.depends(
        Evidence::InTree,
        a,
        name,
    ));
    if list.depends(Evidence::InTree, a, name) {
        lemma_dependence_has_entry(list, Evidence::InTree, a, name);
    }
    if exists|i: int, j: int, k: int|
        #![trigger list.snapshots@[i].modules@[j].used_by@[k]]
        0 <= i < list.snapshots@.len() && 0 <= j < list.snapshots@[i].modules@.len() && 0 <= k
            < list.snapshots@[i].modules@[j].used_by@.len()
            && list.snapshots@[i].modules@[j].used_by@[k]@ == a
            && list.snapshots@[i].modules@[j].name@ == name
            && !list.snapshots@[i].modules@[j].is_out_of_tree {
        let (i, j, k) = choose|i: int, j: int, k: int|
            #![trigger list.snapshots@[i].modules@[j].used_by@[k]]
            0 <= i < list.snapshots@.len() && 0 <= j < list.snapshots@[i].modules@.len() && 0 <= k
                < list.snapshots@[i].modules@[j].used_by@.len()
                && list.snapshots@[i].modules@[j].used_by@[k]@ == a
                && list.snapshots@[i].modules@[j].name@ == name
                && !list.snapshots@[i].modules@[j].is_out_of_tree;
        lemma_every_user_depends(list, i, j, k);
    }
}

/// The report counts the snapshots of the list, and for each module those in which it was loaded and
/// those in which it was used.
pub proof fn lemma_report_counts_snapshots(list: ModuleList, report: UsageReport, p: int)
    requires
        report.of(list),
    ensures
        report.snapshots == list.snapshots@.len(),
        0 <= p < report.directly_active@.len() ==> has_counts(list, report.directly_active@[p]),
        0 <= p < report.infrastructure@.len() ==> has_counts(list, report.infrastructure@[p].0),
        0 <= p < report.idle@.len() ==> has_counts(list, report.idle@[p]),
{
    if 0 <= p < report.infrastructure@.len() {
        assert(stats_alone(report.infrastructure@)[p] == report.infrastructure@[p].0);
    }
}

/// Whether the statistics count the snapshots in which the module was loaded, and in which it was
/// used.
pub open spec fn has_counts(list: ModuleList, stats: ModuleStats) -> bool {
    &&& stats.total == count(list.snapshots@, Evidence::Live, stats.name@)
    &&& stats.active == count(list.snapshots@, Evidence::Used, stats.name@)
}

/// A module is known, loaded or used just where some snapshot has an entry that shows it.
pub proof fn lemma_shown_by_entry(list: ModuleList, n: Seq<char>)
    ensures
        list.shows(Evidence::InTree, n) <==> has_entry(list, n, false, 0),
        list.shows(Evidence::Live, n) <==> has_entry(list, n, true, 0),
        list.shows(Evidence::Used, n) <==> has_entry(list, n, true, 1),
        list.shows(Evidence::DirectlyUsed, n) <==> has_direct_use(list, n),
{
    if list.shows(Evidence::InTree, n) {
        lemma_evidence_has_entry(list, Evidence::InTree, n);
    }
    if list.shows(Evidence::Live, n) {
        lemma_evidence_has_entry(list, Evidence::Live, n);
    }
    if list.shows(Evidence::Used, n) {
        lemma_evidence_has_entry(list, Evidence::Used, n);
    }
    if list.shows(Evidence::DirectlyUsed, n) {
        lemma_direct_use_has_entry(list, n);
    }
    lemma_entry_shows(list, n, false, 0);
    lemma_entry_shows(list, n, true, 0);
    lemma_entry_shows(list, n, true, 1);
    if has_direct_use(list, n) {
        let (i, j) = choose|i: int, j: int|
            0 <= i < list.snapshots@.len() && 0 <= j < list.snapshots@[i].modules@.len() && {
                let e = #[trigger] list.snapshots@[i].modules@[j];
                e.name@ == n && !e.is_out_of_tree && e.state == ModuleState::Live && e.use_count
                    > e.used_by@.len()
            };
        lemma_every_entry_counts(list, i, j);
    }
}

proof fn lemma_entry_shows(list: ModuleList, n: Seq<char>, live: bool, least: int)
    ensures
        has_entry(list, n, live, least) ==> list.shows(Evidence::InTree, n),
        has_entry(list, n, live, least) && live ==> list.shows(Evidence::Live, n),
        has_entry(list, n, live, least) && live && least > 0 ==> list.shows(Evidence::Used, n),
{
    if has_entry(list, n, live, least) {
        let (i, j) = choose|i: int, j: int|
            0 <= i < list.snapshots@.len() && 0 <= j < list.snapshots@[i].modules@.len() && {
                let e = #[trigger] list.snapshots@[i].modules@[j];
                &&& e.name@ == n
                &&& !e.is_out_of_tree
                &&& live ==> e.state == ModuleState::Live
                &&& e.use_count >= least
            };
        lemma_every_entry_counts(list, i, j);
    }
}

} // verus!
