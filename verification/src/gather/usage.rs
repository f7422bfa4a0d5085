//! Which modules were used, how much, and why.
use crate::gather::laws::{has_entry, lemma_shown_by_entry};
use crate::gather::{listed, Evidence, ModuleEntry, ModuleList, ModuleSnapshot};
use crate::names::{ascending, precedes, NameSet};
use crate::reach::related;
use crate::text::{same_text, texts};
use vstd::prelude::*;

verus! {

/// Per-module statistics aggregated across all observed snapshots.
#[derive(Debug, Clone)]
pub struct ModuleStats {
    pub name: String,
    /// Live snapshots in which this module appeared.
    pub total: usize,
    /// Live snapshots in which `use_count > 0`.
    pub active: usize,
    pub max_use: u32,
}

/// Module usage grouped into three activity categories.
/// Produced by [`ModuleList::usage_report`].
#[derive(Debug, Clone)]
pub struct UsageReport {
    /// Total number of snapshots in the observation.
    pub snapshots: usize,
    /// Modules whose `use_count > used_by.len()` in at least one snapshot: something beyond loaded
    /// dependents holds a reference. Sorted alphabetically.
    pub directly_active: Vec<ModuleStats>,
    /// Modules whose use count is entirely explained by loaded dependents, but at least one other
    /// module ever depended on them. Each entry pairs the stats with the sorted list of modules
    /// that ever appeared in its `used_by`. Sorted alphabetically by name.
    pub infrastructure: Vec<(ModuleStats, Vec<String>)>,
    /// Modules with no direct use and no dependents. Sorted alphabetically.
    pub idle: Vec<ModuleStats>,
}

// ── Counting ──────────────────────────────────────────────────────────────────

impl ModuleSnapshot {
    /// Whether an entry of the snapshot is evidence of `what` for the module `name`.
    pub open spec fn shows(self, what: Evidence, name: Seq<char>) -> bool {
        exists|j: int|
            0 <= j < self.modules@.len() && what.given_by(#[trigger] self.modules@[j])
                && self.modules@[j].name@ == name
    }

    /// Tests whether an entry is evidence of `what` for the module `name`.
    fn has(&self, what: Evidence, name: &str) -> (yes: bool)
        ensures
            yes == self.shows(what, name@),
    {
        for j in 0..self.modules.len()
            invariant
                forall|k: int|
                    0 <= k < j ==> !(what.given_by(#[trigger] self.modules@[k])
                        && self.modules@[k].name@ == name@),
        {
            if what.admits(&self.modules[j]) && same_text(self.modules[j].name.as_str(), name) {
                return true;
            }
        }
        false
    }
}

/// The number of snapshots that are evidence of `what` for the module `name`.
pub open spec fn count(snapshots: Seq<ModuleSnapshot>, what: Evidence, name: Seq<char>) -> nat
    decreases snapshots.len(),
{
    if snapshots.len() == 0 {
        0
    } else {
        count(snapshots.drop_last(), what, name) + if snapshots.last().shows(what, name) {
            1nat
        } else {
            0nat
        }
    }
}

/// Whether `m` is the greatest use count of a loaded entry for the module `name`.
pub open spec fn is_max_use(list: ModuleList, name: Seq<char>, m: u32) -> bool {
    &&& forall|e: ModuleEntry| #[trigger]
        list.observed(e) && Evidence::Live.given_by(e) && e.name@ == name ==> e.use_count <= m
    &&& exists|e: ModuleEntry| #[trigger]
        list.observed(e) && Evidence::Live.given_by(e) && e.name@ == name && e.use_count == m
}

impl ModuleStats {
    /// Whether these are the statistics of a module of `list`.
    pub open spec fn of(self, list: ModuleList) -> bool {
        &&& self.total == count(list.snapshots@, Evidence::Live, self.name@)
        &&& self.active == count(list.snapshots@, Evidence::Used, self.name@)
        &&& is_max_use(list, self.name@, self.max_use)
    }
}

impl ModuleList {
    /// Counts the snapshots that are evidence of `what` for the module `name`.
    fn count_snapshots(&self, what: Evidence, name: &str) -> (n: usize)
        ensures
            n == count(self.snapshots@, what, name@),
    {
        let mut n: usize = 0;
        let mut i: usize = 0;
        while i < self.snapshots.len()
            invariant
                i <= self.snapshots@.len(),
                n <= i,
                n == count(self.snapshots@.take(i as int), what, name@),
            decreases self.snapshots@.len() - i,
        {
            assert(self.snapshots@.take(i + 1).drop_last() == self.snapshots@.take(i as int));
            if self.snapshots[i].has(what, name) {
                n += 1;
            }
            i += 1;
        }
        assert(self.snapshots@.take(i as int) == self.snapshots@);
        n
    }

    /// The greatest use count of a loaded entry for the module `name`.
    fn max_use_of(&self, name: &str) -> (max: u32)
        requires
            self.shows(Evidence::Live, name@),
        ensures
            is_max_use(*self, name@, max),
    {
        let all = self.entries();
        let mut max: u32 = 0;
        let mut found = false;
        let ghost mut at = 0int;
        let mut i: usize = 0;
        while i < all.len()
            invariant
                i <= all@.len(),
                forall|k: int|
                    0 <= k < i && Evidence::Live.given_by(*#[trigger] all@[k]) && all@[k].name@
                        == name@ ==> found && all@[k].use_count <= max,
                found ==> 0 <= at < i && Evidence::Live.given_by(*all@[at]) && all@[at].name@
                    == name@ && all@[at].use_count == max,
            decreases all@.len() - i,
        {
            let e = all[i];
            if Evidence::Live.admits(e) && same_text(e.name.as_str(), name) && (!found || e.use_count
                > max) {
                max = e.use_count;
                found = true;
                proof {
                    at = i as int;
                }
            }
            i += 1;
        }
        proof {
            let e = choose|e: ModuleEntry| #[trigger]
                self.observed(e) && Evidence::Live.given_by(e) && e.name@ == name@;
            assert(listed(all@, e));
            let k = choose|k: int| 0 <= k < all@.len() && *(#[trigger] all@[k]) == e;
            assert(Evidence::Live.given_by(*all@[k]));
            assert(found);
            assert(listed(all@, *all@[at]));
            assert(self.observed(*all@[at]));
            assert forall|e: ModuleEntry| #[trigger]
                self.observed(e) && Evidence::Live.given_by(e) && e.name@ == name@ implies e.use_count
                <= max by {
                assert(listed(all@, e));
                let k = choose|k: int| 0 <= k < all@.len() && *(#[trigger] all@[k]) == e;
                assert(Evidence::Live.given_by(*all@[k]));
            }
        }
        max
    }

    /// The statistics of the module `name`.
    fn stats_of(&self, name: &String) -> (stats: ModuleStats)
        requires
            self.shows(Evidence::Live, name@),
        ensures
            stats.name@ == name@,
            stats.of(*self),
    {
        ModuleStats {
            name: name.clone(),
            total: self.count_snapshots(Evidence::Live, name.as_str()),
            active: self.count_snapshots(Evidence::Used, name.as_str()),
            max_use: self.max_use_of(name.as_str()),
        }
    }
}

// ── Used and unused ───────────────────────────────────────────────────────────

impl ModuleList {
    /// Returns the set of in-tree module names that had `use_count > 0` and state `Live` in at
    /// least one snapshot.
    pub fn ever_used(&self) -> (names: NameSet)
        ensures
            forall|n: Seq<char>| #[trigger]
                names@.contains(n) <==> self.shows(Evidence::Used, n),
            forall|n: Seq<char>| #[trigger]
                names@.contains(n) <==> has_entry(*self, n, true, 1),
    {
        let names = self.names_with(Evidence::Used);
        assert forall|n: Seq<char>| #[trigger] names@.contains(n) <==> has_entry(
            *self,
            n,
            true,
            1,
        ) by {
            lemma_shown_by_entry(*self, n);
            assert(names@.contains(n) <==> self.shows(Evidence::Used, n));
        }
        names
    }

    /// Returns the set of in-tree module names that appeared in at least one snapshot and were
    /// *never* observed with `use_count > 0` in any `Live` snapshot: loaded throughout but never
    /// actively used.
    pub fn never_used(&self) -> (names: NameSet)
        ensures
            forall|n: Seq<char>| #[trigger]
                names@.contains(n) <==> self.shows(Evidence::InTree, n) && !self.shows(
                    Evidence::Used,
                    n,
                ),
            forall|n: Seq<char>| #[trigger]
                names@.contains(n) <==> has_entry(*self, n, false, 0) && !has_entry(
                    *self,
                    n,
                    true,
                    1,
                ),
    {
        let used = self.ever_used();
        let known = self.names_with(Evidence::InTree);
        let mut names = NameSet::new();
        let count: usize = known.len();
        let mut i: usize = 0;
        while i < count
            invariant
                i <= count,
                count == known.names().len(),
                forall|n: Seq<char>| known@.contains(n) <==> #[trigger] self.shows(
                    Evidence::InTree,
                    n,
                ),
                forall|n: Seq<char>| #[trigger]
                    used@.contains(n) <==> self.shows(Evidence::Used, n),
                forall|n: Seq<char>| #[trigger]
                    names@.contains(n) ==> self.shows(Evidence::InTree, n) && !self.shows(
                        Evidence::Used,
                        n,
                    ),
                forall|k: int|
                    0 <= k < i && !self.shows(Evidence::Used, #[trigger] known.names()[k])
                        ==> names@.contains(known.names()[k]),
            decreases count - i,
        {
            let name = known.get(i);
            if !used.contains(name.as_str()) {
                assert(self.shows(Evidence::InTree, name@));
                names.insert(name.clone());
            }
            i += 1;
        }
        assert forall|n: Seq<char>| #[trigger] names@.contains(n) <==> self.shows(
            Evidence::InTree,
            n,
        ) && !self.shows(Evidence::Used, n) by {
            if self.shows(Evidence::InTree, n) {
                assert(known.names().contains(n));
            }
        }
        assert forall|n: Seq<char>| #[trigger] names@.contains(n) <==> has_entry(
            *self,
            n,
            false,
            0,
        ) && !has_entry(*self, n, true, 1) by {
            lemma_shown_by_entry(*self, n);
        }
        names
    }
}

// ── The report ────────────────────────────────────────────────────────────────

/// The names that statistics are about.
pub open spec fn stats_names(v: Seq<ModuleStats>) -> Seq<Seq<char>> {
    Seq::new(v.len(), |i: int| v[i].name@)
}

/// The statistics without the dependents.
pub open spec fn stats_alone(v: Seq<(ModuleStats, Vec<String>)>) -> Seq<ModuleStats> {
    Seq::new(v.len(), |i: int| v[i].0)
}

/// Whether `v` is the list of the statistics for the modules that `of` picks, by name.
pub open spec fn is_section(
    list: ModuleList,
    v: Seq<ModuleStats>,
    of: spec_fn(Seq<char>) -> bool,
) -> bool {
    &&& ascending(stats_names(v))
    &&& forall|n: Seq<char>| #[trigger] stats_names(v).contains(n) <==> of(n)
    &&& forall|i: int| 0 <= i < v.len() ==> (#[trigger] v[i]).of(list)
}

/// Whether `v` is the list of the names of the modules that ever depended on `name`.
pub open spec fn is_dependents(list: ModuleList, name: Seq<char>, v: Seq<Seq<char>>) -> bool {
    &&& ascending(v)
    &&& forall|a: Seq<char>| #[trigger]
        v.contains(a) <==> list.depends(Evidence::InTree, a, name)
}

impl ModuleList {
    /// Whether some module ever depended on `name`.
    pub open spec fn has_dependents(self, name: Seq<char>) -> bool {
        exists|a: Seq<char>| self.depends(Evidence::InTree, a, name)
    }

    /// The modules that something beyond loaded dependents holds a reference to.
    pub open spec fn is_directly_active(self) -> spec_fn(Seq<char>) -> bool {
        |n: Seq<char>| self.shows(Evidence::DirectlyUsed, n)
    }

    /// The loaded modules without direct use that others ever depended on.
    pub open spec fn is_infrastructure(self) -> spec_fn(Seq<char>) -> bool {
        |n: Seq<char>|
            self.shows(Evidence::Live, n) && !self.shows(Evidence::DirectlyUsed, n)
                && self.has_dependents(n)
    }

    /// The loaded modules without direct use that none ever depended on.
    pub open spec fn is_idle(self) -> spec_fn(Seq<char>) -> bool {
        |n: Seq<char>|
            self.shows(Evidence::Live, n) && !self.shows(Evidence::DirectlyUsed, n)
                && !self.has_dependents(n)
    }
}

impl UsageReport {
    /// Whether this is the report on `list`.
    pub open spec fn of(self, list: ModuleList) -> bool {
        &&& self.snapshots == list.snapshots@.len()
        &&& is_section(list, self.directly_active@, list.is_directly_active())
        &&& is_section(
            list,
            stats_alone(self.infrastructure@),
            list.is_infrastructure(),
        )
        &&& forall|i: int|
            0 <= i < self.infrastructure@.len() ==> is_dependents(
                list,
                (#[trigger] self.infrastructure@[i]).0.name@,
                texts(self.infrastructure@[i].1@),
            )
        &&& is_section(list, self.idle@, list.is_idle())
    }
}

/// Whether `v` is the section for the modules that `of` picks out of the first `k` of `names`.
spec fn section_upto(
    list: ModuleList,
    v: Seq<ModuleStats>,
    of: spec_fn(Seq<char>) -> bool,
    names: Seq<Seq<char>>,
    k: int,
) -> bool {
    &&& ascending(stats_names(v))
    &&& forall|n: Seq<char>| #[trigger]
        stats_names(v).contains(n) <==> of(n) && names.take(k).contains(n)
    &&& forall|i: int| 0 <= i < v.len() ==> (#[trigger] v[i]).of(list)
}

proof fn lemma_take_next(names: Seq<Seq<char>>, k: int, n: Seq<char>)
    requires
        0 <= k < names.len(),
    ensures
        names.take(k + 1).contains(n) <==> names.take(k).contains(n) || n == names[k],
{
    let t = names.take(k + 1);
    if names.take(k).contains(n) {
        let i = choose|i: int| 0 <= i < k && names.take(k)[i] == n;
        assert(t[i] == n);
    }
    assert(t[k] == names[k]);
    if t.contains(n) && n != names[k] {
        let i = choose|i: int| 0 <= i < t.len() && t[i] == n;
        assert(names.take(k)[i] == n);
    }
}

proof fn lemma_section_skip(
    list: ModuleList,
    v: Seq<ModuleStats>,
    of: spec_fn(Seq<char>) -> bool,
    names: Seq<Seq<char>>,
    k: int,
)
    requires
        section_upto(list, v, of, names, k),
        0 <= k < names.len(),
        !of(names[k]),
    ensures
        section_upto(list, v, of, names, k + 1),
{
    assert forall|n: Seq<char>| #[trigger] stats_names(v).contains(n) <==> of(n) && names.take(
        k + 1,
    ).contains(n) by {
        lemma_take_next(names, k, n);
    }
}

proof fn lemma_section_push(
    list: ModuleList,
    v: Seq<ModuleStats>,
    of: spec_fn(Seq<char>) -> bool,
    names: Seq<Seq<char>>,
    k: int,
    s: ModuleStats,
)
    requires
        section_upto(list, v, of, names, k),
        0 <= k < names.len(),
        ascending(names),
        of(names[k]),
        s.name@ == names[k],
        s.of(list),
    ensures
        section_upto(list, v.push(s), of, names, k + 1),
{
    let w = v.push(s);
    let old_names = stats_names(v);
    let new_names = stats_names(w);
    assert(new_names =~= old_names.push(names[k]));
    assert forall|i: int| 0 <= i < old_names.len() implies precedes(
        #[trigger] old_names[i],
        names[k],
    ) by {
        assert(old_names.contains(old_names[i]));
        let j = choose|j: int| 0 <= j < k && names.take(k)[j] == old_names[i];
        assert(precedes(names[j], names[k]));
    }
    assert forall|i: int, j: int| 0 <= i < j < new_names.len() implies precedes(
        #[trigger] new_names[i],
        #[trigger] new_names[j],
    ) by {
        if j < old_names.len() {
            assert(precedes(old_names[i], old_names[j]));
        } else {
            assert(precedes(old_names[i], names[k]));
        }
    }
    assert forall|n: Seq<char>| #[trigger] new_names.contains(n) <==> of(n) && names.take(
        k + 1,
    ).contains(n) by {
        lemma_take_next(names, k, n);
        assert(new_names[old_names.len() as int] == names[k]);
        if old_names.contains(n) {
            let i = choose|i: int| 0 <= i < old_names.len() && old_names[i] == n;
            assert(new_names[i] == n);
        }
        if new_names.contains(n) && n != names[k] {
            let i = choose|i: int| 0 <= i < new_names.len() && new_names[i] == n;
            assert(old_names[i] == n);
        }
    }
}

impl ModuleList {
    /// Aggregates per-module statistics and groups them into three activity categories. See
    /// [`UsageReport`] for the category definitions.
    pub fn usage_report(&self) -> (report: UsageReport)
        ensures
            report.of(*self),
    {
        let live = self.names_with(Evidence::Live);
        let direct = self.names_with(Evidence::DirectlyUsed);
        let none = NameSet::new();
        let dependents = self.dependents(&none);
        proof {
            assert forall|b: Seq<char>| #[trigger] dependents@.contains_key(b)
                <==> self.has_dependents(b) by {
                if dependents@.contains_key(b) {
                    let a = choose|a: Seq<char>| #[trigger] related(dependents@, b, a);
                    assert(self.depends(Evidence::InTree, a, b));
                }
                if self.has_dependents(b) {
                    let a = choose|a: Seq<char>| self.depends(Evidence::InTree, a, b);
                    assert(related(dependents@, b, a));
                }
            }
        }
        let mut directly_active: Vec<ModuleStats> = Vec::new();
        let mut infrastructure: Vec<(ModuleStats, Vec<String>)> = Vec::new();
        let mut idle: Vec<ModuleStats> = Vec::new();
        let count: usize = live.len();
        let ghost names = live.names();
        let mut i: usize = 0;
        assert(names.take(0) =~= Seq::empty());
        assert(stats_names(directly_active@) =~= Seq::empty());
        assert(stats_names(stats_alone(infrastructure@)) =~= Seq::empty());
        while i < count
            invariant
                i <= count,
                count == names.len(),
                names == live.names(),
                ascending(names),
                forall|n: Seq<char>| live@.contains(n) <==> #[trigger] self.shows(
                    Evidence::Live,
                    n,
                ),
                forall|n: Seq<char>| direct@.contains(n) <==> #[trigger] self.shows(
                    Evidence::DirectlyUsed,
                    n,
                ),
                forall|a: Seq<char>, b: Seq<char>| #[trigger]
                    related(dependents@, b, a) <==> self.depends(Evidence::InTree, a, b),
                forall|b: Seq<char>| #[trigger]
                    dependents@.contains_key(b) <==> self.has_dependents(b),
                section_upto(
                    *self,
                    directly_active@,
                    self.is_directly_active(),
                    names,
                    i as int,
                ),
                section_upto(
                    *self,
                    stats_alone(infrastructure@),
                    self.is_infrastructure(),
                    names,
                    i as int,
                ),
                forall|k: int|
                    0 <= k < infrastructure@.len() ==> is_dependents(
                        *self,
                        (#[trigger] infrastructure@[k]).0.name@,
                        texts(infrastructure@[k].1@),
                    ),
                section_upto(*self, idle@, self.is_idle(), names, i as int),
            decreases count - i,
        {
            let name = live.get(i);
            let ghost n = name@;
            let ghost d0 = directly_active@;
            let ghost f0 = infrastructure@;
            let ghost i0 = idle@;
            proof {
                assert(self.shows(Evidence::Live, n));
                assert(dependents@.contains_key(n) <==> self.has_dependents(n));
                assert(direct@.contains(n) <==> self.shows(Evidence::DirectlyUsed, n));
            }
            let stats = self.stats_of(name);
            if direct.contains(name.as_str()) {
                proof {
                    lemma_section_push(*self, d0, self.is_directly_active(), names, i as int, stats);
                    lemma_section_skip(*self, stats_alone(f0), self.is_infrastructure(), names, i as int);
                    lemma_section_skip(*self, i0, self.is_idle(), names, i as int);
                }
                directly_active.push(stats);
            } else {
                proof {
                    lemma_section_skip(*self, d0, self.is_directly_active(), names, i as int);
                }
                match dependents.get(name.as_str()) {
                    Some(deps) => {
                        proof {
                            lemma_section_push(
                                *self,
                                stats_alone(f0),
                                self.is_infrastructure(),
                                names,
                                i as int,
                                stats,
                            );
                            lemma_section_skip(*self, i0, self.is_idle(), names, i as int);
                        }
                        let list = deps.to_vec();
                        proof {
                            assert forall|a: Seq<char>| #[trigger]
                                texts(list@).contains(a) <==> self.depends(
                                    Evidence::InTree,
                                    a,
                                    n,
                                ) by {
                                assert(deps@.contains(a) <==> texts(list@).contains(a));
                                assert(related(dependents@, n, a) <==> deps@.contains(a));
                            }
                        }
                        infrastructure.push((stats, list));
                        assert(stats_alone(infrastructure@) =~= stats_alone(f0).push(stats));
                    },
                    None => {
                        proof {
                            lemma_section_skip(
                                *self,
                                stats_alone(f0),
                                self.is_infrastructure(),
                                names,
                                i as int,
                            );
                            lemma_section_push(*self, i0, self.is_idle(), names, i as int, stats);
                        }
                        idle.push(stats);
                    },
                }
            }
            i += 1;
        }
        proof {
            assert(names.take(i as int) == names);
            assert forall|n: Seq<char>| self.shows(Evidence::DirectlyUsed, n) implies self.shows(
                Evidence::Live,
                n,
            ) by {
                let e = choose|e: ModuleEntry| #[trigger]
                    self.observed(e) && Evidence::DirectlyUsed.given_by(e) && e.name@ == n;
                assert(Evidence::Live.given_by(e));
            }
            assert forall|n: Seq<char>| #[trigger] names.contains(n) <==> self.shows(
                Evidence::Live,
                n,
            ) by {
                assert(live@.contains(n) <==> names.contains(n));
            }
            assert(is_section(*self, directly_active@, self.is_directly_active()));
        }
        UsageReport { snapshots: self.snapshots.len(), directly_active, infrastructure, idle }
    }
}

// ── Laws ──────────────────────────────────────────────────────────────────────

/// Every loaded in-tree module stands in one section of the report, and in one only; the sections
/// hold no other module.
pub proof fn lemma_report_partitions(list: ModuleList, report: UsageReport, n: Seq<char>)
    requires
        report.of(list),
    ensures
        ({
            let a = stats_names(report.directly_active@).contains(n);
            let b = stats_names(stats_alone(report.infrastructure@)).contains(n);
            let c = stats_names(report.idle@).contains(n);
            &&& list.shows(Evidence::Live, n) <==> a || b || c
            &&& !(a && b)
            &&& !(a && c)
            &&& !(b && c)
        }),
{
    if list.shows(Evidence::DirectlyUsed, n) {
        let e = choose|e: ModuleEntry| #[trigger]
            list.observed(e) && Evidence::DirectlyUsed.given_by(e) && e.name@ == n;
        assert(Evidence::Live.given_by(e));
    }
    assert(list.is_directly_active()(n) == list.shows(Evidence::DirectlyUsed, n));
}

/// What was ever used was loaded, and belongs to the tree: the modules never used and those ever
/// used together are the in-tree ones.
pub proof fn lemma_used_is_loaded(list: ModuleList, n: Seq<char>)
    requires
        list.shows(Evidence::Used, n),
    ensures
        list.shows(Evidence::Live, n),
        list.shows(Evidence::InTree, n),
{
    let e = choose|e: ModuleEntry| #[trigger]
        list.observed(e) && Evidence::Used.given_by(e) && e.name@ == n;
    assert(Evidence::Live.given_by(e));
    assert(Evidence::InTree.given_by(e));
}

/// A module was active in no more snapshots than it was loaded in, and in no more than there are.
pub proof fn lemma_active_at_most_total(snapshots: Seq<ModuleSnapshot>, n: Seq<char>)
    ensures
        count(snapshots, Evidence::Used, n) <= count(snapshots, Evidence::Live, n),
        count(snapshots, Evidence::Live, n) <= snapshots.len(),
    decreases snapshots.len(),
{
    if snapshots.len() > 0 {
        lemma_active_at_most_total(snapshots.drop_last(), n);
        let last = snapshots.last();
        if last.shows(Evidence::Used, n) {
            let j = choose|j: int|
                0 <= j < last.modules@.len() && Evidence::Used.given_by(#[trigger] last.modules@[j])
                    && last.modules@[j].name@ == n;
            assert(Evidence::Live.given_by(last.modules@[j]));
        }
    }
}

} // verus!
