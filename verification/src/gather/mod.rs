//! Observed usage of kernel modules: what was loaded, what was used, and what depended on what.
pub mod alias;
pub mod cli;
pub mod clusters;
pub mod format_laws;
pub mod laws;
pub mod proc_modules;
pub mod usage;

use crate::names::NameSet;
use vstd::prelude::*;

verus! {

/// Load state of a kernel module as reported in column 5 of `/proc/modules`.
#[derive(Debug, Clone, Copy, PartialEq, Eq, Structural)]
pub enum ModuleState {
    Live,
    Loading,
    Unloading,
}

/// One loaded module as reported by a single `/proc/modules` line.
///
/// `/proc/modules` columns:
///   1. name
///   2. memory size (bytes), not stored
///   3. use_count: 0 means loaded but currently not in use
///   4. used_by: comma-separated list of modules using this one, or "-"
///   5. state: Live | Loading | Unloading
///   6. base address, not stored
///   7. optional flags: "(OE)" marks out-of-tree modules
#[derive(Debug, Clone)]
pub struct ModuleEntry {
    pub name: String,
    /// Number of in-kernel users of this module at snapshot time.
    pub use_count: u32,
    /// Modules that directly depend on (use) this module.
    pub used_by: Vec<String>,
    /// Load state at snapshot time. Only `Live` entries are counted as evidence of usage;
    /// `Loading` and `Unloading` are transitional.
    pub state: ModuleState,
    /// `true` when the `(OE)` flag is present: the module is out-of-tree and has no `CONFIG_*`
    /// entry in the kernel source tree. Must be excluded from all analysis.
    pub is_out_of_tree: bool,
}

/// A point-in-time snapshot of all loaded kernel modules.
#[derive(Debug, Clone)]
pub struct ModuleSnapshot {
    /// Unix timestamp (seconds) when this snapshot was taken.
    pub timestamp_secs: u64,
    pub modules: Vec<ModuleEntry>,
}

/// The full observation record that a gathering run writes.
#[derive(Debug, Clone)]
pub struct ModuleList {
    pub snapshots: Vec<ModuleSnapshot>,
    /// Device modalias strings collected from `/sys/bus/*/devices/*/modalias`.
    pub device_aliases: Vec<String>,
    /// Module alias map from `/lib/modules/<ver>/modules.alias`: (pattern, module name).
    pub modules_alias: Vec<(String, String)>,
    /// Bare config symbol names (without `CONFIG_` prefix) that must remain enabled regardless of
    /// observed usage.
    pub pinned_configs: Vec<String>,
}

impl ModuleEntry {
    /// Whether the entry says that `name` uses this module.
    pub open spec fn is_used_by(self, name: Seq<char>) -> bool {
        exists|i: int| 0 <= i < self.used_by@.len() && (#[trigger] self.used_by@[i])@ == name
    }
}

/// What an entry can be evidence of.
#[derive(Debug, Clone, Copy, PartialEq, Eq, Structural)]
pub enum Evidence {
    /// The module belongs to the kernel source tree.
    InTree,
    /// It does not.
    OutOfTree,
    /// It belongs to the tree and is loaded.
    Live,
    /// It belongs to the tree, is loaded, and has users.
    Used,
    /// It belongs to the tree, is loaded, and has more users than modules that depend on it:
    /// something beyond loaded dependents holds a reference.
    DirectlyUsed,
}

impl Evidence {
    /// Whether `e` is evidence of this.
    pub open spec fn given_by(self, e: ModuleEntry) -> bool {
        match self {
            Evidence::InTree => !e.is_out_of_tree,
            Evidence::OutOfTree => e.is_out_of_tree,
            Evidence::Live => !e.is_out_of_tree && e.state == ModuleState::Live,
            Evidence::Used => !e.is_out_of_tree && e.state == ModuleState::Live && e.use_count > 0,
            Evidence::DirectlyUsed => !e.is_out_of_tree && e.state == ModuleState::Live
                && e.use_count > e.used_by@.len(),
        }
    }

    /// Tests whether `e` is evidence of this.
    pub fn admits(&self, e: &ModuleEntry) -> (yes: bool)
        ensures
            yes == self.given_by(*e),
    {
        match self {
            Evidence::InTree => !e.is_out_of_tree,
            Evidence::OutOfTree => e.is_out_of_tree,
            Evidence::Live => !e.is_out_of_tree && e.state == ModuleState::Live,
            Evidence::Used => !e.is_out_of_tree && e.state == ModuleState::Live && e.use_count > 0,
            Evidence::DirectlyUsed => !e.is_out_of_tree && e.state == ModuleState::Live
                && e.use_count as u64 > e.used_by.len() as u64,
        }
    }
}

/// Whether `e` stands in `all`.
pub open spec fn listed(all: Seq<&ModuleEntry>, e: ModuleEntry) -> bool {
    exists|k: int| 0 <= k < all.len() && *(#[trigger] all[k]) == e
}

proof fn lemma_listed_push(all: Seq<&ModuleEntry>, x: &ModuleEntry)
    ensures
        forall|e: ModuleEntry| #[trigger] listed(all.push(x), e) <==> listed(all, e) || e == *x,
{
    let more = all.push(x);
    assert forall|e: ModuleEntry| #[trigger] listed(more, e) <==> listed(all, e) || e == *x by {
        if listed(all, e) {
            let k = choose|k: int| 0 <= k < all.len() && *(#[trigger] all[k]) == e;
            assert(*more[k] == e);
        }
        assert(*more[all.len() as int] == *x);
        if listed(more, e) && e != *x {
            let k = choose|k: int| 0 <= k < more.len() && *(#[trigger] more[k]) == e;
            assert(*all[k] == e);
        }
    }
}

impl ModuleList {
    /// Whether `e` is an entry of one of the snapshots.
    pub open spec fn observed(self, e: ModuleEntry) -> bool {
        exists|i: int, j: int|
            0 <= i < self.snapshots@.len() && 0 <= j < self.snapshots@[i].modules@.len()
                && #[trigger] self.snapshots@[i].modules@[j] == e
    }

    /// Whether some entry is evidence of `what` for the module `name`.
    pub open spec fn shows(self, what: Evidence, name: Seq<char>) -> bool {
        exists|e: ModuleEntry| #[trigger] self.observed(e) && what.given_by(e) && e.name@ == name
    }

    /// A list without observations.
    pub fn new() -> (list: ModuleList)
        ensures
            list.snapshots@.len() == 0,
            list.device_aliases@.len() == 0,
            list.modules_alias@.len() == 0,
            list.pinned_configs@.len() == 0,
    {
        ModuleList {
            snapshots: Vec::new(),
            device_aliases: Vec::new(),
            modules_alias: Vec::new(),
            pinned_configs: Vec::new(),
        }
    }

    /// Every entry of every snapshot.
    pub(crate) fn entries(&self) -> (all: Vec<&ModuleEntry>)
        ensures
            forall|e: ModuleEntry| #[trigger] self.observed(e) <==> listed(all@, e),
    {
        let mut all: Vec<&ModuleEntry> = Vec::new();
        let mut i: usize = 0;
        while i < self.snapshots.len()
            invariant
                i <= self.snapshots@.len(),
                forall|e: ModuleEntry| #[trigger] listed(all@, e) ==> self.observed(e),
                forall|p: int, q: int|
                    0 <= p < i && 0 <= q < self.snapshots@[p].modules@.len() ==> listed(
                        all@,
                        #[trigger] self.snapshots@[p].modules@[q],
                    ),
            decreases self.snapshots@.len() - i,
        {
            let modules = &self.snapshots[i].modules;
            let mut j: usize = 0;
            while j < modules.len()
                invariant
                    i < self.snapshots@.len(),
                    j <= modules@.len(),
                    *modules == self.snapshots@[i as int].modules,
                    forall|e: ModuleEntry| #[trigger] listed(all@, e) ==> self.observed(e),
                    forall|p: int, q: int|
                        0 <= p < i && 0 <= q < self.snapshots@[p].modules@.len() ==> listed(
                            all@,
                            #[trigger] self.snapshots@[p].modules@[q],
                        ),
                    forall|q: int| 0 <= q < j ==> listed(all@, #[trigger] modules@[q]),
                decreases modules@.len() - j,
            {
                let ghost before = all@;
                all.push(&modules[j]);
                proof {
                    let here = modules@[j as int];
                    assert(self.snapshots@[i as int].modules@[j as int] == here);
                    assert(self.observed(here));
                    lemma_listed_push(before, &modules@[j as int]);
                }
                j += 1;
            }
            i += 1;
        }
        all
    }

    /// The names for which some entry is evidence of `what`.
    pub fn names_with(&self, what: Evidence) -> (names: NameSet)
        ensures
            forall|n: Seq<char>| names@.contains(n) <==> #[trigger] self.shows(what, n),
    {
        let all = self.entries();
        let mut names = NameSet::new();
        let mut i: usize = 0;
        while i < all.len()
            invariant
                i <= all@.len(),
                forall|e: ModuleEntry| #[trigger] self.observed(e) <==> listed(all@, e),
                forall|n: Seq<char>| #[trigger] names@.contains(n) ==> self.shows(what, n),
                forall|k: int|
                    0 <= k < i && what.given_by(*#[trigger] all@[k]) ==> names@.contains(
                        all@[k].name@,
                    ),
            decreases all@.len() - i,
        {
            let e = all[i];
            if what.admits(e) {
                names.insert(e.name.clone());
                assert(listed(all@, *all@[i as int]));
                assert(self.observed(*e));
                assert(self.shows(what, e.name@));
            }
            i += 1;
        }
        assert forall|n: Seq<char>| names@.contains(n) <==> #[trigger] self.shows(what, n) by {
            if self.shows(what, n) {
                let e = choose|e: ModuleEntry| #[trigger]
                    self.observed(e) && what.given_by(e) && e.name@ == n;
                let k = choose|k: int| 0 <= k < all@.len() && *(#[trigger] all@[k]) == e;
                assert(names@.contains(all@[k].name@));
            }
        }
        names
    }
}

impl Default for ModuleList {
    fn default() -> (list: ModuleList)
        ensures
            list.snapshots@.len() == 0,
            list.device_aliases@.len() == 0,
            list.modules_alias@.len() == 0,
            list.pinned_configs@.len() == 0,
    {
        ModuleList::new()
    }
}

} // verus!
