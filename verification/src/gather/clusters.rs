//! Which modules hang together, and which groups of them can be removed safely.
use crate::gather::{Evidence, ModuleEntry, ModuleList, listed};
use crate::names::{
    ascending, difference, lemma_ascending_unique, lemma_order_total, lemma_order_trans,
    order_texts, precedes, NameMap, NameSet, Order,
};
use crate::reach::{
    leads_to, lemma_closed, lemma_leads_to_back, lemma_leads_to_self, lemma_leads_to_step,
    lemma_leads_to_trans, lemma_same_reach, reach, reached_from, relate, related,
    relation,
};
use crate::text::texts;
use vstd::prelude::*;

verus! {

// ── Dependencies ──────────────────────────────────────────────────────────────

/// Whether `pairs` holds the pair of `a` and `b`.
spec fn paired(pairs: Seq<(&String, &String)>, a: Seq<char>, b: Seq<char>) -> bool {
    exists|k: int| 0 <= k < pairs.len() && (#[trigger] pairs[k]).0@ == a && pairs[k].1@ == b
}

proof fn lemma_paired_push(pairs: Seq<(&String, &String)>, x: (&String, &String))
    ensures
        forall|a: Seq<char>, b: Seq<char>| #[trigger]
            paired(pairs.push(x), a, b) <==> paired(pairs, a, b) || (a == x.0@ && b == x.1@),
{
    let more = pairs.push(x);
    assert forall|a: Seq<char>, b: Seq<char>| #[trigger]
        paired(more, a, b) <==> paired(pairs, a, b) || (a == x.0@ && b == x.1@) by {
        assert(more[pairs.len() as int] == x);
        if paired(pairs, a, b) {
            let k = choose|k: int|
                0 <= k < pairs.len() && (#[trigger] pairs[k]).0@ == a && pairs[k].1@ == b;
            assert(more[k] == pairs[k]);
        }
        if paired(more, a, b) {
            let k = choose|k: int|
                0 <= k < more.len() && (#[trigger] more[k]).0@ == a && more[k].1@ == b;
            if k < pairs.len() {
                assert(more[k] == pairs[k]);
            }
        }
    }
}

impl ModuleList {
    /// Whether an entry that is evidence of `what` says that module `a` uses module `b`.
    pub open spec fn depends(self, what: Evidence, a: Seq<char>, b: Seq<char>) -> bool {
        exists|e: ModuleEntry| #[trigger]
            self.observed(e) && what.given_by(e) && e.is_used_by(a) && e.name@ == b
    }

    /// The relation from each module to those that it uses, by the entries that are evidence of
    /// `what`.
    pub open spec fn dependency(self, what: Evidence) -> spec_fn(Seq<char>, Seq<char>) -> bool {
        |a: Seq<char>, b: Seq<char>| self.depends(what, a, b)
    }

    /// The pairs of a using and a used module, by the entries that are evidence of `what`.
    fn uses(&self, what: Evidence) -> (pairs: Vec<(&String, &String)>)
        ensures
            forall|a: Seq<char>, b: Seq<char>| #[trigger]
                paired(pairs@, a, b) <==> self.depends(what, a, b),
    {
        let all = self.entries();
        let mut pairs: Vec<(&String, &String)> = Vec::new();
        let mut i: usize = 0;
        while i < all.len()
            invariant
                i <= all@.len(),
                forall|e: ModuleEntry| #[trigger] self.observed(e) <==> listed(all@, e),
                forall|a: Seq<char>, b: Seq<char>| #[trigger]
                    paired(pairs@, a, b) ==> self.depends(what, a, b),
                forall|k: int, a: Seq<char>|
                    0 <= k < i && what.given_by(*all@[k]) && #[trigger] all@[k].is_used_by(a)
                        ==> paired(pairs@, a, all@[k].name@),
            decreases all@.len() - i,
        {
            let e = all[i];
            assert(listed(all@, *all@[i as int]));
            assert(self.observed(*e));
            if what.admits(e) {
                let mut j: usize = 0;
                while j < e.used_by.len()
                    invariant
                        i < all@.len(),
                        j <= e.used_by@.len(),
                        e == all@[i as int],
                        self.observed(*e),
                        what.given_by(*e),
                        forall|a: Seq<char>, b: Seq<char>| #[trigger]
                            paired(pairs@, a, b) ==> self.depends(what, a, b),
                        forall|k: int, a: Seq<char>|
                            0 <= k < i && what.given_by(*all@[k]) && #[trigger] all@[k].is_used_by(
                                a,
                            ) ==> paired(pairs@, a, all@[k].name@),
                        forall|q: int|
                            0 <= q < j ==> paired(pairs@, (#[trigger] e.used_by@[q])@, e.name@),
                    decreases e.used_by@.len() - j,
                {
                    let ghost before = pairs@;
                    pairs.push((&e.used_by[j], &e.name));
                    proof {
                        lemma_paired_push(before, (&e.used_by@[j as int], &e.name));
                        assert(e.is_used_by(e.used_by@[j as int]@));
                        assert(self.depends(what, e.used_by@[j as int]@, e.name@));
                    }
                    j += 1;
                }
            }
            i += 1;
        }
        assert forall|a: Seq<char>, b: Seq<char>| #[trigger]
            paired(pairs@, a, b) <==> self.depends(what, a, b) by {
            if self.depends(what, a, b) {
                let e = choose|e: ModuleEntry| #[trigger]
                    self.observed(e) && what.given_by(e) && e.is_used_by(a) && e.name@ == b;
                let k = choose|k: int| 0 <= k < all@.len() && *(#[trigger] all@[k]) == e;
                assert(all@[k].is_used_by(a));
            }
        }
        pairs
    }

    /// The modules that each module uses, by the entries that are evidence of `what`.
    fn dependencies(&self, what: Evidence) -> (map: NameMap<NameSet>)
        ensures
            forall|a: Seq<char>, b: Seq<char>| #[trigger]
                related(map@, a, b) <==> self.depends(what, a, b),
    {
        let pairs = self.uses(what);
        let mut map: NameMap<NameSet> = NameMap::new();
        let mut i: usize = 0;
        while i < pairs.len()
            invariant
                i <= pairs@.len(),
                forall|a: Seq<char>, b: Seq<char>| #[trigger]
                    related(map@, a, b) <==> paired(pairs@.take(i as int), a, b),
            decreases pairs@.len() - i,
        {
            proof {
                assert(pairs@.take(i + 1) == pairs@.take(i as int).push(pairs@[i as int]));
                lemma_paired_push(pairs@.take(i as int), pairs@[i as int]);
            }
            relate(&mut map, pairs[i].0.as_str(), pairs[i].1.as_str());
            i += 1;
        }
        assert(pairs@.take(i as int) == pairs@);
        map
    }

    /// Whether every entry for module `n` is out-of-tree, and there is one.
    pub open spec fn only_out_of_tree(self, n: Seq<char>) -> bool {
        !self.shows(Evidence::InTree, n) && exists|e: ModuleEntry| #[trigger]
            self.observed(e) && e.is_out_of_tree && e.name@ == n
    }

    /// The names of the modules that have out-of-tree entries only.
    fn out_of_tree_modules(&self) -> (names: NameSet)
        ensures
            forall|n: Seq<char>| #[trigger] names@.contains(n) <==> self.only_out_of_tree(n),
    {
        let outside = self.names_with(Evidence::OutOfTree);
        let inside = self.names_with(Evidence::InTree);
        let names = difference(&outside, &inside);
        assert forall|n: Seq<char>| #[trigger] names@.contains(n) <==> self.only_out_of_tree(
            n,
        ) by {
            assert(outside@.contains(n) <==> self.shows(Evidence::OutOfTree, n));
            assert(inside@.contains(n) <==> self.shows(Evidence::InTree, n));
            if self.shows(Evidence::OutOfTree, n) {
                let e = choose|e: ModuleEntry| #[trigger]
                    self.observed(e) && Evidence::OutOfTree.given_by(e) && e.name@ == n;
                assert(e.is_out_of_tree);
            }
            if self.only_out_of_tree(n) {
                let e = choose|e: ModuleEntry| #[trigger]
                    self.observed(e) && e.is_out_of_tree && e.name@ == n;
                assert(Evidence::OutOfTree.given_by(e));
            }
        }
        names
    }

    /// For each module, those not in `left_out` that were ever seen to depend on it, across all
    /// snapshots and in-tree entries.
    pub(crate) fn dependents(&self, left_out: &NameSet) -> (map: NameMap<NameSet>)
        ensures
            forall|a: Seq<char>, b: Seq<char>| #[trigger]
                related(map@, b, a) <==> self.depends(Evidence::InTree, a, b)
                    && !left_out@.contains(a),
            forall|b: Seq<char>| #[trigger]
                map@.contains_key(b) <==> exists|a: Seq<char>| #[trigger] related(map@, b, a),
    {
        let pairs = self.uses(Evidence::InTree);
        let mut map: NameMap<NameSet> = NameMap::new();
        let mut i: usize = 0;
        while i < pairs.len()
            invariant
                i <= pairs@.len(),
                forall|a: Seq<char>, b: Seq<char>| #[trigger]
                    related(map@, b, a) <==> paired(pairs@.take(i as int), a, b)
                        && !left_out@.contains(a),
                forall|b: Seq<char>| #[trigger]
                    map@.contains_key(b) ==> exists|a: Seq<char>| #[trigger] related(map@, b, a),
            decreases pairs@.len() - i,
        {
            let ghost before = map@;
            proof {
                assert(pairs@.take(i + 1) == pairs@.take(i as int).push(pairs@[i as int]));
                lemma_paired_push(pairs@.take(i as int), pairs@[i as int]);
            }
            if !left_out.contains(pairs[i].0.as_str()) {
                relate(&mut map, pairs[i].1.as_str(), pairs[i].0.as_str());
                proof {
                    assert forall|b: Seq<char>| #[trigger] map@.contains_key(b) implies exists|
                        a: Seq<char>,
                    | #[trigger] related(map@, b, a) by {
                        if before.contains_key(b) {
                            let a = choose|a: Seq<char>| #[trigger] related(before, b, a);
                            assert(related(map@, b, a));
                        } else {
                            assert(related(map@, b, pairs@[i as int].0@));
                        }
                    }
                }
            }
            i += 1;
        }
        assert(pairs@.take(i as int) == pairs@);
        map
    }

    /// Returns a map from module name to the modules that were ever seen to depend on it, across
    /// all snapshots and in-tree entries. A module that is known to be out-of-tree stands in no
    /// set, and a module on which none depends has no key.
    pub fn ever_depended_on_by(&self) -> (map: NameMap<NameSet>)
        ensures
            forall|a: Seq<char>, b: Seq<char>| #[trigger]
                related(map@, b, a) <==> self.depends(Evidence::InTree, a, b)
                    && !self.only_out_of_tree(a),
            forall|b: Seq<char>| #[trigger]
                map@.contains_key(b) <==> exists|a: Seq<char>|
                    self.depends(Evidence::InTree, a, b) && !self.only_out_of_tree(a),
    {
        let left_out = self.out_of_tree_modules();
        let map = self.dependents(&left_out);
        assert forall|b: Seq<char>| #[trigger] map@.contains_key(b) <==> exists|a: Seq<char>|
            self.depends(Evidence::InTree, a, b) && !self.only_out_of_tree(a) by {
            if map@.contains_key(b) {
                let a = choose|a: Seq<char>| #[trigger] related(map@, b, a);
                assert(self.depends(Evidence::InTree, a, b) && !self.only_out_of_tree(a));
            }
            if exists|a: Seq<char>| self.depends(Evidence::InTree, a, b)
                && !self.only_out_of_tree(a) {
                let a = choose|a: Seq<char>| self.depends(Evidence::InTree, a, b)
                    && !self.only_out_of_tree(a);
                assert(related(map@, b, a));
            }
        }
        map
    }

    /// Returns the set of in-tree module names that must also be disabled when disabling
    /// `module`: every module that directly or transitively lists `module` in its `used_by` chain,
    /// across all snapshots.
    ///
    /// The returned set does *not* include `module` itself.
    pub fn disable_cascade(&self, module: &str) -> (cascade: NameSet)
        ensures
            forall|n: Seq<char>| #[trigger]
                cascade@.contains(n) <==> n != module@ && leads_to(
                    self.dependency(Evidence::InTree),
                    module@,
                    n,
                ),
    {
        let map = self.dependencies(Evidence::InTree);
        let mut seeds = NameSet::new();
        seeds.insert(module.to_owned());
        let mut cascade = reach(&map, &seeds);
        proof {
            let edge = self.dependency(Evidence::InTree);
            assert forall|n: Seq<char>| #[trigger] cascade@.contains(n) <==> leads_to(
                edge,
                module@,
                n,
            ) by {
                lemma_same_reach(relation(map@), edge, seeds@, n);
                assert(seeds@.contains(module@));
                if reached_from(edge, seeds@, n) {
                    let s = choose|s: Seq<char>| #[trigger]
                        seeds@.contains(s) && leads_to(edge, s, n);
                    assert(s == module@);
                }
            }
        }
        cascade.remove(module);
        cascade
    }
}

// ── Clusters ──────────────────────────────────────────────────────────────────

impl ModuleList {
    /// The modules that something outside the modules relies on: those in direct use, and those
    /// that handle a device on the target.
    pub open spec fn vital(self) -> Set<Seq<char>> {
        Set::new(|n: Seq<char>| self.shows(Evidence::DirectlyUsed, n) || self.drives_device(n))
    }

    /// Whether module `n` has to stay: it is vital, or a vital module depends on it, directly or
    /// through others.
    pub open spec fn must_keep(self, n: Seq<char>) -> bool {
        reached_from(self.dependency(Evidence::Live), self.vital(), n)
    }

    /// Whether module `n` was loaded and can be removed safely.
    pub open spec fn disableable(self, n: Seq<char>) -> bool {
        self.shows(Evidence::Live, n) && !self.must_keep(n)
    }

    /// Whether `a` and `b` can both be removed and one of them depends on the other.
    pub open spec fn linked(self, a: Seq<char>, b: Seq<char>) -> bool {
        &&& self.disableable(a)
        &&& self.disableable(b)
        &&& self.depends(Evidence::InTree, a, b) || self.depends(Evidence::InTree, b, a)
    }

    /// The relation of removable modules of which one depends on the other.
    pub open spec fn linkage(self) -> spec_fn(Seq<char>, Seq<char>) -> bool {
        |a: Seq<char>, b: Seq<char>| self.linked(a, b)
    }

    /// What the clusters of the list are:
    /// - each is a list of names in ascending order, none is empty;
    /// - together they hold the names of the removable modules;
    /// - two modules share a cluster just where a chain of linked modules joins them;
    /// - a larger cluster stands in front of a smaller one, and of two as large that with the
    ///   smaller first name.
    pub open spec fn is_clustering(self, clusters: Seq<Seq<Seq<char>>>) -> bool {
        &&& forall|i: int|
            0 <= i < clusters.len() ==> (#[trigger] clusters[i]).len() > 0 && ascending(clusters[i])
        &&& forall|n: Seq<char>| #[trigger] self.disableable(n) <==> in_some(clusters, n)
        &&& forall|i: int, j: int, a: Seq<char>, b: Seq<char>|
            0 <= i < clusters.len() && 0 <= j < clusters.len() && #[trigger] clusters[i].contains(a)
                && #[trigger] clusters[j].contains(b) ==> (i == j <==> leads_to(
                self.linkage(),
                a,
                b,
            ))
        &&& forall|i: int, j: int|
            0 <= i < j < clusters.len() ==> stands_before(
                #[trigger] clusters[i],
                #[trigger] clusters[j],
            )
    }
}

/// Whether `n` stands in one of the clusters.
pub open spec fn in_some(clusters: Seq<Seq<Seq<char>>>, n: Seq<char>) -> bool {
    exists|i: int| 0 <= i < clusters.len() && (#[trigger] clusters[i]).contains(n)
}

/// Whether cluster `a` is larger than `b`, or as large with a smaller first name.
pub open spec fn stands_before(a: Seq<Seq<char>>, b: Seq<Seq<char>>) -> bool {
    a.len() > b.len() || (a.len() == b.len() && precedes(a[0], b[0]))
}

/// The views of lists of strings.
pub open spec fn name_lists(v: Seq<Vec<String>>) -> Seq<Seq<Seq<char>>> {
    Seq::new(v.len(), |i: int| texts(v[i]@))
}

/// Whether `c` lists in order what its first name leads to.
spec fn is_component(edge: spec_fn(Seq<char>, Seq<char>) -> bool, c: Seq<Seq<char>>) -> bool {
    &&& c.len() > 0
    &&& ascending(c)
    &&& forall|n: Seq<char>| #[trigger] c.contains(n) <==> leads_to(edge, c[0], n)
}

spec fn symmetric(edge: spec_fn(Seq<char>, Seq<char>) -> bool) -> bool {
    forall|x: Seq<char>, y: Seq<char>| #[trigger] edge(x, y) ==> edge(y, x)
}

/// Components that share a name are the same.
proof fn lemma_component_shared(
    edge: spec_fn(Seq<char>, Seq<char>) -> bool,
    c: Seq<Seq<char>>,
    d: Seq<Seq<char>>,
    a: Seq<char>,
    b: Seq<char>,
)
    requires
        symmetric(edge),
        is_component(edge, c),
        is_component(edge, d),
        c.contains(a),
        d.contains(b),
        leads_to(edge, a, b),
    ensures
        c == d,
{
    lemma_leads_to_trans(edge, c[0], a, b);
    lemma_leads_to_back(edge, d[0], b);
    lemma_leads_to_trans(edge, c[0], b, d[0]);
    lemma_leads_to_back(edge, c[0], d[0]);
    assert forall|n: Seq<char>| c.contains(n) <==> d.contains(n) by {
        if c.contains(n) {
            lemma_leads_to_trans(edge, d[0], c[0], n);
        }
        if d.contains(n) {
            lemma_leads_to_trans(edge, c[0], d[0], n);
        }
    }
    lemma_ascending_unique(c, d);
}

/// Whether the clusters are components in the order of `stands_before`.
spec fn in_place(
    edge: spec_fn(Seq<char>, Seq<char>) -> bool,
    clusters: Seq<Seq<Seq<char>>>,
) -> bool {
    &&& forall|i: int| 0 <= i < clusters.len() ==> is_component(edge, #[trigger] clusters[i])
    &&& forall|i: int, j: int|
        0 <= i < j < clusters.len() ==> stands_before(
            #[trigger] clusters[i],
            #[trigger] clusters[j],
        )
}

proof fn lemma_stands_before_trans(a: Seq<Seq<char>>, b: Seq<Seq<char>>, c: Seq<Seq<char>>)
    requires
        stands_before(a, b),
        stands_before(b, c),
    ensures
        stands_before(a, c),
{
    if a.len() == b.len() && b.len() == c.len() {
        lemma_order_trans(a[0], b[0], c[0]);
    }
}

/// Puts `component` where it belongs among `clusters`.
fn place(clusters: &mut Vec<Vec<String>>, component: Vec<String>, edge: Ghost<spec_fn(Seq<char>, Seq<char>) -> bool>)
    requires
        in_place(edge@, name_lists(old(clusters)@)),
        is_component(edge@, texts(component@)),
        symmetric(edge@),
        !in_some(name_lists(old(clusters)@), texts(component@)[0]),
    ensures
        in_place(edge@, name_lists(final(clusters)@)),
        forall|n: Seq<char>| #[trigger]
            in_some(name_lists(final(clusters)@), n) <==> in_some(name_lists(old(clusters)@), n)
                || texts(component@).contains(n),
{
    let ghost before = name_lists(clusters@);
    let ghost new = texts(component@);
    let mut at: usize = 0;
    while at < clusters.len() && (clusters[at].len() > component.len() || (clusters[at].len()
        == component.len() && is_less(clusters[at][0].as_str(), component[0].as_str())))
        invariant
            at <= clusters@.len(),
            before == name_lists(clusters@),
            new == texts(component@),
            new.len() > 0,
            in_place(edge@, before),
            forall|i: int| 0 <= i < at ==> stands_before(#[trigger] before[i], new),
        decreases clusters@.len() - at,
    {
        assert(before[at as int] == texts(clusters@[at as int]@));
        at += 1;
    }
    proof {
        assert forall|j: int| at <= j < before.len() implies stands_before(
            new,
            #[trigger] before[j],
        ) by {
            let c = before[at as int];
            assert(c == texts(clusters@[at as int]@));
            assert(is_component(edge@, c));
            lemma_order_total(c[0], new[0]);
            lemma_leads_to_self(edge@, c[0]);
            assert(c.contains(c[0]));
            assert(in_some(before, c[0]));
            assert(stands_before(new, c));
            if at < j {
                lemma_stands_before_trans(new, c, before[j]);
            }
        }
    }
    clusters.insert(at, component);
    proof {
        let after = name_lists(clusters@);
        assert(after =~= before.insert(at as int, new));
        assert forall|i: int| 0 <= i < after.len() implies is_component(
            edge@,
            #[trigger] after[i],
        ) by {
            if i < at {
                assert(after[i] == before[i]);
            } else if i > at {
                assert(after[i] == before[i - 1]);
            }
        }
        assert forall|i: int, j: int| 0 <= i < j < after.len() implies stands_before(
            #[trigger] after[i],
            #[trigger] after[j],
        ) by {
            let i0 = if i < at { i } else { i - 1 };
            let j0 = if j < at { j } else { j - 1 };
            if i != at {
                assert(after[i] == before[i0]);
            }
            if j != at {
                assert(after[j] == before[j0]);
            }
        }
        assert forall|n: Seq<char>| #[trigger] in_some(after, n) <==> in_some(before, n)
            || new.contains(n) by {
            if in_some(before, n) {
                let i = choose|i: int| 0 <= i < before.len() && (#[trigger] before[i]).contains(n);
                let k = if i < at { i } else { i + 1 };
                assert(after[k] == before[i]);
            }
            if new.contains(n) {
                assert(after[at as int] == new);
            }
            if in_some(after, n) && !new.contains(n) {
                let k = choose|k: int| 0 <= k < after.len() && (#[trigger] after[k]).contains(n);
                let i = if k < at { k } else { k - 1 };
                assert(before[i] == after[k]);
            }
        }
    }
}

/// Whether `a` stands before `b` in the order of names.
fn is_less(a: &str, b: &str) -> (yes: bool)
    ensures
        yes == precedes(a@, b@),
{
    match order_texts(a, b) {
        Order::Less => true,
        _ => false,
    }
}

impl ModuleList {
    /// The names of the modules that can be removed safely.
    fn disableable_modules(&self) -> (names: NameSet)
        ensures
            forall|n: Seq<char>| #[trigger] names@.contains(n) <==> self.disableable(n),
    {
        let live = self.names_with(Evidence::Live);
        let mut vital = self.names_with(Evidence::DirectlyUsed);
        vital.insert_all(&self.device_required_modules());
        assert(vital@ =~= self.vital());
        let map = self.dependencies(Evidence::Live);
        let keep = reach(&map, &vital);
        proof {
            assert forall|n: Seq<char>| #[trigger] keep@.contains(n) <==> self.must_keep(n) by {
                lemma_same_reach(
                    relation(map@),
                    self.dependency(Evidence::Live),
                    self.vital(),
                    n,
                );
            }
        }
        let mut names = NameSet::new();
        let count: usize = live.len();
        let mut i: usize = 0;
        while i < count
            invariant
                i <= count,
                count == live.names().len(),
                forall|n: Seq<char>| live@.contains(n) <==> #[trigger] self.shows(
                    Evidence::Live,
                    n,
                ),
                forall|n: Seq<char>| #[trigger] keep@.contains(n) <==> self.must_keep(n),
                forall|n: Seq<char>| #[trigger] names@.contains(n) ==> self.disableable(n),
                forall|k: int|
                    0 <= k < i && !self.must_keep(#[trigger] live.names()[k]) ==> names@.contains(
                        live.names()[k],
                    ),
            decreases count - i,
        {
            let name = live.get(i);
            if !keep.contains(name.as_str()) {
                assert(self.shows(Evidence::Live, name@));
                names.insert(name.clone());
            }
            i += 1;
        }
        assert forall|n: Seq<char>| #[trigger] names@.contains(n) <==> self.disableable(n) by {
            if self.disableable(n) {
                assert(live.names().contains(n));
            }
        }
        names
    }

    /// The modules to which each removable module is linked.
    fn links(&self, names: &NameSet) -> (map: NameMap<NameSet>)
        requires
            forall|n: Seq<char>| #[trigger] names@.contains(n) <==> self.disableable(n),
        ensures
            forall|a: Seq<char>, b: Seq<char>| #[trigger]
                related(map@, a, b) <==> self.linked(a, b),
    {
        let pairs = self.uses(Evidence::InTree);
        let mut map: NameMap<NameSet> = NameMap::new();
        let mut i: usize = 0;
        while i < pairs.len()
            invariant
                i <= pairs@.len(),
                forall|n: Seq<char>| #[trigger] names@.contains(n) <==> self.disableable(n),
                forall|a: Seq<char>, b: Seq<char>| #[trigger]
                    related(map@, a, b) <==> self.disableable(a) && self.disableable(b) && (paired(
                        pairs@.take(i as int),
                        a,
                        b,
                    ) || paired(pairs@.take(i as int), b, a)),
            decreases pairs@.len() - i,
        {
            proof {
                assert(pairs@.take(i + 1) == pairs@.take(i as int).push(pairs@[i as int]));
                lemma_paired_push(pairs@.take(i as int), pairs@[i as int]);
            }
            let a = pairs[i].0.as_str();
            let b = pairs[i].1.as_str();
            if names.contains(a) && names.contains(b) {
                relate(&mut map, a, b);
                relate(&mut map, b, a);
            }
            i += 1;
        }
        assert(pairs@.take(i as int) == pairs@);
        map
    }

    /// Returns the connected components of the "safely disableable" sub-graph.
    ///
    /// A module is **must-keep** if it is directly active (`use_count > used_by.len()` in any Live
    /// snapshot), if it handles a device that is present on the target system (bus and transport
    /// drivers may have a use count of 0 while they serve hardware), or if it is transitively
    /// depended on by such a module. Every other in-tree Live module is safely disableable.
    ///
    /// Modules in the same component depend on each other (directly or indirectly) and must be
    /// removed as a unit. Each returned `Vec<String>` is one component, names sorted
    /// alphabetically. Components are sorted by descending size, then alphabetically by first
    /// name.
    pub fn safely_disableable_clusters(&self) -> (clusters: Vec<Vec<String>>)
        ensures
            self.is_clustering(name_lists(clusters@)),
    {
        let names = self.disableable_modules();
        let map = self.links(&names);
        let ghost edge = self.linkage();
        let mut visited = NameSet::new();
        let mut clusters: Vec<Vec<String>> = Vec::new();
        let count: usize = names.len();
        let mut i: usize = 0;
        while i < count
            invariant
                i <= count,
                count == names.names().len(),
                edge == self.linkage(),
                forall|n: Seq<char>| #[trigger] names@.contains(n) <==> self.disableable(n),
                forall|a: Seq<char>, b: Seq<char>| #[trigger]
                    related(map@, a, b) <==> self.linked(a, b),
                in_place(edge, name_lists(clusters@)),
                forall|n: Seq<char>| #[trigger]
                    visited@.contains(n) <==> in_some(name_lists(clusters@), n),
                forall|n: Seq<char>| #[trigger] visited@.contains(n) ==> self.disableable(n),
                forall|k: int| 0 <= k < i ==> visited@.contains(#[trigger] names.names()[k]),
            decreases count - i,
        {
            let start = names.get(i);
            if !visited.contains(start.as_str()) {
                let mut seeds = NameSet::new();
                seeds.insert(start.clone());
                let found = reach(&map, &seeds);
                let component = found.to_vec();
                let ghost new = texts(component@);
                proof {
                    assert forall|n: Seq<char>| #[trigger] new.contains(n) <==> leads_to(
                        edge,
                        start@,
                        n,
                    ) by {
                        assert(found@.contains(n) <==> new.contains(n));
                        lemma_same_reach(relation(map@), edge, seeds@, n);
                        assert(seeds@.contains(start@));
                        if reached_from(edge, seeds@, n) {
                            let s = choose|s: Seq<char>| #[trigger]
                                seeds@.contains(s) && leads_to(edge, s, n);
                            assert(s == start@);
                        }
                    }
                    lemma_leads_to_self(edge, start@);
                    assert(new.contains(start@));
                    assert(new.contains(new[0]));
                    lemma_leads_to_back(edge, start@, new[0]);
                    assert forall|n: Seq<char>| #[trigger] new.contains(n) <==> leads_to(
                        edge,
                        new[0],
                        n,
                    ) by {
                        if new.contains(n) {
                            lemma_leads_to_trans(edge, new[0], start@, n);
                        }
                        if leads_to(edge, new[0], n) {
                            lemma_leads_to_trans(edge, start@, new[0], n);
                        }
                    }
                    assert(is_component(edge, new));
                    let before = name_lists(clusters@);
                    if in_some(before, new[0]) {
                        let c = choose|c: int|
                            0 <= c < before.len() && (#[trigger] before[c]).contains(new[0]);
                        assert(is_component(edge, before[c]));
                        lemma_leads_to_self(edge, new[0]);
                        lemma_component_shared(edge, before[c], new, new[0], new[0]);
                        assert(in_some(before, start@));
                        assert(false);
                    }
                    let all = Set::new(|n: Seq<char>| self.disableable(n));
                    assert forall|n: Seq<char>| #[trigger] new.contains(n) implies self.disableable(
                        n,
                    ) by {
                        assert(all.contains(start@));
                        lemma_closed(edge, all, start@, n);
                        assert(all.contains(n));
                    }
                }
                visited.insert_all(&found);
                place(&mut clusters, component, Ghost(edge));
                assert forall|n: Seq<char>| #[trigger] visited@.contains(n) <==> in_some(
                    name_lists(clusters@),
                    n,
                ) by {
                    assert(found@.contains(n) <==> new.contains(n));
                }
                assert forall|n: Seq<char>| #[trigger] visited@.contains(n) implies self.disableable(
                    n,
                ) by {
                    assert(found@.contains(n) <==> new.contains(n));
                }
                assert(found@.contains(start@) <==> new.contains(start@));
            }
            i += 1;
        }
        proof {
            let lists = name_lists(clusters@);
            assert forall|n: Seq<char>| #[trigger] self.disableable(n) <==> in_some(lists, n) by {
                if self.disableable(n) {
                    assert(names@.contains(n));
                    assert(names.names().contains(n));
                    assert(visited@.contains(n));
                }
                if in_some(lists, n) {
                    assert(visited@.contains(n));
                }
            }
            assert forall|i: int, j: int, a: Seq<char>, b: Seq<char>|
                0 <= i < lists.len() && 0 <= j < lists.len() && #[trigger] lists[i].contains(a)
                    && #[trigger] lists[j].contains(b) implies (i == j <==> leads_to(
                self.linkage(),
                a,
                b,
            )) by {
                if i == j {
                    lemma_leads_to_back(edge, lists[i][0], a);
                    lemma_leads_to_trans(edge, a, lists[i][0], b);
                }
                if leads_to(edge, a, b) {
                    lemma_component_shared(edge, lists[i], lists[j], a, b);
                    lemma_order_total(lists[i][0], lists[j][0]);
                }
            }
        }
        clusters
    }
}

// ── Laws ──────────────────────────────────────────────────────────────────────

/// No module in direct use depends on a removable module, directly or through others.
pub proof fn lemma_active_depends_on_no_cluster(list: ModuleList, a: Seq<char>, b: Seq<char>)
    requires
        list.shows(Evidence::DirectlyUsed, a),
        leads_to(list.dependency(Evidence::Live), a, b),
    ensures
        !list.disableable(b),
{
    assert(list.vital().contains(a));
}

/// What has to stay takes with it everything that it depends on.
pub proof fn lemma_kept_depends_on_kept(list: ModuleList, a: Seq<char>, b: Seq<char>)
    requires
        list.must_keep(a),
        list.depends(Evidence::Live, a, b),
    ensures
        list.must_keep(b),
{
    let edge = list.dependency(Evidence::Live);
    let s = choose|s: Seq<char>| #[trigger] list.vital().contains(s) && leads_to(edge, s, a);
    assert(edge(a, b));
    lemma_leads_to_step(edge, s, a, b);
}

/// What is disabled along with a module takes along what is disabled with it.
pub proof fn lemma_cascade_nests(list: ModuleList, a: Seq<char>, b: Seq<char>, c: Seq<char>)
    requires
        leads_to(list.dependency(Evidence::InTree), a, b),
        leads_to(list.dependency(Evidence::InTree), b, c),
    ensures
        leads_to(list.dependency(Evidence::InTree), a, c),
{
    lemma_leads_to_trans(list.dependency(Evidence::InTree), a, b, c);
}

/// A cluster of one clustering is a cluster of the other.
proof fn lemma_cluster_found(
    list: ModuleList,
    c: Seq<Seq<Seq<char>>>,
    d: Seq<Seq<Seq<char>>>,
    i: int,
) -> (j: int)
    requires
        list.is_clustering(c),
        list.is_clustering(d),
        0 <= i < c.len(),
    ensures
        0 <= j < d.len(),
        c[i] == d[j],
{
    let n = c[i][0];
    assert(c[i].contains(n));
    assert(in_some(c, n));
    assert(list.disableable(n));
    let j = choose|j: int| 0 <= j < d.len() && (#[trigger] d[j]).contains(n);
    assert forall|a: Seq<char>| c[i].contains(a) <==> d[j].contains(a) by {
        if c[i].contains(a) {
            assert(leads_to(list.linkage(), a, n));
            assert(in_some(c, a));
            assert(list.disableable(a));
            let k = choose|k: int| 0 <= k < d.len() && (#[trigger] d[k]).contains(a);
            assert(k == j);
        }
        if d[j].contains(a) {
            assert(leads_to(list.linkage(), a, n));
            assert(in_some(d, a));
            assert(list.disableable(a));
            let k = choose|k: int| 0 <= k < c.len() && (#[trigger] c[k]).contains(a);
            assert(k == i);
        }
    }
    lemma_ascending_unique(c[i], d[j]);
    j
}

proof fn lemma_clusters_agree(
    list: ModuleList,
    c: Seq<Seq<Seq<char>>>,
    d: Seq<Seq<Seq<char>>>,
    k: int,
)
    requires
        list.is_clustering(c),
        list.is_clustering(d),
        0 <= k <= c.len(),
    ensures
        k <= d.len(),
        c.take(k) == d.take(k),
    decreases k,
{
    if k > 0 {
        lemma_clusters_agree(list, c, d, k - 1);
        let at = k - 1;
        assert forall|m: int| 0 <= m < at implies c[m] == d[m] by {
            assert(c.take(at)[m] == d.take(at)[m]);
        }
        let j = lemma_cluster_found(list, c, d, at);
        lemma_order_total(c[at][0], c[at][0]);
        if j < at {
            assert(stands_before(c[j], c[at]));
        }
        let i = lemma_cluster_found(list, d, c, at);
        lemma_order_total(d[at][0], d[at][0]);
        if i < at {
            assert(stands_before(d[i], d[at]));
        }
        if j > at && i > at {
            lemma_stands_before_trans(c[at], c[i], d[j]);
        }
        assert(c.take(k) =~= d.take(k));
    }
}

/// A list has one clustering.
pub proof fn lemma_clustering_unique(
    list: ModuleList,
    c: Seq<Seq<Seq<char>>>,
    d: Seq<Seq<Seq<char>>>,
)
    requires
        list.is_clustering(c),
        list.is_clustering(d),
    ensures
        c == d,
{
    lemma_clusters_agree(list, c, d, c.len() as int);
    lemma_clusters_agree(list, d, c, d.len() as int);
    assert(c.take(c.len() as int) == c);
    assert(d.take(d.len() as int) == d);
}

} // verus!
