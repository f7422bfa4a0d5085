//! Relations between names and what can be reached along them.
use crate::names::{NameMap, NameSet};
use crate::text::texts;
use vstd::prelude::*;

verus! {

/// Whether `map` leads from `a` to `b`.
pub open spec fn related(map: Map<Seq<char>, NameSet>, a: Seq<char>, b: Seq<char>) -> bool {
    map.contains_key(a) && map[a]@.contains(b)
}

/// The relation that `map` holds.
pub open spec fn relation(map: Map<Seq<char>, NameSet>) -> spec_fn(Seq<char>, Seq<char>) -> bool {
    |a: Seq<char>, b: Seq<char>| related(map, a, b)
}

/// Whether `path` runs from `a` to `b`, each step along an edge.
pub open spec fn walk(
    edge: spec_fn(Seq<char>, Seq<char>) -> bool,
    path: Seq<Seq<char>>,
    a: Seq<char>,
    b: Seq<char>,
) -> bool {
    &&& path.len() > 0
    &&& path[0] == a
    &&& path.last() == b
    &&& forall|i: int| 0 <= i < path.len() - 1 ==> edge(#[trigger] path[i], path[i + 1])
}

/// Whether `b` can be reached from `a` in any number of steps, none included.
pub open spec fn leads_to(
    edge: spec_fn(Seq<char>, Seq<char>) -> bool,
    a: Seq<char>,
    b: Seq<char>,
) -> bool {
    exists|path: Seq<Seq<char>>| walk(edge, path, a, b)
}

/// Whether `n` can be reached from any name of `seeds`.
pub open spec fn reached_from(
    edge: spec_fn(Seq<char>, Seq<char>) -> bool,
    seeds: Set<Seq<char>>,
    n: Seq<char>,
) -> bool {
    exists|s: Seq<char>| #[trigger] seeds.contains(s) && leads_to(edge, s, n)
}

/// Every name leads to itself.
pub proof fn lemma_leads_to_self(edge: spec_fn(Seq<char>, Seq<char>) -> bool, a: Seq<char>)
    ensures
        leads_to(edge, a, a),
{
    assert(walk(edge, seq![a], a, a));
}

/// A way can be made longer by one edge.
pub proof fn lemma_leads_to_step(
    edge: spec_fn(Seq<char>, Seq<char>) -> bool,
    a: Seq<char>,
    b: Seq<char>,
    c: Seq<char>,
)
    requires
        leads_to(edge, a, b),
        edge(b, c),
    ensures
        leads_to(edge, a, c),
{
    let path = choose|path: Seq<Seq<char>>| walk(edge, path, a, b);
    let longer = path.push(c);
    assert forall|i: int| 0 <= i < longer.len() - 1 implies edge(
        #[trigger] longer[i],
        longer[i + 1],
    ) by {
        if i < path.len() - 1 {
            assert(edge(path[i], path[i + 1]));
        }
    }
    assert(walk(edge, longer, a, c));
}

/// A way and its continuation make a way.
pub proof fn lemma_leads_to_trans(
    edge: spec_fn(Seq<char>, Seq<char>) -> bool,
    a: Seq<char>,
    b: Seq<char>,
    c: Seq<char>,
)
    requires
        leads_to(edge, a, b),
        leads_to(edge, b, c),
    ensures
        leads_to(edge, a, c),
{
    let path = choose|path: Seq<Seq<char>>| walk(edge, path, b, c);
    lemma_walk_on(edge, a, b, path, c);
}

proof fn lemma_walk_on(
    edge: spec_fn(Seq<char>, Seq<char>) -> bool,
    a: Seq<char>,
    b: Seq<char>,
    path: Seq<Seq<char>>,
    c: Seq<char>,
)
    requires
        leads_to(edge, a, b),
        walk(edge, path, b, c),
    ensures
        leads_to(edge, a, c),
    decreases path.len(),
{
    if path.len() > 1 {
        let shorter = path.drop_last();
        let d = shorter.last();
        assert forall|i: int| 0 <= i < shorter.len() - 1 implies edge(
            #[trigger] shorter[i],
            shorter[i + 1],
        ) by {
            assert(edge(path[i], path[i + 1]));
        }
        assert(walk(edge, shorter, b, d));
        lemma_walk_on(edge, a, b, shorter, d);
        assert(edge(path[path.len() - 2], path[path.len() - 2 + 1]));
        lemma_leads_to_step(edge, a, d, c);
    }
}

/// Where edges run both ways, so do ways.
pub proof fn lemma_leads_to_back(
    edge: spec_fn(Seq<char>, Seq<char>) -> bool,
    a: Seq<char>,
    b: Seq<char>,
)
    requires
        leads_to(edge, a, b),
        forall|x: Seq<char>, y: Seq<char>| #[trigger] edge(x, y) ==> edge(y, x),
    ensures
        leads_to(edge, b, a),
{
    let path = choose|path: Seq<Seq<char>>| walk(edge, path, a, b);
    let back = path.reverse();
    assert forall|i: int| 0 <= i < back.len() - 1 implies edge(#[trigger] back[i], back[i + 1]) by {
        let j = path.len() - 2 - i;
        assert(edge(path[j], path[j + 1]));
        assert(back[i] == path[j + 1]);
        assert(back[i + 1] == path[j]);
    }
    assert(walk(edge, back, b, a));
}

/// Relations with the same edges have the same ways.
pub proof fn lemma_same_ways(
    e1: spec_fn(Seq<char>, Seq<char>) -> bool,
    e2: spec_fn(Seq<char>, Seq<char>) -> bool,
    a: Seq<char>,
    b: Seq<char>,
)
    requires
        forall|x: Seq<char>, y: Seq<char>| #[trigger] e1(x, y) ==> e2(x, y),
        leads_to(e1, a, b),
    ensures
        leads_to(e2, a, b),
{
    let path = choose|path: Seq<Seq<char>>| walk(e1, path, a, b);
    assert forall|i: int| 0 <= i < path.len() - 1 implies e2(#[trigger] path[i], path[i + 1]) by {
        assert(e1(path[i], path[i + 1]));
    }
    assert(walk(e2, path, a, b));
}

/// What can be reached depends on the edges alone.
pub proof fn lemma_same_reach(
    e1: spec_fn(Seq<char>, Seq<char>) -> bool,
    e2: spec_fn(Seq<char>, Seq<char>) -> bool,
    seeds: Set<Seq<char>>,
    n: Seq<char>,
)
    requires
        forall|x: Seq<char>, y: Seq<char>| #[trigger] e1(x, y) <==> e2(x, y),
    ensures
        reached_from(e1, seeds, n) == reached_from(e2, seeds, n),
{
    assert forall|x: Seq<char>, y: Seq<char>| #[trigger] e2(x, y) implies e1(x, y) by {
        assert(e1(x, y) <==> e2(x, y));
    }
    if reached_from(e1, seeds, n) {
        let s = choose|s: Seq<char>| #[trigger] seeds.contains(s) && leads_to(e1, s, n);
        lemma_same_ways(e1, e2, s, n);
    }
    if reached_from(e2, seeds, n) {
        let s = choose|s: Seq<char>| #[trigger] seeds.contains(s) && leads_to(e2, s, n);
        lemma_same_ways(e2, e1, s, n);
    }
}

/// A set that no edge leaves holds everything that can be reached from it.
pub proof fn lemma_closed(
    edge: spec_fn(Seq<char>, Seq<char>) -> bool,
    set: Set<Seq<char>>,
    a: Seq<char>,
    b: Seq<char>,
)
    requires
        set.contains(a),
        forall|x: Seq<char>, y: Seq<char>| set.contains(x) && #[trigger] edge(x, y) ==> set.contains(y),
        leads_to(edge, a, b),
    ensures
        set.contains(b),
{
    let path = choose|path: Seq<Seq<char>>| walk(edge, path, a, b);
    lemma_closed_along(edge, set, path, path.len() - 1);
}

proof fn lemma_closed_along(
    edge: spec_fn(Seq<char>, Seq<char>) -> bool,
    set: Set<Seq<char>>,
    path: Seq<Seq<char>>,
    k: int,
)
    requires
        0 <= k < path.len(),
        set.contains(path[0]),
        forall|i: int| 0 <= i < path.len() - 1 ==> edge(#[trigger] path[i], path[i + 1]),
        forall|x: Seq<char>, y: Seq<char>| set.contains(x) && #[trigger] edge(x, y) ==> set.contains(y),
    ensures
        set.contains(path[k]),
    decreases k,
{
    if k > 0 {
        lemma_closed_along(edge, set, path, k - 1);
        assert(edge(path[k - 1], path[k - 1 + 1]));
    }
}

/// Adds the edge from `a` to `b`.
pub fn relate(map: &mut NameMap<NameSet>, a: &str, b: &str)
    ensures
        forall|x: Seq<char>, y: Seq<char>| #[trigger]
            related(final(map)@, x, y) <==> related(old(map)@, x, y) || (x == a@ && y == b@),
        forall|x: Seq<char>| #[trigger]
            final(map)@.contains_key(x) <==> old(map)@.contains_key(x) || x == a@,
{
    let mut set = match map.remove(a) {
        Some(s) => s,
        None => NameSet::new(),
    };
    set.insert(b.to_owned());
    map.insert(a.to_owned(), set);
}

/// The names that the first `k` names of `keys` lead to.
spec fn targets(map: Map<Seq<char>, NameSet>, keys: Seq<Seq<char>>, k: nat) -> Set<Seq<char>>
    decreases k,
{
    if k == 0 {
        Set::empty()
    } else {
        targets(map, keys, (k - 1) as nat).union(map[keys[k - 1]]@)
    }
}

proof fn lemma_targets(map: Map<Seq<char>, NameSet>, keys: Seq<Seq<char>>, k: nat)
    requires
        k <= keys.len(),
    ensures
        targets(map, keys, k).finite(),
        forall|i: int, b: Seq<char>|
            0 <= i < k && (#[trigger] map[keys[i]])@.contains(b) ==> #[trigger] targets(
                map,
                keys,
                k,
            ).contains(b),
    decreases k,
{
    if k > 0 {
        lemma_targets(map, keys, (k - 1) as nat);
        vstd::seq_lib::seq_to_set_is_finite(map[keys[k - 1]].names());
    }
}

/// Everything that can be reached from `seeds` along `map`, the seeds included.
pub fn reach(map: &NameMap<NameSet>, seeds: &NameSet) -> (seen: NameSet)
    ensures
        forall|n: Seq<char>|
            seen@.contains(n) <==> #[trigger] reached_from(relation(map@), seeds@, n),
{
    let ghost edge = relation(map@);
    let ghost all = seeds@.union(targets(map@, map.keys(), map.keys().len()));
    let mut order = seeds.to_vec();
    let mut seen = seeds.clone();
    proof {
        lemma_targets(map@, map.keys(), map.keys().len());
        vstd::seq_lib::seq_to_set_is_finite(seeds.names());
        crate::names::lemma_ascending_distinct(texts(order@));
        assert forall|n: Seq<char>| seen@.contains(n) implies reached_from(edge, seeds@, n) by {
            lemma_leads_to_self(edge, n);
            assert(seeds@.contains(n));
        }
    }
    let mut i: usize = 0;
    while i < order.len()
        invariant
            i <= order@.len(),
            edge == relation(map@),
            all == seeds@.union(targets(map@, map.keys(), map.keys().len())),
            all.finite(),
            seen@.subset_of(all),
            texts(order@).no_duplicates(),
            seen@ == texts(order@).to_set(),
            seeds@.subset_of(seen@),
            forall|n: Seq<char>| #[trigger] seen@.contains(n) ==> reached_from(edge, seeds@, n),
            forall|j: int, b: Seq<char>|
                0 <= j < i && #[trigger] related(map@, texts(order@)[j], b) ==> seen@.contains(b),
        decreases all.len() - i,
    {
        let ghost here = order@[i as int]@;
        let ghost before = texts(order@);
        proof {
            assert(before[i as int] == here);
            assert(before.contains(here));
            assert(seen@.contains(here));
        }
        match map.get(order[i].as_str()) {
            Some(next) => {
                let n: usize = next.len();
                let mut k: usize = 0;
                while k < n
                    invariant
                        i < order@.len(),
                        k <= n,
                        n == next.names().len(),
                        edge == relation(map@),
                        map@.contains_key(here),
                        map@[here] == *next,
                        reached_from(edge, seeds@, here),
                        all == seeds@.union(targets(map@, map.keys(), map.keys().len())),
                        all.finite(),
                        seen@.subset_of(all),
                        texts(order@).no_duplicates(),
                        seen@ == texts(order@).to_set(),
                        seeds@.subset_of(seen@),
                        before.len() <= order@.len(),
                        i < before.len(),
                        forall|j: int| 0 <= j < before.len() ==> texts(order@)[j] == before[j],
                        forall|x: Seq<char>| #[trigger]
                            seen@.contains(x) ==> reached_from(edge, seeds@, x),
                        forall|j: int, b: Seq<char>|
                            0 <= j < i && #[trigger] related(map@, before[j], b) ==> seen@.contains(
                                b,
                            ),
                        forall|j: int| 0 <= j < k ==> seen@.contains(#[trigger] next.names()[j]),
                    decreases n - k,
                {
                    let name = next.get(k);
                    let ghost mid = texts(order@);
                    let ghost mid_seen = seen@;
                    if seen.insert(name.clone()) {
                        order.push(name.clone());
                        proof {
                            assert(texts(order@) =~= mid.push(name@));
                            mid.lemma_push_to_set_commute(name@);
                            assert(!mid.contains(name@)) by {
                                assert(mid_seen == mid.to_set());
                            }
                            assert(edge(here, name@));
                            let s = choose|s: Seq<char>| #[trigger]
                                seeds@.contains(s) && leads_to(edge, s, here);
                            lemma_leads_to_step(edge, s, here, name@);
                            assert(reached_from(edge, seeds@, name@));
                            lemma_targets(map@, map.keys(), map.keys().len());
                            assert(map.keys().contains(here));
                            let q = choose|q: int| 0 <= q < map.keys().len() && map.keys()[q] == here;
                            assert(map@[map.keys()[q]]@.contains(name@));
                        }
                    } else {
                        assert(seen@ =~= mid_seen);
                    }
                    k += 1;
                }
                assert forall|b: Seq<char>| related(map@, here, b) implies seen@.contains(b) by {
                    assert(next.names().contains(b));
                }
            },
            None => {},
        }
        proof {
            assert forall|j: int, b: Seq<char>|
                0 <= j < i + 1 && #[trigger] related(
                    map@,
                    texts(order@)[j],
                    b,
                ) implies seen@.contains(b) by {
                assert(texts(order@)[j] == before[j]);
                if j < i {
                    assert(related(map@, before[j], b));
                } else {
                    assert(related(map@, here, b));
                }
            }
            texts(order@).unique_seq_to_set();
            vstd::set_lib::lemma_len_subset(seen@, all);
        }
        i += 1;
    }
    proof {
        assert forall|x: Seq<char>, y: Seq<char>| seen@.contains(x) && #[trigger] edge(x, y) implies seen@.contains(
        y) by {
            let j = choose|j: int| 0 <= j < texts(order@).len() && texts(order@)[j] == x;
            assert(related(map@, texts(order@)[j], y));
        }
        assert forall|n: Seq<char>|
            seen@.contains(n) <==> #[trigger] reached_from(relation(map@), seeds@, n) by {
            if reached_from(edge, seeds@, n) {
                let s = choose|s: Seq<char>| #[trigger]
                    seeds@.contains(s) && leads_to(edge, s, n);
                lemma_closed(edge, seen@, s, n);
            }
        }
    }
    seen
}

} // verus!
