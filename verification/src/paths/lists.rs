//! Lists of paths in the order of directories.
use crate::names::{lemma_ascending_distinct, NameSet, Order};
use crate::paths::sets::has_path;
use crate::paths::steps::{
    lemma_path_before_trans, lemma_steps_order_flip, order_steps, path_before, read_steps, same_path,
    step_views, steps_of,
};
use crate::text::texts;
use vstd::prelude::*;

verus! {

/// Whether each of `paths` may stand in front of those behind it.
pub open spec fn in_path_order(paths: Seq<Seq<char>>) -> bool {
    forall|i: int, j: int|
        0 <= i < j < paths.len() ==> path_before(#[trigger] paths[i], #[trigger] paths[j])
}

/// Whether `paths` lists the names of `set`, each once, in the order of directories.
pub open spec fn is_path_list(set: Set<Seq<char>>, paths: Seq<Seq<char>>) -> bool {
    &&& paths.no_duplicates()
    &&& forall|p: Seq<char>| #[trigger] paths.contains(p) <==> set.contains(p)
    &&& in_path_order(paths)
}

/// How many paths at the front of `list` may stand in front of `path`.
pub open spec fn slot(list: Seq<Seq<char>>, path: Seq<char>) -> nat
    decreases list.len(),
{
    if list.len() == 0 || !path_before(list[0], path) {
        0
    } else {
        1 + slot(list.drop_first(), path)
    }
}

/// `names` in the order of directories; spellings of one path stay in the order that they had.
pub open spec fn path_sorted(names: Seq<Seq<char>>) -> Seq<Seq<char>>
    decreases names.len(),
{
    if names.len() == 0 {
        seq![]
    } else {
        let front = path_sorted(names.drop_last());
        front.insert(slot(front, names.last()) as int, names.last())
    }
}

/// `list` without the paths that are spellings of the one in front of them.
pub open spec fn unrepeated(list: Seq<Seq<char>>) -> Seq<Seq<char>>
    decreases list.len(),
{
    if list.len() == 0 {
        seq![]
    } else {
        let front = unrepeated(list.drop_last());
        if front.len() > 0 && same_path(front.last(), list.last()) {
            front
        } else {
            front.push(list.last())
        }
    }
}

proof fn lemma_slot(list: Seq<Seq<char>>, path: Seq<char>, n: int)
    requires
        0 <= n <= list.len(),
        forall|k: int| 0 <= k < n ==> path_before(#[trigger] list[k], path),
        n < list.len() ==> !path_before(list[n], path),
    ensures
        slot(list, path) == n,
    decreases list.len(),
{
    if n > 0 {
        let t = list.drop_first();
        assert(path_before(list[0], path));
        assert forall|k: int| 0 <= k < n - 1 implies path_before(#[trigger] t[k], path) by {
            assert(t[k] == list[k + 1]);
        }
        lemma_slot(t, path, n - 1);
    }
}

proof fn lemma_slot_parts(list: Seq<Seq<char>>, path: Seq<char>)
    ensures
        slot(list, path) <= list.len(),
        forall|k: int| 0 <= k < slot(list, path) ==> path_before(#[trigger] list[k], path),
        slot(list, path) < list.len() ==> !path_before(list[slot(list, path) as int], path),
    decreases list.len(),
{
    if list.len() > 0 && path_before(list[0], path) {
        let t = list.drop_first();
        lemma_slot_parts(t, path);
        assert forall|k: int| 0 <= k < slot(list, path) implies path_before(
            #[trigger] list[k],
            path,
        ) by {
            if k > 0 {
                assert(t[k - 1] == list[k]);
            }
        }
        if slot(list, path) < list.len() {
            assert(t[slot(t, path) as int] == list[slot(list, path) as int]);
        }
    }
}

proof fn lemma_insert_contains(s: Seq<Seq<char>>, at: int, x: Seq<char>, p: Seq<char>)
    requires
        0 <= at <= s.len(),
    ensures
        s.insert(at, x).contains(p) <==> s.contains(p) || p == x,
{
    let t = s.insert(at, x);
    assert(t[at] == x);
    if s.contains(p) {
        let k = choose|k: int| 0 <= k < s.len() && s[k] == p;
        let k1 = if k < at { k } else { k + 1 };
        assert(t[k1] == p);
    }
    if t.contains(p) && p != x {
        let k = choose|k: int| 0 <= k < t.len() && t[k] == p;
        let k0 = if k < at { k } else { k - 1 };
        assert(s[k0] == p);
    }
}

proof fn lemma_last_contains(s: Seq<Seq<char>>, p: Seq<char>)
    requires
        s.len() > 0,
    ensures
        s.contains(p) <==> s.drop_last().contains(p) || p == s.last(),
{
    let t = s.drop_last();
    if t.contains(p) {
        let i = choose|i: int| 0 <= i < t.len() && t[i] == p;
        assert(s[i] == p);
    }
    assert(s[s.len() - 1] == s.last());
    if s.contains(p) && p != s.last() {
        let i = choose|i: int| 0 <= i < s.len() && s[i] == p;
        assert(t[i] == p);
    }
}

/// Sorting puts paths into the order of directories, and adds and loses none.
pub proof fn lemma_path_sorted(names: Seq<Seq<char>>)
    ensures
        path_sorted(names).len() == names.len(),
        forall|p: Seq<char>| #[trigger] path_sorted(names).contains(p) <==> names.contains(p),
        in_path_order(path_sorted(names)),
        names.no_duplicates() ==> path_sorted(names).no_duplicates(),
    decreases names.len(),
{
    if names.len() > 0 {
        let rest = names.drop_last();
        let front = path_sorted(rest);
        let name = names.last();
        let at = slot(front, name) as int;
        let all = front.insert(at, name);
        lemma_path_sorted(rest);
        lemma_slot_parts(front, name);
        assert(path_sorted(names) == all);
        assert forall|p: Seq<char>| #[trigger] all.contains(p) <==> names.contains(p) by {
            lemma_insert_contains(front, at, name, p);
            lemma_last_contains(names, p);
            assert(front.contains(p) <==> rest.contains(p));
        }
        assert forall|k: int| at <= k < front.len() implies path_before(name, #[trigger] front[k]) by {
            lemma_steps_order_flip(steps_of(front[at]), steps_of(name));
            if k > at {
                assert(path_before(front[at], front[k]));
                lemma_path_before_trans(name, front[at], front[k]);
            }
        }
        assert forall|i: int, j: int| 0 <= i < j < all.len() implies path_before(
            #[trigger] all[i],
            #[trigger] all[j],
        ) by {
            let i0 = if i < at { i } else { i - 1 };
            let j0 = if j < at { j } else { j - 1 };
            if i != at {
                assert(all[i] == front[i0]);
            }
            if j != at {
                assert(all[j] == front[j0]);
            }
        }
        if names.no_duplicates() {
            assert(rest.no_duplicates()) by {
                assert forall|i: int, j: int|
                    0 <= i < rest.len() && 0 <= j < rest.len() && i != j implies rest[i]
                    != rest[j] by {
                    assert(names[i] != names[j]);
                }
            }
            assert(!front.contains(name)) by {
                if rest.contains(name) {
                    let k = choose|k: int| 0 <= k < rest.len() && rest[k] == name;
                    assert(names[k] != names[names.len() - 1]);
                }
            }
            assert forall|i: int, j: int|
                0 <= i < all.len() && 0 <= j < all.len() && i != j implies all[i] != all[j] by {
                let i0 = if i < at { i } else { i - 1 };
                let j0 = if j < at { j } else { j - 1 };
                if i == at {
                    assert(all[j] == front[j0]);
                    assert(front.contains(front[j0]));
                } else if j == at {
                    assert(all[i] == front[i0]);
                    assert(front.contains(front[i0]));
                } else {
                    assert(all[i] == front[i0]);
                    assert(all[j] == front[j0]);
                }
            }
        }
    }
}

/// Leaving out repeated paths of a list in order leaves the order, every path, and none twice.
pub proof fn lemma_unrepeated(list: Seq<Seq<char>>)
    requires
        in_path_order(list),
    ensures
        in_path_order(unrepeated(list)),
        forall|i: int, j: int|
            0 <= i < j < unrepeated(list).len() ==> !same_path(
                #[trigger] unrepeated(list)[i],
                #[trigger] unrepeated(list)[j],
            ),
        forall|p: Seq<char>| #[trigger] unrepeated(list).contains(p) ==> list.contains(p),
        forall|k: int|
            0 <= k < list.len() ==> has_path(unrepeated(list).to_set(), #[trigger] list[k]),
    decreases list.len(),
{
    if list.len() > 0 {
        let rest = list.drop_last();
        let front = unrepeated(rest);
        let last = list.last();
        assert(in_path_order(rest)) by {
            assert forall|i: int, j: int| 0 <= i < j < rest.len() implies path_before(
                #[trigger] rest[i],
                #[trigger] rest[j],
            ) by {
                assert(rest[i] == list[i] && rest[j] == list[j]);
            }
        }
        lemma_unrepeated(rest);
        let all = unrepeated(list);
        assert forall|i: int| 0 <= i < front.len() implies path_before(#[trigger] front[i], last) by {
            assert(front.contains(front[i]));
            let k = choose|k: int| 0 <= k < rest.len() && rest[k] == front[i];
            assert(path_before(list[k], list[list.len() - 1]));
        }
        if front.len() > 0 && same_path(front.last(), last) {
            assert(all == front);
            assert(front.contains(front[front.len() - 1]));
            assert(all.to_set().contains(front.last()));
            assert(has_path(all.to_set(), last));
        } else {
            assert(all == front.push(last));
            assert forall|i: int| 0 <= i < front.len() implies !same_path(
                #[trigger] front[i],
                last,
            ) by {
                if same_path(front[i], last) {
                    let tail = front[front.len() - 1];
                    if i < front.len() - 1 {
                        assert(path_before(front[i], tail));
                        assert(path_before(tail, last));
                        lemma_steps_order_flip(steps_of(tail), steps_of(last));
                        lemma_steps_order_flip(steps_of(last), steps_of(tail));
                    }
                    assert(same_path(tail, last));
                }
            }
            assert forall|i: int, j: int| 0 <= i < j < all.len() implies path_before(
                #[trigger] all[i],
                #[trigger] all[j],
            ) && !same_path(all[i], all[j]) by {
                assert(all[i] == front[i]);
                if j < front.len() {
                    assert(all[j] == front[j]);
                    assert(!same_path(front[i], front[j]));
                }
            }
            assert forall|p: Seq<char>| #[trigger] front.to_set().contains(p) implies all.to_set().contains(
                p,
            ) by {
                let i = choose|i: int| 0 <= i < front.len() && front[i] == p;
                assert(all[i] == p);
                assert(all.contains(p));
            }
            assert(all[front.len() as int] == last);
            assert(all.contains(last));
            assert(all.to_set().contains(last));
        }
        assert forall|p: Seq<char>| #[trigger] all.contains(p) implies list.contains(p) by {
            lemma_last_contains(list, p);
            let i = choose|i: int| 0 <= i < all.len() && all[i] == p;
            if i < front.len() {
                assert(front[i] == p);
                assert(front.contains(p));
            }
        }
        assert forall|k: int| 0 <= k < list.len() implies has_path(
            all.to_set(),
            #[trigger] list[k],
        ) by {
            if k < rest.len() {
                assert(rest[k] == list[k]);
                let q = choose|q: Seq<char>| #[trigger]
                    front.to_set().contains(q) && same_path(q, rest[k]);
                assert(all.to_set().contains(q));
            } else {
                assert(list[k] == last);
            }
        }
    }
}

/// Puts paths into the order of directories.
pub fn sort_paths(names: &Vec<String>) -> (paths: Vec<String>)
    ensures
        texts(paths@) == path_sorted(texts(names@)),
{
    let ghost all = texts(names@);
    let mut paths: Vec<String> = Vec::new();
    let mut i: usize = 0;
    assert(all.take(0) =~= Seq::<Seq<char>>::empty());
    assert(texts(paths@) =~= Seq::<Seq<char>>::empty());
    while i < names.len()
        invariant
            i <= names@.len(),
            all == texts(names@),
            texts(paths@) == path_sorted(all.take(i as int)),
        decreases names@.len() - i,
    {
        let name = &names[i];
        let ghost before = texts(paths@);
        let own = read_steps(name.as_str());
        let mut at: usize = 0;
        let mut stop = false;
        while at < paths.len() && !stop
            invariant
                at <= paths@.len(),
                before == texts(paths@),
                step_views(own@) == steps_of(name@),
                forall|k: int| 0 <= k < at ==> path_before(#[trigger] before[k], name@),
                stop ==> at < paths@.len() && !path_before(before[at as int], name@),
            decreases paths@.len() - at, if stop { 0nat } else { 1nat },
        {
            let other = read_steps(paths[at].as_str());
            assert(before[at as int] == paths@[at as int]@);
            match order_steps(&other, &own) {
                Order::Greater => {
                    stop = true;
                },
                _ => {
                    at += 1;
                },
            }
        }
        paths.insert(at, name.clone());
        proof {
            lemma_slot(before, name@, at as int);
            assert(all.take(i + 1).drop_last() =~= all.take(i as int));
            assert(all.take(i + 1).last() == name@);
            assert(texts(paths@) =~= before.insert(at as int, name@));
        }
        i += 1;
    }
    assert(all.take(i as int) =~= all);
    paths
}

/// Leaves out the paths that are spellings of the one in front of them.
pub fn drop_repeated(list: &Vec<String>) -> (kept: Vec<String>)
    ensures
        texts(kept@) == unrepeated(texts(list@)),
{
    let ghost all = texts(list@);
    let mut kept: Vec<String> = Vec::new();
    let mut i: usize = 0;
    assert(all.take(0) =~= Seq::<Seq<char>>::empty());
    assert(texts(kept@) =~= Seq::<Seq<char>>::empty());
    while i < list.len()
        invariant
            i <= list@.len(),
            all == texts(list@),
            texts(kept@) == unrepeated(all.take(i as int)),
        decreases list@.len() - i,
    {
        let ghost before = texts(kept@);
        proof {
            assert(all.take(i + 1).drop_last() =~= all.take(i as int));
            assert(all.take(i + 1).last() == list@[i as int]@);
        }
        let n: usize = kept.len();
        let repeated = if n > 0 {
            let last = read_steps(kept[n - 1].as_str());
            let own = read_steps(list[i].as_str());
            proof {
                assert(before.last() == kept@[n - 1]@);
                lemma_steps_order_flip(step_views(last@), step_views(own@));
            }
            match order_steps(&last, &own) {
                Order::Equal => true,
                _ => false,
            }
        } else {
            false
        };
        if !repeated {
            kept.push(list[i].clone());
            assert(texts(kept@) =~= before.push(list@[i as int]@));
        }
        i += 1;
    }
    assert(all.take(i as int) =~= all);
    kept
}

/// The names of `set` in the order of directories.
pub fn path_list(set: &NameSet) -> (paths: Vec<String>)
    ensures
        texts(paths@) == path_sorted(set.names()),
        is_path_list(set@, texts(paths@)),
{
    let names = set.to_vec();
    let paths = sort_paths(&names);
    proof {
        assert(texts(names@) == set.names());
        lemma_ascending_distinct(set.names());
        lemma_path_sorted(set.names());
        assert forall|p: Seq<char>| #[trigger] texts(paths@).contains(p) <==> set@.contains(p) by {
            assert(set.names().contains(p) <==> set@.contains(p));
        }
    }
    paths
}

} // verus!
