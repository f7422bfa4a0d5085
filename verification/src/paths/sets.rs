//! Sets of paths. A path is in a set if a spelling of it is.
use crate::names::{
    ascending, lemma_order_total, lemma_order_trans, precedes, union, NameSet,
};
use crate::paths::steps::{lemma_same_form, plain_form, same_path, to_plain};
use vstd::prelude::*;

verus! {

/// Whether a set holds a spelling of the path.
pub open spec fn has_path(set: Set<Seq<char>>, path: Seq<char>) -> bool {
    exists|q: Seq<char>| #[trigger] set.contains(q) && same_path(q, path)
}

/// The paths of `a` of which `b` holds no spelling, as `a` spells them.
pub open spec fn paths_minus(a: Set<Seq<char>>, b: Set<Seq<char>>) -> Set<Seq<char>> {
    Set::new(|p: Seq<char>| a.contains(p) && !has_path(b, p))
}

/// The paths of `a` of which `b` holds a spelling, as `a` spells them.
pub open spec fn paths_within(a: Set<Seq<char>>, b: Set<Seq<char>>) -> Set<Seq<char>> {
    Set::new(|p: Seq<char>| a.contains(p) && has_path(b, p))
}

/// The paths of `a` and, as `b` spells them, the others of `b`.
pub open spec fn paths_union(a: Set<Seq<char>>, b: Set<Seq<char>>) -> Set<Seq<char>> {
    a.union(paths_minus(b, a))
}

/// The paths of `set`, each in the first of its spellings.
pub open spec fn paths_once(set: Set<Seq<char>>) -> Set<Seq<char>> {
    Set::new(|p: Seq<char>| set.contains(p) && is_first_spelling(set, p))
}

/// Whether no spelling of the path in `set` stands in front of this one.
pub open spec fn is_first_spelling(set: Set<Seq<char>>, path: Seq<char>) -> bool {
    forall|q: Seq<char>| #[trigger]
        set.contains(q) && same_path(q, path) ==> q == path || precedes(path, q)
}

/// Whether the set holds no path in two spellings.
pub open spec fn each_once(set: Set<Seq<char>>) -> bool {
    forall|p: Seq<char>, q: Seq<char>| #[trigger]
        set.contains(p) && #[trigger] set.contains(q) && same_path(p, q) ==> p == q
}

/// The plain spellings of paths.
pub fn plain_forms(set: &NameSet) -> (forms: NameSet)
    ensures
        forall|p: Seq<char>| forms@.contains(#[trigger] plain_form(p)) <==> has_path(set@, p),
{
    let mut forms = NameSet::new();
    let count: usize = set.len();
    let mut i: usize = 0;
    while i < count
        invariant
            i <= count,
            count == set.names().len(),
            forall|f: Seq<char>| #[trigger]
                forms@.contains(f) ==> exists|k: int|
                    0 <= k < i && f == plain_form(#[trigger] set.names()[k]),
            forall|k: int| 0 <= k < i ==> forms@.contains(plain_form(#[trigger] set.names()[k])),
        decreases count - i,
    {
        let ghost before = forms@;
        forms.insert(to_plain(set.get(i).as_str()));
        proof {
            assert forall|f: Seq<char>| #[trigger] forms@.contains(f) implies exists|k: int|
                0 <= k < i + 1 && f == plain_form(#[trigger] set.names()[k]) by {
                if before.contains(f) {
                    let k = choose|k: int|
                        0 <= k < i && f == plain_form(#[trigger] set.names()[k]);
                    assert(f == plain_form(set.names()[k]));
                } else {
                    assert(f == plain_form(set.names()[i as int]));
                }
            }
        }
        i += 1;
    }
    assert forall|p: Seq<char>| forms@.contains(#[trigger] plain_form(p)) <==> has_path(
        set@,
        p,
    ) by {
        if forms@.contains(plain_form(p)) {
            let k = choose|k: int|
                0 <= k < count && plain_form(p) == plain_form(#[trigger] set.names()[k]);
            lemma_same_form(set.names()[k], p);
            assert(set.names().contains(set.names()[k]));
            assert(set@.contains(set.names()[k]));
        }
        if has_path(set@, p) {
            let q = choose|q: Seq<char>| #[trigger] set@.contains(q) && same_path(q, p);
            lemma_same_form(q, p);
            assert(set.names().contains(q));
            let k = choose|k: int| 0 <= k < set.names().len() && set.names()[k] == q;
            assert(forms@.contains(plain_form(set.names()[k])));
        }
    }
    forms
}

/// The paths of `set` whose plain spelling is in `forms` if `within`, or is not.
fn pick_paths(set: &NameSet, forms: &NameSet, within: bool) -> (picked: NameSet)
    ensures
        forall|p: Seq<char>| #[trigger]
            picked@.contains(p) <==> set@.contains(p) && forms@.contains(plain_form(p)) == within,
{
    let mut picked = NameSet::new();
    let count: usize = set.len();
    let mut i: usize = 0;
    while i < count
        invariant
            i <= count,
            count == set.names().len(),
            forall|p: Seq<char>| #[trigger]
                picked@.contains(p) ==> set@.contains(p) && forms@.contains(plain_form(p))
                    == within,
            forall|k: int|
                0 <= k < i && forms@.contains(plain_form(#[trigger] set.names()[k])) == within
                    ==> picked@.contains(set.names()[k]),
        decreases count - i,
    {
        let path = set.get(i);
        if forms.contains(to_plain(path.as_str()).as_str()) == within {
            picked.insert(path.clone());
        }
        i += 1;
    }
    assert forall|p: Seq<char>| #[trigger]
        picked@.contains(p) <==> set@.contains(p) && forms@.contains(plain_form(p)) == within by {
        if set@.contains(p) {
            assert(set.names().contains(p));
        }
    }
    picked
}

/// The paths of `a` whose plain spelling is not among `forms`.
pub fn leave_out(a: &NameSet, forms: &NameSet) -> (rest: NameSet)
    ensures
        forall|p: Seq<char>| #[trigger]
            rest@.contains(p) <==> a@.contains(p) && !forms@.contains(plain_form(p)),
{
    pick_paths(a, forms, false)
}

/// The paths of `a` of which `b` holds no spelling.
pub fn path_difference(a: &NameSet, b: &NameSet) -> (rest: NameSet)
    ensures
        rest@ == paths_minus(a@, b@),
{
    let forms = plain_forms(b);
    let rest = pick_paths(a, &forms, false);
    assert forall|p: Seq<char>| #[trigger] rest@.contains(p) <==> paths_minus(a@, b@).contains(
        p,
    ) by {
        assert(forms@.contains(plain_form(p)) <==> has_path(b@, p));
    }
    assert(rest@ =~= paths_minus(a@, b@));
    rest
}

/// The paths of `a` of which `b` holds a spelling.
pub fn path_intersection(a: &NameSet, b: &NameSet) -> (both: NameSet)
    ensures
        both@ == paths_within(a@, b@),
{
    let forms = plain_forms(b);
    let both = pick_paths(a, &forms, true);
    assert forall|p: Seq<char>| #[trigger] both@.contains(p) <==> paths_within(a@, b@).contains(
        p,
    ) by {
        assert(forms@.contains(plain_form(p)) <==> has_path(b@, p));
    }
    assert(both@ =~= paths_within(a@, b@));
    both
}

/// The paths of `a` and the others of `b`.
pub fn path_union(a: &NameSet, b: &NameSet) -> (all: NameSet)
    ensures
        all@ == paths_union(a@, b@),
{
    union(a, &path_difference(b, a))
}

/// The paths of `set`, each in the first of its spellings.
pub fn distinct_paths(set: &NameSet) -> (once: NameSet)
    ensures
        once@ == paths_once(set@),
{
    let mut forms = NameSet::new();
    let mut once = NameSet::new();
    let count: usize = set.len();
    let ghost names = set.names();
    let mut i: usize = 0;
    while i < count
        invariant
            i <= count,
            count == names.len(),
            names == set.names(),
            ascending(names),
            forall|f: Seq<char>| #[trigger]
                forms@.contains(f) ==> exists|k: int|
                    0 <= k < i && f == plain_form(#[trigger] names[k]),
            forall|k: int| 0 <= k < i ==> forms@.contains(plain_form(#[trigger] names[k])),
            forall|p: Seq<char>| #[trigger] once@.contains(p) ==> paths_once(set@).contains(p),
            forall|k: int|
                0 <= k < i && is_first_spelling(set@, #[trigger] names[k]) ==> once@.contains(
                    names[k],
                ),
        decreases count - i,
    {
        let ghost before = forms@;
        let path = set.get(i);
        let form = to_plain(path.as_str());
        if !forms.contains(form.as_str()) {
            proof {
                assert forall|q: Seq<char>| #[trigger] set@.contains(q) && same_path(
                    q,
                    path@,
                ) implies q == path@ || precedes(path@, q) by {
                    assert(names.contains(q));
                    let k = choose|k: int| 0 <= k < names.len() && names[k] == q;
                    lemma_same_form(q, path@);
                    if k < i {
                        assert(forms@.contains(plain_form(names[k])));
                    } else if k > i {
                        assert(precedes(names[i as int], names[k]));
                    }
                }
                assert(is_first_spelling(set@, path@));
            }
            once.insert(path.clone());
        } else {
            proof {
                if is_first_spelling(set@, path@) {
                    let k = choose|k: int|
                        0 <= k < i && plain_form(path@) == plain_form(#[trigger] names[k]);
                    lemma_same_form(names[k], path@);
                    assert(names.contains(names[k]));
                    assert(set@.contains(names[k]));
                    assert(precedes(names[k], names[i as int]));
                    lemma_order_total(names[k], path@);
                }
            }
        }
        forms.insert(form);
        proof {
            assert forall|f: Seq<char>| #[trigger] forms@.contains(f) implies exists|k: int|
                0 <= k < i + 1 && f == plain_form(#[trigger] names[k]) by {
                if before.contains(f) {
                    let k = choose|k: int| 0 <= k < i && f == plain_form(#[trigger] names[k]);
                    assert(f == plain_form(names[k]));
                } else {
                    assert(f == plain_form(names[i as int]));
                }
            }
        }
        i += 1;
    }
    assert forall|p: Seq<char>| #[trigger] once@.contains(p) <==> paths_once(set@).contains(p) by {
        if paths_once(set@).contains(p) {
            assert(names.contains(p));
            let k = choose|k: int| 0 <= k < names.len() && names[k] == p;
            assert(once@.contains(names[k]));
        }
    }
    assert(once@ =~= paths_once(set@));
    once
}

/// Taking each path in the first of its spellings leaves none in two.
pub proof fn lemma_once_is_once(set: Set<Seq<char>>)
    ensures
        each_once(paths_once(set)),
{
    assert forall|p: Seq<char>, q: Seq<char>| #[trigger]
        paths_once(set).contains(p) && #[trigger] paths_once(set).contains(q) && same_path(
            p,
            q,
        ) implies p == q by {
        assert(set.contains(p) && set.contains(q));
        lemma_order_total(p, q);
    }
}

/// What is left of a set that holds no path in two spellings, and its union with such a set, hold
/// none either.
pub proof fn lemma_each_once_kept(a: Set<Seq<char>>, b: Set<Seq<char>>)
    requires
        each_once(a),
    ensures
        each_once(paths_minus(a, b)),
        each_once(paths_within(a, b)),
        each_once(b) ==> each_once(paths_union(a, b)),
{
    assert forall|p: Seq<char>, q: Seq<char>| #[trigger]
        paths_minus(a, b).contains(p) && #[trigger] paths_minus(a, b).contains(q) && same_path(
            p,
            q,
        ) implies p == q by {
        assert(a.contains(p) && a.contains(q));
    }
    assert forall|p: Seq<char>, q: Seq<char>| #[trigger]
        paths_within(a, b).contains(p) && #[trigger] paths_within(a, b).contains(q) && same_path(
            p,
            q,
        ) implies p == q by {
        assert(a.contains(p) && a.contains(q));
    }
    if each_once(b) {
        let u = paths_union(a, b);
        assert forall|p: Seq<char>, q: Seq<char>| #[trigger]
            u.contains(p) && #[trigger] u.contains(q) && same_path(p, q) implies p == q by {
            if a.contains(p) && a.contains(q) {
            } else if a.contains(p) {
                assert(has_path(a, q));
            } else if a.contains(q) {
                assert(same_path(q, p));
                assert(has_path(a, p));
            } else {
                assert(b.contains(p) && b.contains(q));
            }
        }
    }
}

/// What is left of `a` without the paths of `b` has the paths of `a` that are not in `b`.
pub proof fn lemma_minus_paths(a: Set<Seq<char>>, b: Set<Seq<char>>, path: Seq<char>)
    ensures
        has_path(paths_minus(a, b), path) <==> has_path(a, path) && !has_path(b, path),
{
    if has_path(paths_minus(a, b), path) {
        let q = choose|q: Seq<char>| #[trigger]
            paths_minus(a, b).contains(q) && same_path(q, path);
        assert(a.contains(q));
        if has_path(b, path) {
            let r = choose|r: Seq<char>| #[trigger] b.contains(r) && same_path(r, path);
            assert(same_path(r, q));
        }
    }
    if has_path(a, path) && !has_path(b, path) {
        let q = choose|q: Seq<char>| #[trigger] a.contains(q) && same_path(q, path);
        assert(!has_path(b, q));
        assert(paths_minus(a, b).contains(q));
    }
}

/// Taking each path in the first of its spellings loses none.
pub proof fn lemma_once_keeps_paths(set: Set<Seq<char>>, path: Seq<char>)
    requires
        set.finite(),
    ensures
        has_path(paths_once(set), path) <==> has_path(set, path),
{
    if has_path(paths_once(set), path) {
        let q = choose|q: Seq<char>| #[trigger]
            paths_once(set).contains(q) && same_path(q, path);
        assert(set.contains(q));
    }
    if has_path(set, path) {
        let some = set.filter(|q: Seq<char>| same_path(q, path));
        let q = choose|q: Seq<char>| #[trigger] set.contains(q) && same_path(q, path);
        assert(some.contains(q));
        let first = lemma_first_of(some);
        assert(set.contains(first) && same_path(first, path));
        assert forall|r: Seq<char>| #[trigger] set.contains(r) && same_path(r, first) implies r
            == first || precedes(first, r) by {
            assert(some.contains(r));
        }
        assert(paths_once(set).contains(first));
    }
}

proof fn lemma_first_of(set: Set<Seq<char>>) -> (first: Seq<char>)
    requires
        set.finite(),
        exists|x: Seq<char>| set.contains(x),
    ensures
        set.contains(first),
        forall|y: Seq<char>| #[trigger] set.contains(y) ==> y == first || precedes(first, y),
    decreases set.len(),
{
    let x = choose|x: Seq<char>| set.contains(x);
    let rest = set.remove(x);
    if exists|y: Seq<char>| rest.contains(y) {
        let low = lemma_first_of(rest);
        lemma_order_total(x, low);
        if precedes(x, low) {
            assert forall|y: Seq<char>| #[trigger] set.contains(y) implies y == x || precedes(
                x,
                y,
            ) by {
                if y != x {
                    assert(rest.contains(y));
                    if y != low {
                        lemma_order_trans(x, low, y);
                    }
                }
            }
            x
        } else {
            assert forall|y: Seq<char>| #[trigger] set.contains(y) implies y == low || precedes(
                low,
                y,
            ) by {
                if y != x {
                    assert(rest.contains(y));
                }
            }
            low
        }
    } else {
        assert forall|y: Seq<char>| #[trigger] set.contains(y) implies y == x || precedes(x, y) by {
            if y != x {
                assert(rest.contains(y));
            }
        }
        x
    }
}

/// What `a` shares with `b` has the paths that are in both.
pub proof fn lemma_within_paths(a: Set<Seq<char>>, b: Set<Seq<char>>, path: Seq<char>)
    ensures
        has_path(paths_within(a, b), path) <==> has_path(a, path) && has_path(b, path),
{
    if has_path(paths_within(a, b), path) {
        let q = choose|q: Seq<char>| #[trigger]
            paths_within(a, b).contains(q) && same_path(q, path);
        assert(a.contains(q));
        let r = choose|r: Seq<char>| #[trigger] b.contains(r) && same_path(r, q);
        assert(same_path(r, path));
    }
    if has_path(a, path) && has_path(b, path) {
        let q = choose|q: Seq<char>| #[trigger] a.contains(q) && same_path(q, path);
        let r = choose|r: Seq<char>| #[trigger] b.contains(r) && same_path(r, path);
        assert(same_path(r, q));
        assert(has_path(b, q));
        assert(paths_within(a, b).contains(q));
    }
}

/// The union of `a` and `b` has the paths that are in either.
pub proof fn lemma_union_paths(a: Set<Seq<char>>, b: Set<Seq<char>>, path: Seq<char>)
    ensures
        has_path(paths_union(a, b), path) <==> has_path(a, path) || has_path(b, path),
{
    let u = paths_union(a, b);
    lemma_minus_paths(b, a, path);
    if has_path(u, path) {
        let q = choose|q: Seq<char>| #[trigger] u.contains(q) && same_path(q, path);
        if !a.contains(q) {
            assert(paths_minus(b, a).contains(q));
            assert(b.contains(q));
        }
    }
    if has_path(a, path) {
        let q = choose|q: Seq<char>| #[trigger] a.contains(q) && same_path(q, path);
        assert(u.contains(q));
    } else if has_path(b, path) {
        let q = choose|q: Seq<char>| #[trigger]
            paths_minus(b, a).contains(q) && same_path(q, path);
        assert(u.contains(q));
    }
}

} // verus!
