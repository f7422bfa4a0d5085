//! Sets of names and maps keyed by names.
//!
//! Both keep their names in ascending order and hold none twice. The order is that of the bytes
//! of the UTF-8 encoding.
use crate::text::texts;
use vstd::prelude::*;

verus! {

// ── Order ─────────────────────────────────────────────────────────────────────

/// How one value stands to another.
#[derive(Debug, Clone, Copy, PartialEq, Eq, Structural)]
pub enum Order {
    Less,
    Equal,
    Greater,
}

/// The lexicographic order of byte sequences.
pub open spec fn byte_order(x: Seq<u8>, y: Seq<u8>) -> Order
    decreases x.len(),
{
    if x.len() == 0 && y.len() == 0 {
        Order::Equal
    } else if x.len() == 0 {
        Order::Less
    } else if y.len() == 0 {
        Order::Greater
    } else if x[0] < y[0] {
        Order::Less
    } else if x[0] > y[0] {
        Order::Greater
    } else {
        byte_order(x.drop_first(), y.drop_first())
    }
}

/// The order of two texts, by the bytes of their encodings.
pub open spec fn text_order(a: Seq<char>, b: Seq<char>) -> Order {
    byte_order(vstd::utf8::encode_utf8(a), vstd::utf8::encode_utf8(b))
}

/// Whether `a` stands strictly in front of `b`.
pub open spec fn precedes(a: Seq<char>, b: Seq<char>) -> bool {
    text_order(a, b) == Order::Less
}

/// Names in strictly ascending order; none stands twice.
pub open spec fn ascending(names: Seq<Seq<char>>) -> bool {
    forall|i: int, j: int| 0 <= i < j < names.len() ==> precedes(#[trigger] names[i], #[trigger] names[j])
}

proof fn lemma_byte_order_equal(x: Seq<u8>, y: Seq<u8>)
    ensures
        byte_order(x, y) == Order::Equal <==> x == y,
    decreases x.len(),
{
    if x.len() > 0 && y.len() > 0 && x[0] == y[0] {
        lemma_byte_order_equal(x.drop_first(), y.drop_first());
        assert(x == seq![x[0]] + x.drop_first());
        assert(y == seq![y[0]] + y.drop_first());
    } else if x.len() == 0 && y.len() == 0 {
        assert(x =~= y);
    }
}

proof fn lemma_byte_order_flip(x: Seq<u8>, y: Seq<u8>)
    ensures
        byte_order(x, y) == Order::Less <==> byte_order(y, x) == Order::Greater,
    decreases x.len(),
{
    if x.len() > 0 && y.len() > 0 && x[0] == y[0] {
        lemma_byte_order_flip(x.drop_first(), y.drop_first());
    }
}

proof fn lemma_byte_order_trans(x: Seq<u8>, y: Seq<u8>, z: Seq<u8>)
    requires
        byte_order(x, y) == Order::Less,
        byte_order(y, z) == Order::Less,
    ensures
        byte_order(x, z) == Order::Less,
    decreases x.len(),
{
    if x.len() > 0 && x[0] == y[0] && y[0] == z[0] {
        lemma_byte_order_trans(x.drop_first(), y.drop_first(), z.drop_first());
    }
}

/// Two texts are equal, or one of them stands in front of the other, and only one of these holds.
pub proof fn lemma_order_total(a: Seq<char>, b: Seq<char>)
    ensures
        text_order(a, b) == Order::Equal <==> a == b,
        precedes(a, b) <==> text_order(b, a) == Order::Greater,
        precedes(b, a) <==> text_order(a, b) == Order::Greater,
        !(precedes(a, b) && precedes(b, a)),
        precedes(a, b) || a == b || precedes(b, a),
{
    let x = vstd::utf8::encode_utf8(a);
    let y = vstd::utf8::encode_utf8(b);
    lemma_byte_order_equal(x, y);
    lemma_byte_order_flip(x, y);
    lemma_byte_order_flip(y, x);
    vstd::utf8::encode_utf8_decode_utf8(a);
    vstd::utf8::encode_utf8_decode_utf8(b);
}

/// The order of texts is transitive.
pub proof fn lemma_order_trans(a: Seq<char>, b: Seq<char>, c: Seq<char>)
    requires
        precedes(a, b),
        precedes(b, c),
    ensures
        precedes(a, c),
{
    lemma_byte_order_trans(
        vstd::utf8::encode_utf8(a),
        vstd::utf8::encode_utf8(b),
        vstd::utf8::encode_utf8(c),
    );
}

proof fn lemma_encoding_starts(a: Seq<char>, b: Seq<char>)
    ensures
        vstd::utf8::encode_utf8(a).is_prefix_of(vstd::utf8::encode_utf8(a + b)),
    decreases a.len(),
{
    if a.len() > 0 {
        lemma_encoding_starts(a.drop_first(), b);
        assert((a + b).drop_first() =~= a.drop_first() + b);
    }
}

proof fn lemma_byte_order_prefix(x: Seq<u8>, y: Seq<u8>)
    requires
        x.is_prefix_of(y),
        x != y,
    ensures
        byte_order(x, y) == Order::Less,
    decreases x.len(),
{
    if x.len() == 0 {
        if y.len() == 0 {
            assert(x =~= y);
        }
    } else {
        assert(x[0] == y[0]);
        assert(x.drop_first().is_prefix_of(y.drop_first()));
        if x.drop_first() == y.drop_first() {
            assert(x =~= seq![x[0]] + x.drop_first());
            assert(y =~= seq![y[0]] + y.drop_first());
        }
        lemma_byte_order_prefix(x.drop_first(), y.drop_first());
    }
}

/// A text stands in front of every longer text that starts with it.
pub proof fn lemma_order_prefix(a: Seq<char>, b: Seq<char>)
    requires
        b.len() > 0,
    ensures
        precedes(a, a + b),
{
    let x = vstd::utf8::encode_utf8(a);
    let y = vstd::utf8::encode_utf8(a + b);
    lemma_encoding_starts(a, b);
    if x == y {
        vstd::utf8::encode_utf8_decode_utf8(a);
        vstd::utf8::encode_utf8_decode_utf8(a + b);
        assert(a.len() == (a + b).len());
    }
    lemma_byte_order_prefix(x, y);
}

/// Names in ascending order are all different.
pub proof fn lemma_ascending_distinct(names: Seq<Seq<char>>)
    requires
        ascending(names),
    ensures
        names.no_duplicates(),
{
    assert forall|i: int, j: int| 0 <= i < names.len() && 0 <= j < names.len() && i != j implies names[i]
        != names[j] by {
        lemma_order_total(names[i], names[j]);
        if i < j {
            assert(precedes(names[i], names[j]));
        } else {
            assert(precedes(names[j], names[i]));
        }
    }
}

/// Two ascending sequences with the same names are the same sequence.
pub proof fn lemma_ascending_unique(a: Seq<Seq<char>>, b: Seq<Seq<char>>)
    requires
        ascending(a),
        ascending(b),
        forall|n: Seq<char>| a.contains(n) <==> b.contains(n),
    ensures
        a == b,
    decreases a.len(),
{
    if a.len() == 0 {
        if b.len() > 0 {
            assert(b.contains(b[0]));
            assert(a.contains(b[0]));
        }
        assert(a =~= b);
    } else {
        assert(a.contains(a.last()));
        assert(b.contains(a.last()));
        assert(b.contains(b.last()));
        assert(a.contains(b.last()));
        let i = choose|i: int| 0 <= i < b.len() && b[i] == a.last();
        let j = choose|j: int| 0 <= j < a.len() && a[j] == b.last();
        lemma_order_total(a.last(), b.last());
        if i < b.len() - 1 {
            assert(precedes(b[i], b[b.len() - 1]));
        }
        if j < a.len() - 1 {
            assert(precedes(a[j], a[a.len() - 1]));
        }
        assert(a.last() == b.last());
        lemma_ascending_distinct(a);
        lemma_ascending_distinct(b);
        let a1 = a.drop_last();
        let b1 = b.drop_last();
        assert forall|n: Seq<char>| a1.contains(n) <==> b1.contains(n) by {
            if a1.contains(n) {
                let k = choose|k: int| 0 <= k < a1.len() && a1[k] == n;
                assert(a[k] == n);
                assert(b.contains(n));
                let m = choose|m: int| 0 <= m < b.len() && b[m] == n;
                assert(a[k] != a[a.len() - 1]);
                assert(b1[m] == n);
            }
            if b1.contains(n) {
                let k = choose|k: int| 0 <= k < b1.len() && b1[k] == n;
                assert(b[k] == n);
                assert(a.contains(n));
                let m = choose|m: int| 0 <= m < a.len() && a[m] == n;
                assert(b[k] != b[b.len() - 1]);
                assert(a1[m] == n);
            }
        }
        lemma_ascending_unique(a1, b1);
        assert(a == a1.push(a.last()));
        assert(b == b1.push(b.last()));
    }
}

/// Compares two texts.
pub fn order_texts(a: &str, b: &str) -> (o: Order)
    ensures
        o == text_order(a@, b@),
{
    let x = a.as_bytes();
    let y = b.as_bytes();
    let mut i: usize = 0;
    assert(x@.skip(0) == x@);
    assert(y@.skip(0) == y@);
    loop
        invariant
            i <= x@.len(),
            i <= y@.len(),
            x@ == vstd::utf8::encode_utf8(a@),
            y@ == vstd::utf8::encode_utf8(b@),
            byte_order(x@.skip(i as int), y@.skip(i as int)) == byte_order(x@, y@),
        decreases x@.len() - i,
    {
        if i == x.len() && i == y.len() {
            return Order::Equal;
        }
        if i == x.len() {
            return Order::Less;
        }
        if i == y.len() {
            return Order::Greater;
        }
        if x[i] < y[i] {
            return Order::Less;
        }
        if x[i] > y[i] {
            return Order::Greater;
        }
        assert(x@.skip(i as int).drop_first() == x@.skip(i + 1));
        assert(y@.skip(i as int).drop_first() == y@.skip(i + 1));
        i += 1;
    }
}

/// Where a name stands in ascending names, or where it would be put.
struct Slot {
    at: usize,
    found: bool,
}

/// Searches ascending names for `name` by halving.
fn search(items: &Vec<String>, name: &str) -> (slot: Slot)
    requires
        ascending(texts(items@)),
    ensures
        slot.at <= items@.len(),
        slot.found <==> texts(items@).contains(name@),
        slot.found ==> slot.at < items@.len() && items@[slot.at as int]@ == name@,
        forall|i: int| 0 <= i < slot.at ==> precedes((#[trigger] items@[i])@, name@),
        !slot.found ==> forall|i: int|
            slot.at <= i < items@.len() ==> precedes(name@, (#[trigger] items@[i])@),
{
    let ghost names = texts(items@);
    let mut lo: usize = 0;
    let mut hi: usize = items.len();
    while lo < hi
        invariant
            names == texts(items@),
            ascending(names),
            lo <= hi <= items@.len(),
            forall|i: int| 0 <= i < lo ==> precedes(#[trigger] names[i], name@),
            forall|i: int| hi <= i < names.len() ==> precedes(name@, #[trigger] names[i]),
        decreases hi - lo,
    {
        let mid: usize = lo + (hi - lo) / 2;
        let o = order_texts(items[mid].as_str(), name);
        proof {
            lemma_order_total(names[mid as int], name@);
        }
        match o {
            Order::Equal => {
                assert(names[mid as int] == name@);
                assert forall|i: int| 0 <= i < mid implies precedes((#[trigger] items@[i])@, name@) by {
                    assert(precedes(names[i], names[mid as int]));
                }
                return Slot { at: mid, found: true };
            },
            Order::Less => {
                assert forall|i: int| 0 <= i < mid + 1 implies precedes(#[trigger] names[i], name@) by {
                    if i < mid {
                        assert(precedes(names[i], names[mid as int]));
                        lemma_order_trans(names[i], names[mid as int], name@);
                    }
                }
                lo = mid + 1;
            },
            Order::Greater => {
                assert forall|i: int| mid <= i < names.len() implies precedes(name@, #[trigger] names[i]) by {
                    if i > mid {
                        assert(precedes(names[mid as int], names[i]));
                        lemma_order_trans(name@, names[mid as int], names[i]);
                    }
                }
                hi = mid;
            },
        }
    }
    proof {
        if names.contains(name@) {
            let k = choose|k: int| 0 <= k < names.len() && names[k] == name@;
            lemma_order_total(names[k], name@);
            if k < lo {
                assert(precedes(names[k], name@));
            } else {
                assert(precedes(name@, names[k]));
            }
        }
        assert forall|i: int| 0 <= i < lo implies precedes((#[trigger] items@[i])@, name@) by {
            assert(precedes(names[i], name@));
        }
        assert forall|i: int| lo <= i < items@.len() implies precedes(
            name@,
            (#[trigger] items@[i])@,
        ) by {
            assert(precedes(name@, names[i]));
        }
    }
    Slot { at: lo, found: false }
}

/// Putting a new name where the search says keeps the order.
proof fn lemma_insert_ascending(names: Seq<Seq<char>>, at: int, name: Seq<char>)
    requires
        ascending(names),
        0 <= at <= names.len(),
        forall|i: int| 0 <= i < at ==> precedes(#[trigger] names[i], name),
        forall|i: int| at <= i < names.len() ==> precedes(name, #[trigger] names[i]),
    ensures
        ascending(names.insert(at, name)),
        forall|n: Seq<char>|
            #[trigger] names.insert(at, name).contains(n) <==> n == name || names.contains(n),
{
    let new = names.insert(at, name);
    assert forall|i: int, j: int| 0 <= i < j < new.len() implies precedes(
        #[trigger] new[i],
        #[trigger] new[j],
    ) by {
        let i0 = if i < at { i } else { i - 1 };
        let j0 = if j < at { j } else { j - 1 };
        if i == at {
            assert(precedes(name, names[j0]));
        } else if j == at {
            assert(precedes(names[i0], name));
        } else {
            assert(precedes(names[i0], names[j0]));
        }
    }
    assert forall|n: Seq<char>| #[trigger] new.contains(n) <==> n == name || names.contains(n) by {
        if names.contains(n) {
            let k = choose|k: int| 0 <= k < names.len() && names[k] == n;
            if k < at {
                assert(new[k] == n);
            } else {
                assert(new[k + 1] == n);
            }
        }
        if n == name {
            assert(new[at] == n);
        }
        if new.contains(n) {
            let k = choose|k: int| 0 <= k < new.len() && new[k] == n;
            if k < at {
                assert(names[k] == n);
            } else if k > at {
                assert(names[k - 1] == n);
            }
        }
    }
}

/// Taking a name out keeps the order.
proof fn lemma_remove_ascending(names: Seq<Seq<char>>, at: int)
    requires
        ascending(names),
        0 <= at < names.len(),
    ensures
        ascending(names.remove(at)),
        forall|n: Seq<char>|
            #[trigger] names.remove(at).contains(n) <==> n != names[at] && names.contains(n),
{
    let new = names.remove(at);
    assert forall|i: int, j: int| 0 <= i < j < new.len() implies precedes(
        #[trigger] new[i],
        #[trigger] new[j],
    ) by {
        let i0 = if i < at { i } else { i + 1 };
        let j0 = if j < at { j } else { j + 1 };
        assert(precedes(names[i0], names[j0]));
    }
    lemma_ascending_distinct(names);
    assert forall|n: Seq<char>|
        #[trigger] new.contains(n) <==> n != names[at] && names.contains(n) by {
        if n != names[at] && names.contains(n) {
            let k = choose|k: int| 0 <= k < names.len() && names[k] == n;
            if k < at {
                assert(new[k] == n);
            } else {
                assert(new[k - 1] == n);
            }
        }
        if new.contains(n) {
            let k = choose|k: int| 0 <= k < new.len() && new[k] == n;
            let k0 = if k < at { k } else { k + 1 };
            assert(names[k0] == n);
        }
    }
}

// ── NameSet ───────────────────────────────────────────────────────────────────

/// A set of names.
#[derive(Debug)]
pub struct NameSet {
    items: Vec<String>,
}

impl View for NameSet {
    type V = Set<Seq<char>>;

    open spec fn view(&self) -> Set<Seq<char>> {
        self.names().to_set()
    }
}

impl NameSet {
    /// The names in ascending order.
    pub closed spec fn names(&self) -> Seq<Seq<char>> {
        texts(self.items@)
    }

    #[verifier::type_invariant]
    spec fn in_order(self) -> bool {
        ascending(texts(self.items@))
    }

    /// The empty set.
    pub fn new() -> (s: NameSet)
        ensures
            s@ == Set::<Seq<char>>::empty(),
            s.names() == Seq::<Seq<char>>::empty(),
    {
        let items: Vec<String> = Vec::new();
        let s = NameSet { items };
        assert(s.names() =~= Seq::empty());
        assert(s@ =~= Set::empty());
        s
    }

    /// The number of names.
    pub fn len(&self) -> (n: usize)
        ensures
            n == self.names().len(),
            n == self@.len(),
            self@.finite(),
            ascending(self.names()),
    {
        proof {
            use_type_invariant(self);
            lemma_ascending_distinct(self.names());
            self.names().unique_seq_to_set();
            vstd::seq_lib::seq_to_set_is_finite(self.names());
        }
        self.items.len()
    }

    /// Whether the set holds no name.
    pub fn is_empty(&self) -> (yes: bool)
        ensures
            yes == (self@ == Set::<Seq<char>>::empty()),
            yes == (self.names().len() == 0),
    {
        if self.items.len() == 0 {
            assert(self@ =~= Set::empty());
            true
        } else {
            assert(self.names().contains(self.names()[0]));
            assert(self@.contains(self.names()[0]));
            false
        }
    }

    /// The name at position `i` of the ascending order.
    pub fn get(&self, i: usize) -> (name: &String)
        requires
            i < self.names().len(),
        ensures
            name@ == self.names()[i as int],
            self@.contains(name@),
    {
        assert(self.names().contains(self.names()[i as int]));
        &self.items[i]
    }

    /// Whether the set holds `name`.
    pub fn contains(&self, name: &str) -> (yes: bool)
        ensures
            yes == self@.contains(name@),
    {
        proof {
            use_type_invariant(self);
        }
        search(&self.items, name).found
    }

    /// Puts `name` into the set; says whether it was new.
    pub fn insert(&mut self, name: String) -> (new: bool)
        ensures
            new == !old(self)@.contains(name@),
            final(self)@ == old(self)@.insert(name@),
    {
        proof {
            use_type_invariant(&*self);
        }
        let slot = search(&self.items, name.as_str());
        let ghost before = texts(self.items@);
        let ghost added = name@;
        if slot.found {
            assert(self@ =~= old(self)@.insert(added));
            return false;
        }
        let mut items: Vec<String> = Vec::new();
        std::mem::swap(&mut self.items, &mut items);
        items.insert(slot.at, name);
        proof {
            assert forall|i: int| 0 <= i < slot.at implies precedes(#[trigger] before[i], added) by {
                assert(precedes(old(self).items@[i]@, added));
            }
            assert forall|i: int| slot.at <= i < before.len() implies precedes(
                added,
                #[trigger] before[i],
            ) by {
                assert(precedes(added, old(self).items@[i]@));
            }
            lemma_insert_ascending(before, slot.at as int, added);
            assert(texts(items@) =~= before.insert(slot.at as int, added));
        }
        *self = NameSet { items };
        assert(self@ =~= old(self)@.insert(added));
        true
    }

    /// Takes `name` out of the set; says whether it was there.
    pub fn remove(&mut self, name: &str) -> (there: bool)
        ensures
            there == old(self)@.contains(name@),
            final(self)@ == old(self)@.remove(name@),
    {
        proof {
            use_type_invariant(&*self);
        }
        let slot = search(&self.items, name);
        let ghost before = texts(self.items@);
        if !slot.found {
            assert(self@ =~= old(self)@.remove(name@));
            return false;
        }
        let mut items: Vec<String> = Vec::new();
        std::mem::swap(&mut self.items, &mut items);
        let _ = items.remove(slot.at);
        proof {
            assert(before[slot.at as int] == name@);
            lemma_remove_ascending(before, slot.at as int);
            assert(texts(items@) =~= before.remove(slot.at as int));
        }
        *self = NameSet { items };
        assert(self@ =~= old(self)@.remove(name@));
        true
    }

    /// Puts every name of `other` into the set.
    pub fn insert_all(&mut self, other: &NameSet)
        ensures
            final(self)@ == old(self)@.union(other@),
    {
        let n: usize = other.len();
        let ghost before = self@;
        let mut i: usize = 0;
        assert(self@ =~= before.union(other.names().take(0).to_set()));
        while i < n
            invariant
                i <= n,
                n == other.names().len(),
                self@ == before.union(other.names().take(i as int).to_set()),
            decreases n - i,
        {
            let name = other.get(i).clone();
            let ghost added = name@;
            self.insert(name);
            proof {
                let t = other.names().take(i + 1);
                assert(t == other.names().take(i as int).push(added));
                other.names().take(i as int).lemma_push_to_set_commute(added);
                assert(self@ =~= before.union(t.to_set()));
            }
            i += 1;
        }
        assert(other.names().take(n as int) == other.names());
        assert(self@ =~= before.union(other@));
    }

    /// The names in ascending order.
    pub fn to_vec(&self) -> (v: Vec<String>)
        ensures
            texts(v@) == self.names(),
            ascending(texts(v@)),
    {
        proof {
            use_type_invariant(self);
        }
        let mut v: Vec<String> = Vec::new();
        for i in 0..self.items.len()
            invariant
                v@.len() == i,
                forall|k: int| 0 <= k < i ==> (#[trigger] v@[k])@ == self.items@[k]@,
        {
            v.push(self.items[i].clone());
        }
        assert(texts(v@) =~= self.names());
        v
    }
}

impl Clone for NameSet {
    fn clone(&self) -> (s: NameSet)
        ensures
            s@ == self@,
            s.names() == self.names(),
    {
        let items = self.to_vec();
        let s = NameSet { items };
        assert(s.names() =~= self.names());
        s
    }
}

/// The names of `a` that `b` does not hold.
pub fn difference(a: &NameSet, b: &NameSet) -> (rest: NameSet)
    ensures
        rest@ == a@.difference(b@),
{
    let mut rest = NameSet::new();
    let count: usize = a.len();
    let mut i: usize = 0;
    while i < count
        invariant
            i <= count,
            count == a.names().len(),
            forall|n: Seq<char>| #[trigger] rest@.contains(n) ==> a@.contains(n) && !b@.contains(n),
            forall|k: int|
                0 <= k < i && !b@.contains(#[trigger] a.names()[k]) ==> rest@.contains(a.names()[k]),
        decreases count - i,
    {
        let name = a.get(i);
        if !b.contains(name.as_str()) {
            rest.insert(name.clone());
        }
        i += 1;
    }
    assert forall|n: Seq<char>| #[trigger] rest@.contains(n) <==> a@.difference(b@).contains(n) by {
        if a@.contains(n) {
            assert(a.names().contains(n));
        }
    }
    assert(rest@ =~= a@.difference(b@));
    rest
}

/// The names that both `a` and `b` hold.
pub fn intersection(a: &NameSet, b: &NameSet) -> (both: NameSet)
    ensures
        both@ == a@.intersect(b@),
{
    let only = difference(a, b);
    let both = difference(a, &only);
    assert(both@ =~= a@.intersect(b@));
    both
}

/// The names that `a` or `b` holds.
pub fn union(a: &NameSet, b: &NameSet) -> (all: NameSet)
    ensures
        all@ == a@.union(b@),
{
    let mut all = a.clone();
    all.insert_all(b);
    all
}

// ── NameMap ───────────────────────────────────────────────────────────────────

/// A map from names to values.
#[derive(Debug)]
pub struct NameMap<V> {
    names: Vec<String>,
    values: Vec<V>,
}

impl<V> View for NameMap<V> {
    type V = Map<Seq<char>, V>;

    open spec fn view(&self) -> Map<Seq<char>, V> {
        Map::new(|n: Seq<char>| self.keys().contains(n), |n: Seq<char>| self.value_of(n))
    }
}

impl<V> NameMap<V> {
    /// The names in ascending order.
    pub closed spec fn keys(&self) -> Seq<Seq<char>> {
        texts(self.names@)
    }

    /// The value that a name of the map leads to.
    pub closed spec fn value_of(&self, name: Seq<char>) -> V {
        self.values@[self.keys().index_of(name)]
    }

    #[verifier::type_invariant]
    spec fn in_order(self) -> bool {
        &&& ascending(texts(self.names@))
        &&& self.names@.len() == self.values@.len()
    }

    proof fn lemma_value(self, i: int)
        requires
            self.in_order(),
            0 <= i < self.names@.len(),
        ensures
            self@.contains_key(self.keys()[i]),
            self@[self.keys()[i]] == self.values@[i],
            self.keys()[i] == self.names@[i]@,
    {
        lemma_ascending_distinct(self.keys());
        assert(self.keys().contains(self.keys()[i]));
        let j = self.keys().index_of(self.keys()[i]);
        assert(0 <= j < self.keys().len() && self.keys()[j] == self.keys()[i]);
    }

    /// The empty map.
    pub fn new() -> (m: NameMap<V>)
        ensures
            m@ == Map::<Seq<char>, V>::empty(),
            m.keys() == Seq::<Seq<char>>::empty(),
    {
        let names: Vec<String> = Vec::new();
        let values: Vec<V> = Vec::new();
        let m = NameMap { names, values };
        assert(m.keys() =~= Seq::empty());
        assert(m@ =~= Map::empty());
        m
    }

    /// The number of names.
    pub fn len(&self) -> (n: usize)
        ensures
            n == self.keys().len(),
            n == self@.len(),
            self@.dom().finite(),
            ascending(self.keys()),
    {
        proof {
            use_type_invariant(self);
            lemma_ascending_distinct(self.keys());
            self.keys().unique_seq_to_set();
            vstd::seq_lib::seq_to_set_is_finite(self.keys());
            assert(self@.dom() =~= self.keys().to_set());
        }
        self.names.len()
    }

    /// Whether the map holds no name.
    pub fn is_empty(&self) -> (yes: bool)
        ensures
            yes == (self@ == Map::<Seq<char>, V>::empty()),
            yes == (self.keys().len() == 0),
    {
        if self.names.len() == 0 {
            assert(self@ =~= Map::empty());
            true
        } else {
            assert(self.keys().contains(self.keys()[0]));
            assert(self@.contains_key(self.keys()[0]));
            false
        }
    }

    /// The name at position `i` of the ascending order.
    pub fn key_at(&self, i: usize) -> (name: &String)
        requires
            i < self.keys().len(),
        ensures
            name@ == self.keys()[i as int],
            self@.contains_key(name@),
    {
        assert(self.keys().contains(self.keys()[i as int]));
        &self.names[i]
    }

    /// The value of the name at position `i` of the ascending order.
    pub fn value_at(&self, i: usize) -> (value: &V)
        requires
            i < self.keys().len(),
        ensures
            *value == self@[self.keys()[i as int]],
    {
        proof {
            use_type_invariant(self);
            self.lemma_value(i as int);
        }
        &self.values[i]
    }

    /// Whether the map holds `name`.
    pub fn contains_key(&self, name: &str) -> (yes: bool)
        ensures
            yes == self@.contains_key(name@),
    {
        proof {
            use_type_invariant(self);
        }
        search(&self.names, name).found
    }

    /// The value of `name`.
    pub fn get(&self, name: &str) -> (value: Option<&V>)
        ensures
            match value {
                Some(v) => self@.contains_key(name@) && self@[name@] == *v,
                None => !self@.contains_key(name@),
            },
    {
        proof {
            use_type_invariant(self);
        }
        let slot = search(&self.names, name);
        if slot.found {
            proof {
                self.lemma_value(slot.at as int);
            }
            Some(&self.values[slot.at])
        } else {
            None
        }
    }

    /// Gives `name` the value `value`, in place of any that it had.
    pub fn insert(&mut self, name: String, value: V)
        ensures
            final(self)@ == old(self)@.insert(name@, value),
    {
        proof {
            use_type_invariant(&*self);
        }
        let slot = search(&self.names, name.as_str());
        let ghost before = self.keys();
        let ghost old_map = *self;
        let ghost key = name@;
        let mut taken: NameMap<V> = NameMap { names: Vec::new(), values: Vec::new() };
        std::mem::swap(self, &mut taken);
        let NameMap { names: mut names, values: mut values } = taken;
        if slot.found {
            values.set(slot.at, value);
        } else {
            names.insert(slot.at, name);
            values.insert(slot.at, value);
            proof {
                assert forall|i: int| 0 <= i < slot.at implies precedes(
                    #[trigger] before[i],
                    key,
                ) by {
                    assert(precedes(old_map.names@[i]@, key));
                }
                assert forall|i: int| slot.at <= i < before.len() implies precedes(
                    key,
                    #[trigger] before[i],
                ) by {
                    assert(precedes(key, old_map.names@[i]@));
                }
                lemma_insert_ascending(before, slot.at as int, key);
                assert(texts(names@) =~= before.insert(slot.at as int, key));
            }
        }
        *self = NameMap { names, values };
        proof {
            let at = slot.at as int;
            assert(self.keys()[at] == key);
            assert(self.in_order());
            assert forall|n: Seq<char>| #[trigger] self.keys().contains(n) implies self.value_of(n) == (
            if n == key {
                value
            } else {
                old_map.value_of(n)
            }) by {
                let k = choose|k: int| 0 <= k < self.keys().len() && self.keys()[k] == n;
                self.lemma_value(k);
                self.lemma_value(at);
                if n != key {
                    let k0 = if slot.found || k < at { k } else { k - 1 };
                    assert(before[k0] == n);
                    old_map.lemma_value(k0);
                }
            }
            assert(self@ =~= old_map@.insert(key, value));
        }
    }

    /// Takes `name` out of the map.
    pub fn remove(&mut self, name: &str) -> (value: Option<V>)
        ensures
            match value {
                Some(v) => old(self)@.contains_key(name@) && old(self)@[name@] == v,
                None => !old(self)@.contains_key(name@),
            },
            final(self)@ == old(self)@.remove(name@),
    {
        proof {
            use_type_invariant(&*self);
        }
        let slot = search(&self.names, name);
        let ghost before = self.keys();
        let ghost old_map = *self;
        if !slot.found {
            assert(self@ =~= old_map@.remove(name@));
            return None;
        }
        let mut taken: NameMap<V> = NameMap { names: Vec::new(), values: Vec::new() };
        std::mem::swap(self, &mut taken);
        let NameMap { names: mut names, values: mut values } = taken;
        let _ = names.remove(slot.at);
        let value = values.remove(slot.at);
        proof {
            old_map.lemma_value(slot.at as int);
            lemma_remove_ascending(before, slot.at as int);
            assert(texts(names@) =~= before.remove(slot.at as int));
        }
        *self = NameMap { names, values };
        proof {
            let at = slot.at as int;
            assert(self.in_order());
            assert forall|n: Seq<char>| #[trigger] self.keys().contains(n) implies self.value_of(n)
                == old_map.value_of(n) by {
                let k = choose|k: int| 0 <= k < self.keys().len() && self.keys()[k] == n;
                self.lemma_value(k);
                let k0 = if k < at { k } else { k + 1 };
                assert(before[k0] == n);
                old_map.lemma_value(k0);
            }
            assert(self@ =~= old_map@.remove(name@));
        }
        Some(value)
    }
}

} // verus!
