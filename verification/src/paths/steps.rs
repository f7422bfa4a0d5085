//! The steps of a path: which texts are spellings of one, and which path comes first.
use crate::names::{lemma_order_total, lemma_order_trans, order_texts, text_order, Order};
use crate::split::{
    lemma_until_char, lemma_until_char_bound, pieces, slice_views, split, until_char,
};
use crate::text::{chars_of, is_word, string_of, texts};
use vstd::prelude::*;

verus! {

// ── The order of paths ────────────────────────────────────────────────────────

/// A step of a path: what kind it is of, and its name if it has one. Of two steps the root comes
/// first, the current directory next, then the parent directory, then names in their order.
pub(crate) struct Step {
    pub(crate) rank: u8,
    pub(crate) name: String,
}

/// What a step is.
pub ghost struct StepView {
    pub rank: int,
    pub name: Seq<char>,
}

impl View for Step {
    type V = StepView;

    closed spec fn view(&self) -> StepView {
        StepView { rank: self.rank as int, name: self.name@ }
    }
}

pub(crate) closed spec fn step_views(v: Seq<Step>) -> Seq<StepView> {
    Seq::new(v.len(), |i: int| v[i]@)
}

/// The steps between the slashes of a path. Nothing between two slashes is no step, and the current
/// directory is one at the start only.
pub open spec fn named_steps(parts: Seq<Seq<char>>) -> Seq<StepView>
    decreases parts.len(),
{
    if parts.len() == 0 {
        seq![]
    } else {
        let front = named_steps(parts.drop_last());
        let part = parts.last();
        if part == ""@ || (part == "."@ && parts.len() > 1) {
            front
        } else if part == "."@ {
            front.push(StepView { rank: 1, name: ""@ })
        } else if part == ".."@ {
            front.push(StepView { rank: 2, name: ""@ })
        } else {
            front.push(StepView { rank: 3, name: part })
        }
    }
}

/// The steps of a path.
pub open spec fn steps_of(path: Seq<char>) -> Seq<StepView> {
    if path.len() > 0 && path[0] == '/' {
        seq![StepView { rank: 0, name: ""@ }] + named_steps(pieces(path, '/'))
    } else {
        named_steps(pieces(path, '/'))
    }
}

/// How one step stands to another.
pub open spec fn step_order(a: StepView, b: StepView) -> Order {
    if a.rank < b.rank {
        Order::Less
    } else if a.rank > b.rank {
        Order::Greater
    } else {
        text_order(a.name, b.name)
    }
}

/// How one list of steps stands to another: the first steps that differ decide.
pub open spec fn steps_order(a: Seq<StepView>, b: Seq<StepView>) -> Order
    decreases a.len(),
{
    if a.len() == 0 && b.len() == 0 {
        Order::Equal
    } else if a.len() == 0 {
        Order::Less
    } else if b.len() == 0 {
        Order::Greater
    } else if step_order(a[0], b[0]) != Order::Equal {
        step_order(a[0], b[0])
    } else {
        steps_order(a.drop_first(), b.drop_first())
    }
}

/// Whether `a` may stand in front of `b`.
pub open spec fn path_before(a: Seq<char>, b: Seq<char>) -> bool {
    steps_order(steps_of(a), steps_of(b)) != Order::Greater
}

proof fn lemma_step_order(a: StepView, b: StepView)
    ensures
        step_order(a, b) == Order::Equal <==> a == b,
        step_order(a, b) == Order::Less <==> step_order(b, a) == Order::Greater,
{
    lemma_order_total(a.name, b.name);
}

proof fn lemma_step_order_trans(a: StepView, b: StepView, c: StepView)
    requires
        step_order(a, b) == Order::Less,
        step_order(b, c) == Order::Less,
    ensures
        step_order(a, c) == Order::Less,
{
    if a.rank == b.rank && b.rank == c.rank {
        lemma_order_trans(a.name, b.name, c.name);
    }
}

pub proof fn lemma_steps_order_flip(a: Seq<StepView>, b: Seq<StepView>)
    ensures
        steps_order(a, b) == Order::Greater <==> steps_order(b, a) == Order::Less,
        steps_order(a, b) == Order::Equal <==> a == b,
    decreases a.len(),
{
    if a.len() > 0 && b.len() > 0 {
        lemma_step_order(a[0], b[0]);
        lemma_step_order(b[0], a[0]);
        if a[0] == b[0] {
            lemma_steps_order_flip(a.drop_first(), b.drop_first());
            assert(a =~= seq![a[0]] + a.drop_first());
            assert(b =~= seq![b[0]] + b.drop_first());
        }
    } else if a.len() == 0 && b.len() == 0 {
        assert(a =~= b);
    }
}

proof fn lemma_steps_order_trans(a: Seq<StepView>, b: Seq<StepView>, c: Seq<StepView>)
    requires
        steps_order(a, b) != Order::Greater,
        steps_order(b, c) != Order::Greater,
    ensures
        steps_order(a, c) != Order::Greater,
    decreases a.len(),
{
    if a.len() > 0 && b.len() > 0 && c.len() > 0 {
        lemma_step_order(a[0], b[0]);
        lemma_step_order(b[0], c[0]);
        lemma_step_order(a[0], c[0]);
        if a[0] == b[0] && b[0] == c[0] {
            lemma_steps_order_trans(a.drop_first(), b.drop_first(), c.drop_first());
        } else if a[0] != b[0] && b[0] != c[0] {
            lemma_step_order_trans(a[0], b[0], c[0]);
        }
    }
}

pub proof fn lemma_path_before_trans(a: Seq<char>, b: Seq<char>, c: Seq<char>)
    requires
        path_before(a, b),
        path_before(b, c),
    ensures
        path_before(a, c),
{
    lemma_steps_order_trans(steps_of(a), steps_of(b), steps_of(c));
}

/// Takes a path apart.
pub(crate) fn read_steps(path: &str) -> (steps: Vec<Step>)
    ensures
        step_views(steps@) == steps_of(path@),
{
    let chars = chars_of(path);
    let parts = split(chars.as_slice(), '/');
    let ghost all = pieces(path@, '/');
    let mut steps: Vec<Step> = Vec::new();
    assert(step_views(steps@) =~= seq![]);
    if chars.len() > 0 && chars[0] == '/' {
        steps.push(Step { rank: 0, name: "".to_owned() });
    }
    let ghost root = step_views(steps@);
    let mut i: usize = 0;
    assert(all.take(0) =~= Seq::<Seq<char>>::empty());
    assert(root =~= root + named_steps(all.take(0)));
    while i < parts.len()
        invariant
            i <= parts@.len(),
            slice_views(parts@) == all,
            step_views(steps@) == root + named_steps(all.take(i as int)),
        decreases parts@.len() - i,
    {
        let part = parts[i];
        let ghost before = step_views(steps@);
        proof {
            assert(all.take(i + 1).drop_last() =~= all.take(i as int));
            assert(all.take(i + 1).last() == slice_views(parts@)[i as int]);
        }
        if is_word(part, "") || (is_word(part, ".") && i > 0) {
        } else {
            let step = if is_word(part, ".") {
                Step { rank: 1, name: "".to_owned() }
            } else if is_word(part, "..") {
                Step { rank: 2, name: "".to_owned() }
            } else {
                Step { rank: 3, name: string_of(part) }
            };
            let ghost v = step@;
            steps.push(step);
            proof {
                assert(step_views(steps@) =~= before.push(v));
                assert(before.push(v) =~= root + named_steps(all.take(i as int)).push(v));
            }
        }
        i += 1;
    }
    proof {
        assert(all.take(i as int) =~= all);
        if path@.len() > 0 && path@[0] == '/' {
            assert(root =~= seq![StepView { rank: 0, name: ""@ }]);
        } else {
            assert(root + named_steps(all) =~= named_steps(all));
        }
    }
    steps
}

/// Compares two paths by their steps.
pub(crate) fn order_steps(a: &Vec<Step>, b: &Vec<Step>) -> (o: Order)
    ensures
        o == steps_order(step_views(a@), step_views(b@)),
{
    let ghost x = step_views(a@);
    let ghost y = step_views(b@);
    let mut i: usize = 0;
    assert(x.skip(0) =~= x);
    assert(y.skip(0) =~= y);
    while i < a.len() && i < b.len()
        invariant
            i <= a@.len(),
            i <= b@.len(),
            x == step_views(a@),
            y == step_views(b@),
            steps_order(x, y) == steps_order(x.skip(i as int), y.skip(i as int)),
        decreases a@.len() - i,
    {
        proof {
            assert(x.skip(i as int)[0] == a@[i as int]@);
            assert(y.skip(i as int)[0] == b@[i as int]@);
            assert(x.skip(i as int).drop_first() =~= x.skip(i + 1));
            assert(y.skip(i as int).drop_first() =~= y.skip(i + 1));
        }
        if a[i].rank < b[i].rank {
            return Order::Less;
        }
        if a[i].rank > b[i].rank {
            return Order::Greater;
        }
        match order_texts(a[i].name.as_str(), b[i].name.as_str()) {
            Order::Less => {
                return Order::Less;
            },
            Order::Greater => {
                return Order::Greater;
            },
            Order::Equal => {},
        }
        i += 1;
    }
    if a.len() > i {
        Order::Greater
    } else if b.len() > i {
        Order::Less
    } else {
        Order::Equal
    }
}

// ── Spellings ─────────────────────────────────────────────────────────────────

/// Whether two texts are spellings of one path.
pub open spec fn same_path(a: Seq<char>, b: Seq<char>) -> bool {
    steps_of(a) == steps_of(b)
}

/// Steps with slashes between them.
pub open spec fn joined(steps: Seq<Seq<char>>) -> Seq<char>
    decreases steps.len(),
{
    if steps.len() == 0 {
        seq![]
    } else if steps.len() == 1 {
        steps[0]
    } else {
        joined(steps.drop_last()) + "/"@ + steps.last()
    }
}

/// How a step is spelled.
pub open spec fn step_text(step: StepView) -> Seq<char> {
    if step.rank == 1 {
        "."@
    } else if step.rank == 2 {
        ".."@
    } else {
        step.name
    }
}

/// How steps are spelled.
pub open spec fn step_texts(steps: Seq<StepView>) -> Seq<Seq<char>> {
    Seq::new(steps.len(), |i: int| step_text(steps[i]))
}

/// The plain spelling of a path: one slash between two steps, and none at the end.
pub open spec fn plain_form(path: Seq<char>) -> Seq<char> {
    let body = joined(step_texts(named_steps(pieces(path, '/'))));
    if path.len() > 0 && path[0] == '/' {
        "/"@ + body
    } else {
        body
    }
}

spec fn no_slash(s: Seq<char>) -> bool {
    forall|i: int| 0 <= i < s.len() ==> #[trigger] s[i] != '/'
}

/// What can stand at position `i` of the steps behind the root.
spec fn is_named_step(step: StepView, i: int) -> bool {
    ||| step == (StepView { rank: 1, name: ""@ }) && i == 0
    ||| step == (StepView { rank: 2, name: ""@ })
    ||| {
        &&& step.rank == 3
        &&& step.name != ""@
        &&& step.name != "."@
        &&& step.name != ".."@
        &&& no_slash(step.name)
    }
}

proof fn lemma_front_lacks(s: Seq<char>, c: char, i: int)
    requires
        0 <= i < until_char(s, c),
    ensures
        i < s.len(),
        s[i] != c,
    decreases s.len(),
{
    if i > 0 {
        lemma_front_lacks(s.drop_first(), c, i - 1);
    }
}

proof fn lemma_until_at(s: Seq<char>, c: char)
    ensures
        until_char(s, c) <= s.len(),
        until_char(s, c) < s.len() ==> s[until_char(s, c) as int] == c,
    decreases s.len(),
{
    if s.len() > 0 && s[0] != c {
        lemma_until_at(s.drop_first(), c);
    }
}

/// No piece holds the character that a text was split at.
pub proof fn lemma_pieces_lack(s: Seq<char>, c: char, i: int, j: int)
    requires
        0 <= i < pieces(s, c).len(),
        0 <= j < pieces(s, c)[i].len(),
    ensures
        pieces(s, c)[i][j] != c,
    decreases s.len(),
{
    let n = until_char(s, c) as int;
    lemma_until_char_bound(s, c);
    if n < s.len() {
        let rest = pieces(s.skip(n + 1), c);
        assert(pieces(s, c) == seq![s.take(n)] + rest);
        if i == 0 {
            lemma_front_lacks(s, c, j);
        } else {
            assert(pieces(s, c)[i] == rest[i - 1]);
            lemma_pieces_lack(s.skip(n + 1), c, i - 1, j);
        }
    } else {
        lemma_front_lacks(s, c, j);
    }
}

proof fn lemma_pieces_push(a: Seq<char>, b: Seq<char>)
    requires
        no_slash(b),
    ensures
        pieces(a + "/"@ + b, '/') == pieces(a, '/').push(b),
    decreases a.len(),
{
    reveal_strlit("/");
    let s = a + "/"@ + b;
    let n = until_char(a, '/') as int;
    lemma_until_at(a, '/');
    assert forall|i: int| 0 <= i < n implies s[i] != '/' by {
        lemma_front_lacks(a, '/', i);
        assert(s[i] == a[i]);
    }
    assert(s[n] == '/');
    lemma_until_char(s, '/', n);
    assert(s.take(n) =~= a.take(n));
    if n < a.len() {
        assert(s.skip(n + 1) =~= a.skip(n + 1) + "/"@ + b);
        lemma_pieces_push(a.skip(n + 1), b);
        assert(pieces(s, '/') == seq![s.take(n)] + pieces(s.skip(n + 1), '/'));
        assert(pieces(a, '/') == seq![a.take(n)] + pieces(a.skip(n + 1), '/'));
        assert(pieces(s, '/') =~= pieces(a, '/').push(b));
    } else {
        assert(s.skip(n + 1) =~= b);
        lemma_until_char(b, '/', b.len() as int);
        assert(pieces(b, '/') == seq![b]);
        assert(a.take(n) =~= a);
        assert(pieces(a, '/') == seq![a]);
        assert(pieces(s, '/') == seq![s.take(n)] + pieces(s.skip(n + 1), '/'));
        assert(pieces(s, '/') =~= seq![a].push(b));
    }
}

/// Joining steps and taking the path apart again gives the steps.
pub proof fn lemma_pieces_joined(steps: Seq<Seq<char>>)
    requires
        steps.len() > 0,
        forall|i: int, j: int|
            0 <= i < steps.len() && 0 <= j < steps[i].len() ==> #[trigger] steps[i][j] != '/',
    ensures
        pieces(joined(steps), '/') == steps,
    decreases steps.len(),
{
    assert(no_slash(steps.last())) by {
        assert forall|j: int| 0 <= j < steps.last().len() implies #[trigger] steps.last()[j]
            != '/' by {
            assert(steps[steps.len() - 1][j] != '/');
        }
    }
    if steps.len() == 1 {
        lemma_until_char(steps[0], '/', steps[0].len() as int);
        assert(pieces(steps[0], '/') =~= steps);
    } else {
        let front = steps.drop_last();
        assert forall|i: int, j: int| 0 <= i < front.len() && 0 <= j < front[i].len() implies
            #[trigger] front[i][j] != '/' by {
            assert(front[i][j] == steps[i][j]);
        }
        lemma_pieces_joined(front);
        lemma_pieces_push(joined(front), steps.last());
        assert(front.push(steps.last()) =~= steps);
    }
}

proof fn lemma_named_steps(parts: Seq<Seq<char>>, k: int)
    requires
        forall|i: int, j: int|
            0 <= i < parts.len() && 0 <= j < parts[i].len() ==> #[trigger] parts[i][j] != '/',
        0 <= k < named_steps(parts).len(),
    ensures
        is_named_step(named_steps(parts)[k], k),
        parts[0] != "."@ ==> named_steps(parts)[k].rank != 1,
    decreases parts.len(),
{
    if parts.len() > 0 {
        let front = parts.drop_last();
        let part = parts.last();
        let steps = named_steps(front);
        assert forall|i: int, j: int| 0 <= i < front.len() && 0 <= j < front[i].len() implies
            #[trigger] front[i][j] != '/' by {
            assert(front[i][j] == parts[i][j]);
        }
        if k < steps.len() {
            lemma_named_steps(front, k);
            assert(named_steps(parts)[k] == steps[k]);
            assert(front.len() > 0);
        } else {
            assert(no_slash(part)) by {
                assert forall|j: int| 0 <= j < part.len() implies #[trigger] part[j] != '/' by {
                    assert(parts[parts.len() - 1][j] != '/');
                }
            }
            if parts.len() == 1 {
                assert(steps =~= seq![]);
            }
        }
    }
}

/// Spelling steps and reading them again gives the steps; `root` says that they stand behind one.
proof fn lemma_steps_read_back(steps: Seq<StepView>, root: bool)
    requires
        forall|i: int| 0 <= i < steps.len() ==> is_named_step(#[trigger] steps[i], i),
        root ==> forall|i: int| 0 <= i < steps.len() ==> (#[trigger] steps[i]).rank != 1,
    ensures
        !root ==> named_steps(step_texts(steps)) == steps,
        root ==> named_steps(seq![""@] + step_texts(steps)) == steps,
    decreases steps.len(),
{
    reveal_strlit("");
    reveal_strlit(".");
    reveal_strlit("..");
    let lead = if root {
        seq![""@]
    } else {
        seq![]
    };
    let parts = lead + step_texts(steps);
    if steps.len() == 0 {
        if root {
            assert(parts =~= seq![""@]);
            assert(parts.drop_last() =~= Seq::<Seq<char>>::empty());
            assert(named_steps(parts.drop_last()) =~= seq![]);
            assert(parts.last() == ""@);
            assert(named_steps(parts) =~= steps);
        } else {
            assert(step_texts(steps) =~= seq![]);
            assert(named_steps(step_texts(steps)) =~= steps);
        }
    } else {
        let front = steps.drop_last();
        assert forall|i: int| 0 <= i < front.len() implies is_named_step(#[trigger] front[i], i) by {
            assert(front[i] == steps[i]);
        }
        if root {
            assert forall|i: int| 0 <= i < front.len() implies (#[trigger] front[i]).rank != 1 by {
                assert(front[i] == steps[i]);
            }
        }
        lemma_steps_read_back(front, root);
        let last = steps.last();
        assert(is_named_step(steps[steps.len() - 1], steps.len() - 1));
        assert(parts.drop_last() =~= lead + step_texts(front));
        assert(parts.last() == step_text(last));
        assert("."@.len() == 1 && ".."@.len() == 2 && ""@.len() == 0);
        assert(named_steps(parts) =~= front.push(last));
        assert(front.push(last) =~= steps);
        if !root {
            assert(parts =~= step_texts(steps));
            assert(lead + step_texts(front) =~= step_texts(front));
        }
    }
}

/// The plain spelling of a path is a spelling of it.
pub proof fn lemma_plain_form(path: Seq<char>)
    ensures
        same_path(plain_form(path), path),
{
    reveal_strlit("/");
    reveal_strlit("");
    reveal_strlit(".");
    reveal_strlit("..");
    let parts = pieces(path, '/');
    let steps = named_steps(parts);
    let words = step_texts(steps);
    let root = path.len() > 0 && path[0] == '/';
    assert forall|i: int, j: int| 0 <= i < parts.len() && 0 <= j < parts[i].len() implies
        #[trigger] parts[i][j] != '/' by {
        lemma_pieces_lack(path, '/', i, j);
    }
    assert forall|k: int| 0 <= k < steps.len() implies is_named_step(#[trigger] steps[k], k) by {
        lemma_named_steps(parts, k);
    }
    if root {
        assert(until_char(path, '/') == 0);
        assert(parts[0] =~= ""@);
        assert forall|k: int| 0 <= k < steps.len() implies (#[trigger] steps[k]).rank != 1 by {
            lemma_named_steps(parts, k);
            assert(""@.len() != "."@.len());
        }
    }
    lemma_steps_read_back(steps, root);
    assert forall|i: int, j: int| 0 <= i < words.len() && 0 <= j < words[i].len() implies
        #[trigger] words[i][j] != '/' by {
        assert(is_named_step(steps[i], i));
        assert("."@[0] == '.' && ".."@[0] == '.' && ".."@[1] == '.');
    }
    let body = joined(words);
    if words.len() > 0 {
        lemma_pieces_joined(words);
    } else {
        assert(body =~= ""@);
        assert(until_char(body, '/') == 0);
        assert(pieces(body, '/') == seq![body]);
        assert(pieces(body, '/') =~= seq![""@]);
        assert(words =~= seq![]);
    }
    let form = plain_form(path);
    if root {
        assert(form =~= "/"@ + body);
        assert(form[0] == '/');
        assert(until_char(form, '/') == 0);
        assert(form.skip(1) =~= body);
        assert(form.take(0) =~= ""@);
        assert(pieces(form, '/') == seq![form.take(0)] + pieces(form.skip(1), '/'));
        if words.len() > 0 {
            assert(pieces(form, '/') =~= seq![""@] + words);
        } else {
            let p = pieces(form, '/');
            assert(p =~= seq![""@, ""@]);
            assert(p.drop_last() =~= seq![""@]);
            assert(p.drop_last().drop_last() =~= Seq::<Seq<char>>::empty());
            assert(named_steps(p.drop_last()) =~= seq![]);
            assert(named_steps(p) =~= steps);
        }
    } else {
        if words.len() > 0 {
            let first = words[0];
            assert(is_named_step(steps[0], 0));
            assert(first.len() > 0) by {
                if first.len() == 0 {
                    assert(first =~= ""@);
                }
            }
            assert(pieces(body, '/')[0] == first);
            lemma_until_at(body, '/');
            if body[0] == '/' {
                assert(until_char(body, '/') == 0);
                assert(body.take(0).len() == 0);
                assert(pieces(body, '/')[0].len() == 0);
            }
        } else {
            let p = pieces(body, '/');
            assert(p.drop_last() =~= Seq::<Seq<char>>::empty());
            assert(named_steps(p) =~= steps);
        }
    }
}

/// Two texts are spellings of one path just where their plain spellings are equal.
pub proof fn lemma_same_form(a: Seq<char>, b: Seq<char>)
    ensures
        same_path(a, b) <==> plain_form(a) == plain_form(b),
{
    lemma_plain_form(a);
    lemma_plain_form(b);
    if same_path(a, b) {
        let (ra, rb) = (a.len() > 0 && a[0] == '/', b.len() > 0 && b[0] == '/');
        let (na, nb) = (named_steps(pieces(a, '/')), named_steps(pieces(b, '/')));
        let zero = StepView { rank: 0, name: ""@ };
        lemma_no_zero(a);
        lemma_no_zero(b);
        if ra && rb {
            assert(na =~= (seq![zero] + na).drop_first());
            assert(nb =~= (seq![zero] + nb).drop_first());
        } else if ra {
            assert((seq![zero] + na)[0] == nb[0]);
        } else if rb {
            assert((seq![zero] + nb)[0] == na[0]);
        }
        assert(ra == rb && na == nb);
    }
}

proof fn lemma_no_zero(path: Seq<char>)
    ensures
        named_steps(pieces(path, '/')).len() > 0 ==> named_steps(pieces(path, '/'))[0].rank != 0,
{
    let parts = pieces(path, '/');
    assert forall|i: int, j: int| 0 <= i < parts.len() && 0 <= j < parts[i].len() implies
        #[trigger] parts[i][j] != '/' by {
        lemma_pieces_lack(path, '/', i, j);
    }
    if named_steps(parts).len() > 0 {
        lemma_named_steps(parts, 0);
    }
}

/// A slash at the end of a path makes no difference.
pub proof fn lemma_slash_at_end(path: Seq<char>)
    requires
        path.len() > 0,
    ensures
        same_path(path + "/"@, path),
{
    reveal_strlit("/");
    reveal_strlit("");
    lemma_pieces_push(path, ""@);
    assert(path + "/"@ + ""@ =~= path + "/"@);
    assert(pieces(path + "/"@, '/').drop_last() =~= pieces(path, '/'));
    assert((path + "/"@)[0] == path[0]);
}

proof fn lemma_last_piece(s: Seq<char>, c: char)
    requires
        s.len() > 0,
        s.last() != c,
    ensures
        pieces(s, c).len() > 0,
        pieces(s, c).last().len() > 0,
        pieces(s, c).last().last() == s.last(),
    decreases s.len(),
{
    let n = until_char(s, c) as int;
    lemma_until_at(s, c);
    if n < s.len() {
        let rest = s.skip(n + 1);
        assert(n + 1 < s.len());
        assert(rest.last() == s.last());
        lemma_last_piece(rest, c);
        assert(pieces(s, c) == seq![s.take(n)] + pieces(rest, c));
    } else {
        assert(pieces(s, c) == seq![s]);
    }
}

/// The plain spelling of a path that begins with no slash, and ends in a name, begins with no slash
/// either, and is not empty.
pub proof fn lemma_plain_name(path: Seq<char>)
    requires
        path.len() > 0,
        path[0] != '/',
        path.last() != '/',
        path.last() != '.',
    ensures
        plain_form(path).len() > 0,
        plain_form(path)[0] != '/',
{
    reveal_strlit(".");
    reveal_strlit("..");
    reveal_strlit("");
    let parts = pieces(path, '/');
    let form = plain_form(path);
    lemma_last_piece(path, '/');
    assert("."@.last() == '.' && ".."@.last() == '.');
    assert(named_steps(parts).len() > 0);
    lemma_plain_form(path);
    lemma_no_zero(path);
    if form.len() == 0 {
        assert(until_char(form, '/') == 0);
        assert(pieces(form, '/') == seq![form]);
        assert(pieces(form, '/').drop_last() =~= Seq::<Seq<char>>::empty());
        assert(form =~= ""@);
        assert(named_steps(pieces(form, '/').drop_last()) =~= seq![]);
        assert(pieces(form, '/').last() == ""@);
        assert(named_steps(pieces(form, '/')) =~= seq![]);
    } else if form[0] == '/' {
        assert(steps_of(form)[0].rank == 0);
    }
}

/// Joins steps with slashes.
pub(crate) fn join_steps(steps: &Vec<String>) -> (path: String)
    ensures
        path@ == joined(texts(steps@)),
{
    let ghost all = texts(steps@);
    let mut path = String::new();
    let mut i: usize = 0;
    assert(path@ =~= joined(all.take(0)));
    while i < steps.len()
        invariant
            i <= steps@.len(),
            all == texts(steps@),
            path@ == joined(all.take(i as int)),
        decreases steps@.len() - i,
    {
        proof {
            assert(all.take(i + 1).drop_last() =~= all.take(i as int));
            assert(all.take(i + 1).last() == steps@[i as int]@);
        }
        if i > 0 {
            path.append("/");
            path.append(steps[i].as_str());
        } else {
            path = steps[i].clone();
        }
        i += 1;
    }
    assert(all.take(i as int) =~= all);
    path
}

/// Spells a path plainly.
pub fn to_plain(path: &str) -> (form: String)
    ensures
        form@ == plain_form(path@),
{
    let steps = read_steps(path);
    let ghost all = steps_of(path@);
    let ghost named = named_steps(pieces(path@, '/'));
    let ghost root = path@.len() > 0 && path@[0] == '/';
    let chars = chars_of(path);
    let from: usize = if chars.len() > 0 && chars[0] == '/' {
        1
    } else {
        0
    };
    assert(all.skip(from as int) =~= named);
    let mut words: Vec<String> = Vec::new();
    let mut i: usize = from;
    assert(texts(words@) =~= step_texts(named).take(0));
    while i < steps.len()
        invariant
            from <= i <= steps@.len(),
            all == step_views(steps@),
            all.skip(from as int) == named,
            texts(words@) == step_texts(named).take(i - from),
        decreases steps@.len() - i,
    {
        let ghost before = texts(words@);
        proof {
            assert(named[i - from] == all[i as int]);
            assert(all[i as int] == steps@[i as int]@);
        }
        let word = if steps[i].rank == 1 {
            ".".to_owned()
        } else if steps[i].rank == 2 {
            "..".to_owned()
        } else {
            steps[i].name.clone()
        };
        let ghost w = word@;
        words.push(word);
        assert(texts(words@) =~= before.push(w));
        assert(step_texts(named).take(i + 1 - from) =~= before.push(w));
        i += 1;
    }
    assert(step_texts(named).take(i - from) =~= step_texts(named));
    let body = join_steps(&words);
    if from == 1 {
        let mut form = "/".to_owned();
        form.append(body.as_str());
        form
    } else {
        body
    }
}

/// A slash more, or a step that stays, makes no difference within a path.
pub proof fn lemma_idle_steps(a: Seq<char>, b: Seq<char>)
    requires
        a.len() > 0,
        forall|i: int| 0 <= i < b.len() ==> #[trigger] b[i] != '/',
    ensures
        same_path(a + "/"@ + "/"@ + b, a + "/"@ + b),
        same_path(a + "/"@ + "."@ + "/"@ + b, a + "/"@ + b),
{
    reveal_strlit("/");
    reveal_strlit("");
    reveal_strlit(".");
    reveal_strlit("..");
    let plain = a + "/"@ + b;
    let parts = pieces(a, '/');
    let left = a + "/"@ + ""@;
    let double = left + "/"@ + b;
    lemma_pieces_push(a, b);
    lemma_pieces_push(a, ""@);
    lemma_pieces_push(left, b);
    assert(double =~= a + "/"@ + "/"@ + b);
    let dot = a + "/"@ + "."@;
    let dotted = dot + "/"@ + b;
    assert(no_slash("."@));
    lemma_pieces_push(a, "."@);
    lemma_pieces_push(dot, b);
    assert(plain[0] == a[0] && double[0] == a[0] && dotted[0] == a[0]);
    assert(parts.push(b).drop_last() =~= parts);
    assert(parts.push(""@).drop_last() =~= parts);
    assert(parts.push("."@).drop_last() =~= parts);
    assert(parts.push(""@).push(b).drop_last() =~= parts.push(""@));
    assert(parts.push("."@).push(b).drop_last() =~= parts.push("."@));
    assert("."@.len() == 1 && ".."@.len() == 2 && ""@.len() == 0);
    lemma_some_pieces(a);
    assert(named_steps(parts.push(""@)) == named_steps(parts));
    assert(named_steps(parts.push("."@)) == named_steps(parts));
}

proof fn lemma_some_pieces(s: Seq<char>)
    ensures
        pieces(s, '/').len() > 0,
{
}

} // verus!
