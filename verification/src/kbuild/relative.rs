//! Paths relative to the root of the source tree.
use crate::paths::steps::{
    join_steps, joined, lemma_pieces_joined, lemma_pieces_lack, lemma_same_form, named_steps,
    plain_form, same_path, step_texts,
};
use crate::split::{pieces, slice_views, split};
use crate::text::{chars_of, is_word, string_of, texts};
use vstd::prelude::*;

verus! {

/// Whether `step` names something in the directory that it is taken from.
pub open spec fn is_plain_step(step: Seq<char>) -> bool {
    &&& step.len() > 0
    &&& step != "."@
    &&& step != ".."@
    &&& forall|i: int| 0 <= i < step.len() ==> #[trigger] step[i] != '/'
}

/// Whether `steps` lead down from the root of the tree.
pub open spec fn are_plain(steps: Seq<Seq<char>>) -> bool {
    steps.len() > 0 && forall|i: int| 0 <= i < steps.len() ==> is_plain_step(#[trigger] steps[i])
}

/// Whether `path` leads down from the root of the tree, step by step.
pub open spec fn is_relative(path: Seq<char>) -> bool {
    exists|steps: Seq<Seq<char>>| #[trigger] are_plain(steps) && path == joined(steps)
}

/// Where the steps of a path lead from the root of the tree; nothing where they leave the tree.
pub open spec fn walked(parts: Seq<Seq<char>>) -> Option<Seq<Seq<char>>>
    decreases parts.len(),
{
    if parts.len() == 0 {
        Some(seq![])
    } else {
        let step = parts.last();
        match walked(parts.drop_last()) {
            None => None,
            Some(at) => if step == ""@ || step == "."@ {
                Some(at)
            } else if step != ".."@ {
                Some(at.push(step))
            } else if at.len() > 0 {
                Some(at.drop_last())
            } else {
                None
            },
        }
    }
}

/// The source file, relative to the root, of the object `name` in directory `dir`. A name that
/// begins with a slash, or leads out of the tree, has none.
pub open spec fn source_path(dir: Seq<char>, name: Seq<char>) -> Option<Seq<char>> {
    if name.len() > 0 && name[0] == '/' {
        None
    } else {
        match walked(pieces(dir + name + ".c"@, '/')) {
            Some(steps) => if steps.len() > 0 {
                Some(joined(steps))
            } else {
                None
            },
            None => None,
        }
    }
}

/// Finds the source file of the object `name` in directory `dir`.
pub fn find_source(dir: &str, name: &str) -> (path: Option<String>)
    ensures
        match path {
            Some(p) => source_path(dir@, name@) == Some(p@),
            None => source_path(dir@, name@) is None,
        },
{
    let own = chars_of(name);
    if own.len() > 0 && own[0] == '/' {
        return None;
    }
    let mut whole = dir.to_owned();
    whole.append(name);
    whole.append(".c");
    let chars = chars_of(whole.as_str());
    let parts = split(chars.as_slice(), '/');
    let ghost all = pieces(whole@, '/');
    let mut at: Vec<String> = Vec::new();
    let mut inside = true;
    let mut i: usize = 0;
    assert(all.take(0) =~= Seq::<Seq<char>>::empty());
    assert(texts(at@) =~= seq![]);
    while i < parts.len()
        invariant
            i <= parts@.len(),
            slice_views(parts@) == all,
            inside ==> walked(all.take(i as int)) == Some(texts(at@)),
            !inside ==> walked(all.take(i as int)) is None,
        decreases parts@.len() - i,
    {
        let ghost before = texts(at@);
        proof {
            assert(all.take(i + 1).drop_last() =~= all.take(i as int));
            assert(all.take(i + 1).last() == slice_views(parts@)[i as int]);
        }
        let step = parts[i];
        if is_word(step, "") || is_word(step, ".") {
        } else if !is_word(step, "..") {
            at.push(string_of(step));
            assert(texts(at@) =~= before.push(step@));
        } else if at.len() > 0 {
            at.pop();
            assert(texts(at@) =~= before.drop_last());
        } else {
            inside = false;
        }
        i += 1;
    }
    assert(all.take(i as int) =~= all);
    if inside && at.len() > 0 {
        Some(join_steps(&at))
    } else {
        None
    }
}

// ── Laws ──────────────────────────────────────────────────────────────────────

proof fn lemma_walked_plain(parts: Seq<Seq<char>>, k: int)
    requires
        forall|i: int, j: int|
            0 <= i < parts.len() && 0 <= j < parts[i].len() ==> #[trigger] parts[i][j] != '/',
        walked(parts) is Some,
        0 <= k < walked(parts)->0.len(),
    ensures
        is_plain_step(walked(parts)->0[k]),
    decreases parts.len(),
{
    if parts.len() > 0 {
        reveal_strlit("");
        let front = parts.drop_last();
        let step = parts.last();
        let at = walked(front)->0;
        assert forall|i: int, j: int| 0 <= i < front.len() && 0 <= j < front[i].len() implies
            #[trigger] front[i][j] != '/' by {
            assert(front[i][j] == parts[i][j]);
        }
        if k < at.len() {
            lemma_walked_plain(front, k);
        } else {
            assert(walked(parts) == Some(at.push(step)));
            assert forall|j: int| 0 <= j < step.len() implies #[trigger] step[j] != '/' by {
                assert(parts[parts.len() - 1][j] != '/');
            }
            if step.len() == 0 {
                assert(step =~= ""@);
            }
        }
    }
}

/// The source file of an object is named relative to the root of the tree.
pub proof fn lemma_source_is_relative(dir: Seq<char>, name: Seq<char>)
    requires
        source_path(dir, name) is Some,
    ensures
        is_relative(source_path(dir, name)->0),
{
    let whole = dir + name + ".c"@;
    let parts = pieces(whole, '/');
    let steps = walked(parts)->0;
    assert forall|i: int, j: int| 0 <= i < parts.len() && 0 <= j < parts[i].len() implies
        #[trigger] parts[i][j] != '/' by {
        lemma_pieces_lack(whole, '/', i, j);
    }
    assert forall|k: int| 0 <= k < steps.len() implies is_plain_step(#[trigger] steps[k]) by {
        lemma_walked_plain(parts, k);
    }
    assert(are_plain(steps));
}

proof fn lemma_joined_begins(steps: Seq<Seq<char>>)
    requires
        are_plain(steps),
    ensures
        joined(steps).len() > 0,
        joined(steps)[0] == steps[0][0],
    decreases steps.len(),
{
    assert(is_plain_step(steps[0]));
    if steps.len() > 1 {
        let front = steps.drop_last();
        assert forall|i: int| 0 <= i < front.len() implies is_plain_step(#[trigger] front[i]) by {
            assert(front[i] == steps[i]);
        }
        lemma_joined_begins(front);
        assert(front[0] == steps[0]);
    }
}

/// A relative path does not begin with a slash.
pub proof fn lemma_relative_begins(path: Seq<char>)
    requires
        is_relative(path),
    ensures
        path.len() > 0,
        path[0] != '/',
{
    let steps = choose|steps: Seq<Seq<char>>| #[trigger]
        are_plain(steps) && path == joined(steps);
    lemma_joined_begins(steps);
    assert(is_plain_step(steps[0]));
    assert(steps[0][0] != '/');
}

proof fn lemma_plain_steps(steps: Seq<Seq<char>>)
    requires
        forall|i: int| 0 <= i < steps.len() ==> is_plain_step(#[trigger] steps[i]),
    ensures
        step_texts(named_steps(steps)) == steps,
    decreases steps.len(),
{
    if steps.len() > 0 {
        let front = steps.drop_last();
        assert forall|i: int| 0 <= i < front.len() implies is_plain_step(#[trigger] front[i]) by {
            assert(front[i] == steps[i]);
        }
        lemma_plain_steps(front);
        assert(is_plain_step(steps[steps.len() - 1]));
        reveal_strlit("");
        assert(steps.last() != ""@);
        assert(step_texts(named_steps(steps)) =~= step_texts(named_steps(front)).push(steps.last()));
        assert(front.push(steps.last()) =~= steps);
    } else {
        assert(step_texts(named_steps(steps)) =~= steps);
    }
}

/// A relative path is spelled plainly.
pub proof fn lemma_relative_is_plain(path: Seq<char>)
    requires
        is_relative(path),
    ensures
        plain_form(path) == path,
{
    let steps = choose|steps: Seq<Seq<char>>| #[trigger]
        are_plain(steps) && path == joined(steps);
    assert forall|i: int, j: int| 0 <= i < steps.len() && 0 <= j < steps[i].len() implies
        #[trigger] steps[i][j] != '/' by {
        assert(is_plain_step(steps[i]));
    }
    lemma_pieces_joined(steps);
    lemma_plain_steps(steps);
    lemma_relative_begins(path);
}

/// No two relative paths are spellings of one path.
pub proof fn lemma_relative_once(a: Seq<char>, b: Seq<char>)
    requires
        is_relative(a),
        is_relative(b),
    ensures
        same_path(a, b) <==> a == b,
{
    lemma_relative_is_plain(a);
    lemma_relative_is_plain(b);
    lemma_same_form(a, b);
}

/// The steps of a path are taken one by one: a name leads down, two dots lead up again, one dot or
/// none stays, and what has left the tree does not come back.
pub proof fn lemma_steps_taken(parts: Seq<Seq<char>>, step: Seq<char>)
    ensures
        walked(Seq::<Seq<char>>::empty()) == Some(Seq::<Seq<char>>::empty()),
        walked(parts.push(""@)) == walked(parts),
        walked(parts.push("."@)) == walked(parts),
        is_plain_step(step) ==> walked(parts.push(step).push(".."@)) == walked(parts),
        is_plain_step(step) && walked(parts) is Some ==> walked(parts.push(step)) == Some(
            walked(parts)->0.push(step),
        ),
        walked(parts) is None ==> walked(parts.push(step)) is None,
        walked(parts) == Some(Seq::<Seq<char>>::empty()) ==> walked(parts.push(".."@)) is None,
{
    reveal_strlit("");
    reveal_strlit(".");
    reveal_strlit("..");
    assert(""@.len() == 0 && "."@.len() == 1 && ".."@.len() == 2);
    assert(parts.push(""@).drop_last() =~= parts);
    assert(parts.push("."@).drop_last() =~= parts);
    assert(parts.push(".."@).drop_last() =~= parts);
    assert(parts.push(step).drop_last() =~= parts);
    assert(parts.push(step).push(".."@).drop_last() =~= parts.push(step));
    if is_plain_step(step) && walked(parts) is Some {
        let at = walked(parts)->0;
        assert(walked(parts.push(step)) == Some(at.push(step)));
        assert(at.push(step).drop_last() =~= at);
    }
}

proof fn lemma_plain_walk(steps: Seq<Seq<char>>)
    requires
        forall|i: int| 0 <= i < steps.len() ==> is_plain_step(#[trigger] steps[i]),
    ensures
        walked(steps) == Some(steps),
    decreases steps.len(),
{
    if steps.len() > 0 {
        let front = steps.drop_last();
        assert forall|i: int| 0 <= i < front.len() implies is_plain_step(#[trigger] front[i]) by {
            assert(front[i] == steps[i]);
        }
        lemma_plain_walk(front);
        lemma_steps_taken(front, steps.last());
        assert(is_plain_step(steps[steps.len() - 1]));
        assert(front.push(steps.last()) =~= steps);
    } else {
        assert(steps =~= Seq::<Seq<char>>::empty());
    }
}

/// The source of an object stands beside it: in the directory of the Makefile, under the name of the
/// object.
pub proof fn lemma_source_beside_object(steps: Seq<Seq<char>>, name: Seq<char>)
    requires
        are_plain(steps),
        is_plain_step(name),
    ensures
        source_path(joined(steps) + "/"@, name) == Some(joined(steps) + "/"@ + name + ".c"@),
        source_path(seq![], name) == Some(name + ".c"@),
{
    reveal_strlit("/");
    reveal_strlit(".c");
    reveal_strlit(".");
    reveal_strlit("..");
    let file = name + ".c"@;
    let all = steps.push(file);
    assert(name[0] != '/');
    assert(is_plain_step(file)) by {
        assert forall|i: int| 0 <= i < file.len() implies #[trigger] file[i] != '/' by {
            if i < name.len() {
                assert(name[i] != '/');
            }
        }
        assert("."@.len() == 1 && ".."@.len() == 2);
        assert(file.len() >= 3);
    }
    assert forall|i: int| 0 <= i < all.len() implies is_plain_step(#[trigger] all[i]) by {
        if i < steps.len() {
            assert(is_plain_step(steps[i]));
        }
    }
    assert forall|i: int, j: int| 0 <= i < all.len() && 0 <= j < all[i].len() implies
        #[trigger] all[i][j] != '/' by {
        assert(is_plain_step(all[i]));
    }
    lemma_pieces_joined(all);
    lemma_plain_walk(all);
    assert(all.drop_last() =~= steps);
    assert(joined(all) =~= joined(steps) + "/"@ + name + ".c"@);
    let one = seq![file];
    assert forall|i: int| 0 <= i < one.len() implies is_plain_step(#[trigger] one[i]) by {
    }
    assert forall|i: int, j: int| 0 <= i < one.len() && 0 <= j < one[i].len() implies
        #[trigger] one[i][j] != '/' by {
    }
    lemma_pieces_joined(one);
    lemma_plain_walk(one);
    assert(joined(one) == file);
    assert(Seq::<char>::empty() + name + ".c"@ =~= file);
    assert(joined(steps) + "/"@ + name + ".c"@ =~= (joined(steps) + "/"@) + name + ".c"@);
}

} // verus!
