//! Decisions of the end-to-end test: which tag to check out, which image was built, which patch to
//! try next, and whether the new kernel is there.
use crate::split::{
    before_part, lemma_before_part, lines, pieces, slice_views, split, split_lines, stands_at,
    text_before,
};
use crate::text::{
    chars_of, is_space, is_word, same_text, starts_with, string_of, strip_prefix, strip_suffixes,
    texts, trim, trimmed, without_prefix, without_suffixes,
};
use crate::text_laws::{
    is_free_of, is_solid, is_trim, lemma_affixes, lemma_pieces_at, lemma_trim_idle,
};
use vstd::prelude::*;

verus! {

// ── Tags ──────────────────────────────────────────────────────────────────────

/// The tag that a line of `git ls-remote` names. The line has a hash and a reference with a tab
/// between them; `^{}` at the end of the reference marks what the tag points to.
pub open spec fn tag_of(line: Seq<char>) -> Option<Seq<char>> {
    let columns = pieces(line, '\t');
    if columns.len() < 2 {
        None
    } else {
        match without_prefix(columns[1], "refs/tags/"@) {
            Some(name) => Some(without_suffixes(name, "^{}"@)),
            None => None,
        }
    }
}

/// Whether a line names just the tag `target`.
pub open spec fn names_tag(line: Seq<char>, target: Seq<char>) -> bool {
    tag_of(line) == Some(target)
}

/// The tag that the first line names which names one that begins with `target`.
pub open spec fn first_with_prefix(parts: Seq<Seq<char>>, target: Seq<char>) -> Option<Seq<char>>
    decreases parts.len(),
{
    if parts.len() == 0 {
        None
    } else {
        match first_with_prefix(parts.drop_last(), target) {
            Some(tag) => Some(tag),
            None => match tag_of(parts.last()) {
                Some(tag) => if target.is_prefix_of(tag) {
                    Some(tag)
                } else {
                    None
                },
                None => None,
            },
        }
    }
}

/// The tag for `target`: itself where a line names it, else the first that begins with it.
pub open spec fn chosen_tag(parts: Seq<Seq<char>>, target: Seq<char>) -> Option<Seq<char>> {
    if exists|i: int| 0 <= i < parts.len() && names_tag(#[trigger] parts[i], target) {
        Some(target)
    } else {
        first_with_prefix(parts, target)
    }
}

fn read_tag(line: &[char]) -> (tag: Option<Vec<char>>)
    ensures
        match tag {
            Some(t) => tag_of(line@) == Some(t@),
            None => tag_of(line@) is None,
        },
{
    let columns = split(line, '\t');
    if columns.len() < 2 {
        return None;
    }
    proof {
        reveal_strlit("^{}");
        assert(slice_views(columns@)[1] == columns@[1]@);
    }
    match strip_prefix(columns[1], "refs/tags/") {
        Some(name) => Some(chars_of(string_of(strip_suffixes(name, "^{}")).as_str())),
        None => None,
    }
}

/// Finds the tag for an upstream version in the output of `git ls-remote --tags`: the one that
/// matches `v{upstream_version}` exactly, or the first that starts with that prefix (covers
/// release-candidate suffixes).
pub fn select_git_tag(output: &str, upstream_version: &str) -> (tag: Option<String>)
    ensures
        match tag {
            Some(t) => chosen_tag(lines(output@), "v"@ + upstream_version@) == Some(t@),
            None => chosen_tag(lines(output@), "v"@ + upstream_version@) is None,
        },
{
    let mut target = "v".to_owned();
    target.append(upstream_version);
    let chars = chars_of(output);
    let parts = split_lines(chars.as_slice());
    let ghost all = lines(output@);
    let mut prefixed: Option<String> = None;
    let mut i: usize = 0;
    assert(all.take(0) =~= Seq::<Seq<char>>::empty());
    while i < parts.len()
        invariant
            i <= parts@.len(),
            all == lines(output@),
            slice_views(parts@) == all,
            target@ == "v"@ + upstream_version@,
            forall|k: int| 0 <= k < i ==> !names_tag(#[trigger] all[k], target@),
            match prefixed {
                Some(t) => first_with_prefix(all.take(i as int), target@) == Some(t@),
                None => first_with_prefix(all.take(i as int), target@) is None,
            },
        decreases parts@.len() - i,
    {
        proof {
            assert(slice_views(parts@)[i as int] == parts@[i as int]@);
            assert(all.take(i + 1).drop_last() =~= all.take(i as int));
        }
        if let Some(tag) = read_tag(parts[i]) {
            if is_word(tag.as_slice(), target.as_str()) {
                assert(names_tag(all[i as int], target@));
                return Some(target);
            }
            if prefixed.is_none() && starts_with(tag.as_slice(), target.as_str()) {
                prefixed = Some(string_of(tag.as_slice()));
            }
        }
        i += 1;
    }
    assert(all.take(i as int) =~= all);
    prefixed
}

// ── The image ─────────────────────────────────────────────────────────────────

/// The path that a line of make's output names as that of the kernel image.
pub open spec fn image_of(line: Seq<char>) -> Option<Seq<char>> {
    match without_prefix(trimmed(line), "Kernel: "@) {
        Some(rest) => Some(trimmed(before_part(rest, " is ready"@))),
        None => None,
    }
}

/// Reads the path of the kernel image from a line of make's output (`Kernel: ... is ready`).
pub fn kernel_image(line: &str) -> (path: Option<String>)
    ensures
        match path {
            Some(p) => image_of(line@) == Some(p@),
            None => image_of(line@) is None,
        },
{
    let chars = chars_of(line);
    let mark = chars_of(" is ready");
    proof {
        reveal_strlit(" is ready");
    }
    match strip_prefix(trim(chars.as_slice()), "Kernel: ") {
        Some(rest) => Some(string_of(trim(text_before(rest, mark.as_slice())))),
        None => None,
    }
}

// ── Patches ───────────────────────────────────────────────────────────────────

/// What to do next about a change that has several candidate commits.
#[derive(Debug, Clone, Copy, PartialEq, Eq, Structural)]
pub enum PatchStep {
    /// Try the candidate with this number.
    Try(usize),
    /// The last candidate tried was applied; the others are not tried.
    Applied,
    /// No candidate could be applied.
    Exhausted,
}

/// Decides what to do next about a change with `candidates` candidate commits, where `outcomes` says
/// which of those tried so far were applied: the first one that can be applied is.
pub fn next_patch(outcomes: &Vec<bool>, candidates: usize) -> (step: PatchStep)
    ensures
        step == if outcomes@.len() > 0 && outcomes@.last() {
            PatchStep::Applied
        } else if outcomes@.len() < candidates {
            PatchStep::Try(outcomes@.len() as usize)
        } else {
            PatchStep::Exhausted
        },
{
    let tried: usize = outcomes.len();
    if tried > 0 && outcomes[tried - 1] {
        PatchStep::Applied
    } else if tried < candidates {
        PatchStep::Try(tried)
    } else {
        PatchStep::Exhausted
    }
}

// ── Kernels ───────────────────────────────────────────────────────────────────

/// What is wrong with the kernels that are installed.
#[derive(Debug, Clone, Copy, PartialEq, Eq, Structural)]
pub enum KernelFault {
    /// There is not just one more than before.
    NotOneMore,
    /// The one that was built is not among them.
    NotListed,
}

/// Checks that the build added one kernel, the one with the release string `release`.
pub fn check_new_kernel(before: &Vec<String>, after: &Vec<String>, release: &str) -> (verdict:
    Result<(), KernelFault>)
    ensures
        verdict == if after@.len() != before@.len() + 1 {
            Err::<(), KernelFault>(KernelFault::NotOneMore)
        } else if !texts(after@).contains(release@) {
            Err(KernelFault::NotListed)
        } else {
            Ok(())
        },
{
    if before.len() >= after.len() || after.len() - before.len() != 1 {
        return Err(KernelFault::NotOneMore);
    }
    for i in 0..after.len()
        invariant
            after@.len() == before@.len() + 1,
            forall|k: int| 0 <= k < i ==> (#[trigger] texts(after@)[k]) != release@,
    {
        assert(texts(after@)[i as int] == after@[i as int]@);
        if same_text(after[i].as_str(), release) {
            return Ok(());
        }
    }
    Err(KernelFault::NotListed)
}

/// The kernel to boot, where just one is installed.
pub fn only_kernel(kernels: &Vec<String>) -> (kernel: Option<&String>)
    ensures
        match kernel {
            Some(k) => kernels@.len() == 1 && *k == kernels@[0],
            None => kernels@.len() != 1,
        },
{
    if kernels.len() == 1 {
        Some(&kernels[0])
    } else {
        None
    }
}

// ── Laws ──────────────────────────────────────────────────────────────────────

/// A line with a hash and a reference names the tag of the reference, be it that of the tag or of
/// what it points to.
pub proof fn lemma_tag_reads_back(hash: Seq<char>, tag: Seq<char>)
    requires
        is_free_of(hash, '\t'),
        is_free_of(tag, '\t'),
        !"^{}"@.is_suffix_of(tag),
    ensures
        tag_of(hash + seq!['\t'] + "refs/tags/"@ + tag) == Some(tag),
        tag_of(hash + seq!['\t'] + "refs/tags/"@ + tag + "^{}"@) == Some(tag),
{
    reveal_strlit("refs/tags/");
    reveal_strlit("^{}");
    reveal_with_fuel(without_suffixes, 3);
    let name = "refs/tags/"@ + tag;
    let line = hash + seq!['\t'] + "refs/tags/"@ + tag;
    assert(line =~= hash + seq!['\t'] + name);
    assert(is_free_of(name, '\t')) by {
        assert forall|i: int| 0 <= i < name.len() implies #[trigger] name[i] != '\t' by {
            if i >= "refs/tags/"@.len() {
                assert(name[i] == tag[i - "refs/tags/"@.len()]);
            }
        }
    }
    lemma_pieces_at(hash, '\t', name, 2);
    lemma_pieces_at(name, '\t', seq![], 2);
    lemma_affixes("refs/tags/"@, tag, seq![]);
    assert(without_suffixes(tag, "^{}"@) == tag);
    let peeled = tag + "^{}"@;
    let second = "refs/tags/"@ + peeled;
    let other = hash + seq!['\t'] + "refs/tags/"@ + tag + "^{}"@;
    assert(other =~= hash + seq!['\t'] + second);
    assert(is_free_of(second, '\t')) by {
        assert forall|i: int| 0 <= i < second.len() implies #[trigger] second[i] != '\t' by {
            let n = "refs/tags/"@.len();
            if i >= n && i < n + tag.len() {
                assert(second[i] == tag[i - n]);
            }
        }
    }
    lemma_pieces_at(hash, '\t', second, 2);
    lemma_pieces_at(second, '\t', seq![], 2);
    lemma_affixes("refs/tags/"@, peeled, seq![]);
    lemma_affixes(seq![], tag, "^{}"@);
    assert("^{}"@.is_suffix_of(peeled)) by {
        assert(peeled.subrange(peeled.len() - 3, peeled.len() as int) =~= "^{}"@);
    }
    assert(peeled.take(peeled.len() - 3) =~= tag);
    assert(without_suffixes(peeled, "^{}"@) == tag);
}

/// The tag that is chosen is the wanted one if any line names it; else it begins as wanted, and no
/// line in front of the one that names it names a tag that does. Where none is chosen, no line names
/// a tag that begins as wanted.
pub proof fn lemma_tag_is_first_match(parts: Seq<Seq<char>>, target: Seq<char>, i: int)
    ensures
        0 <= i < parts.len() && tag_of(parts[i]) == Some(target) ==> chosen_tag(parts, target)
            == Some(target),
        chosen_tag(parts, target) is None && 0 <= i < parts.len() && tag_of(parts[i]) is Some
            ==> !target.is_prefix_of(tag_of(parts[i])->0),
        chosen_tag(parts, target) is Some ==> target.is_prefix_of(chosen_tag(parts, target)->0),
        chosen_tag(parts, target) is Some && chosen_tag(parts, target)->0 != target ==> exists|
            k: int,
        |
            0 <= k < parts.len() && tag_of(#[trigger] parts[k]) == chosen_tag(parts, target)
                && forall|j: int|
                0 <= j < k && tag_of(#[trigger] parts[j]) is Some ==> !target.is_prefix_of(
                    tag_of(parts[j])->0,
                ),
{
    if 0 <= i < parts.len() && tag_of(parts[i]) == Some(target) {
        assert(names_tag(parts[i], target));
    }
    assert(target.is_prefix_of(target)) by {
        assert(target.subrange(0, target.len() as int) =~= target);
    }
    lemma_first_with_prefix(parts, target);
}

proof fn lemma_first_with_prefix(parts: Seq<Seq<char>>, target: Seq<char>)
    ensures
        first_with_prefix(parts, target) is None ==> forall|j: int|
            0 <= j < parts.len() && tag_of(#[trigger] parts[j]) is Some ==> !target.is_prefix_of(
                tag_of(parts[j])->0,
            ),
        first_with_prefix(parts, target) is Some ==> target.is_prefix_of(
            first_with_prefix(parts, target)->0,
        ) && exists|k: int|
            0 <= k < parts.len() && tag_of(#[trigger] parts[k]) == first_with_prefix(parts, target)
                && forall|j: int|
                0 <= j < k && tag_of(#[trigger] parts[j]) is Some ==> !target.is_prefix_of(
                    tag_of(parts[j])->0,
                ),
    decreases parts.len(),
{
    if parts.len() > 0 {
        let front = parts.drop_last();
        let n = parts.len() - 1;
        lemma_first_with_prefix(front, target);
        if first_with_prefix(front, target) is Some {
            let k = choose|k: int|
                0 <= k < front.len() && tag_of(#[trigger] front[k]) == first_with_prefix(
                    front,
                    target,
                ) && forall|j: int|
                    0 <= j < k && tag_of(#[trigger] front[j]) is Some ==> !target.is_prefix_of(
                        tag_of(front[j])->0,
                    );
            assert(tag_of(parts[k]) == first_with_prefix(parts, target));
            assert forall|j: int| 0 <= j < k && tag_of(#[trigger] parts[j]) is Some implies !target.is_prefix_of(
            tag_of(parts[j])->0) by {
                assert(front[j] == parts[j]);
            }
        } else {
            assert forall|j: int|
                0 <= j < n && tag_of(#[trigger] parts[j]) is Some implies !target.is_prefix_of(
            tag_of(parts[j])->0) by {
                assert(front[j] == parts[j]);
            }
            assert(parts[n] == parts.last());
        }
    }
}

/// The image is the path between `Kernel: ` and ` is ready`.
pub proof fn lemma_image_reads_back(path: Seq<char>, rest: Seq<char>)
    requires
        is_solid(path),
        is_trim("Kernel: "@ + path + " is ready"@ + rest),
    ensures
        image_of("Kernel: "@ + path + " is ready"@ + rest) == Some(path),
{
    reveal_strlit(" is ready");
    let mark = " is ready"@;
    let line = "Kernel: "@ + path + mark + rest;
    let behind = path + mark + rest;
    let n = path.len() as int;
    lemma_trim_idle(line);
    assert(line =~= "Kernel: "@ + behind);
    lemma_affixes("Kernel: "@, behind, seq![]);
    assert(stands_at(behind, mark, n)) by {
        assert(behind.subrange(n, n + mark.len()) =~= mark);
    }
    assert forall|i: int| 0 <= i < n implies !stands_at(behind, mark, i) by {
        if stands_at(behind, mark, i) {
            assert(behind.subrange(i, i + mark.len())[0] == ' ');
            assert(behind[i] == path[i] && !is_space(path[i]));
        }
    }
    lemma_before_part(behind, mark, n);
    assert(behind.take(n) =~= path);
    assert(!is_space(path[0]) && !is_space(path[n - 1]));
    lemma_trim_idle(path);
}

} // verus!
