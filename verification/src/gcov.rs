//! Coverage data: which source files of a kernel ran.
use crate::names::NameSet;
use crate::paths::sets::each_once;
use crate::paths::steps::{
    lemma_plain_form, lemma_plain_name, lemma_same_form, lemma_slash_at_end, plain_form, same_path,
    to_plain,
};
use crate::text::{
    chars_of, string_of, strip_suffix, trim_leading, without_leading, without_suffix,
};
use vstd::prelude::*;

verus! {

// ── Coverage files ────────────────────────────────────────────────────────────
//
// A `.gcda` file is a sequence of 32-bit words in the byte order of the machine that wrote it: the
// magic number "gcda", the compiler's version, a stamp and, since version 12, a checksum; then
// records, each a tag, a length and as much data. A tag of zero, or the end of the file, ends the
// records. The length counts words, since version 12 bytes, and a negative one since then stands
// for counters that are all zero and are left out. Arc counters are 64 bits wide.

/// Why a file is no coverage file.
#[derive(Debug, Clone, Copy, PartialEq, Eq, Structural)]
pub enum FormatFault {
    /// It does not begin with the magic number.
    NoMagic,
    /// It ends in the middle of the header or of a record.
    Truncated,
}

impl FormatFault {
    /// The fault in words.
    pub open spec fn text(self) -> Seq<char> {
        match self {
            FormatFault::NoMagic => "bad magic number"@,
            FormatFault::Truncated => "unexpected end of file"@,
        }
    }

    /// Says what the fault is.
    pub fn reason(self) -> (s: &'static str)
        ensures
            s@ == self.text(),
    {
        match self {
            FormatFault::NoMagic => "bad magic number",
            FormatFault::Truncated => "unexpected end of file",
        }
    }
}

/// The magic number.
pub const MAGIC: u32 = 0x6763_6461;

/// The tag of arc counters.
pub const ARC_TAG: u32 = 0x01a1_0000;

/// The word that four bytes make, the least significant first if `little`.
pub open spec fn word(b: Seq<u8>, at: int, little: bool) -> int {
    if little {
        b[at] + b[at + 1] * 0x100 + b[at + 2] * 0x1_0000 + b[at + 3] * 0x100_0000
    } else {
        b[at + 3] + b[at + 2] * 0x100 + b[at + 1] * 0x1_0000 + b[at] * 0x100_0000
    }
}

/// The byte order of a file, by its magic number.
pub open spec fn byte_order_of(b: Seq<u8>) -> Option<bool> {
    if b.len() < 4 {
        None
    } else if word(b, 0, true) == MAGIC {
        Some(true)
    } else if word(b, 0, false) == MAGIC {
        Some(false)
    } else {
        None
    }
}

/// Whether a version word is that of version 12 or a later one. Its leading characters give the
/// tens, counted from `A`, and the ones.
pub open spec fn is_since_12(version: int) -> bool {
    let tens = version / 0x100_0000;
    let ones = (version / 0x1_0000) % 0x100;
    tens > 0x42 || (tens == 0x42 && ones >= 0x32)
}

/// How many bytes of data a record with the length word `length` has.
pub open spec fn data_len(length: int, since_12: bool) -> int {
    if since_12 {
        if length >= 0x8000_0000 {
            0
        } else {
            length
        }
    } else {
        length * 4
    }
}

/// Whether one of the bytes in a range is not zero.
pub open spec fn any_nonzero(b: Seq<u8>, from: int, to: int) -> bool {
    exists|i: int| from <= i < to && #[trigger] b[i] != 0
}

/// Whether an arc counter is not zero in the records from `at` on.
pub open spec fn records_fired(b: Seq<u8>, at: int, little: bool, since_12: bool) -> Result<
    bool,
    FormatFault,
>
    decreases b.len() - at,
{
    if at < 0 || at >= b.len() {
        Ok(false)
    } else if at + 4 > b.len() {
        Err(FormatFault::Truncated)
    } else if word(b, at, little) == 0 {
        Ok(false)
    } else if at + 8 > b.len() {
        Err(FormatFault::Truncated)
    } else {
        let n = data_len(word(b, at + 4, little), since_12);
        if n < 0 || at + 8 + n > b.len() {
            Err(FormatFault::Truncated)
        } else if word(b, at, little) == ARC_TAG && any_nonzero(b, at + 8, at + 8 + n) {
            Ok(true)
        } else {
            records_fired(b, at + 8 + n, little, since_12)
        }
    }
}

/// Whether an arc counter of a coverage file is not zero.
pub open spec fn fired(b: Seq<u8>) -> Result<bool, FormatFault> {
    match byte_order_of(b) {
        None => Err(FormatFault::NoMagic),
        Some(little) => if b.len() < 12 {
            Err(FormatFault::Truncated)
        } else {
            let since_12 = is_since_12(word(b, 4, little));
            if since_12 && b.len() < 16 {
                Err(FormatFault::Truncated)
            } else {
                records_fired(
                    b,
                    if since_12 {
                        16
                    } else {
                        12
                    },
                    little,
                    since_12,
                )
            }
        },
    }
}

fn read_word(b: &[u8], at: usize, little: bool) -> (w: u32)
    requires
        at + 4 <= b@.len(),
    ensures
        w == word(b@, at as int, little),
{
    let x0: u32 = b[at] as u32;
    let x1: u32 = b[at + 1] as u32;
    let x2: u32 = b[at + 2] as u32;
    let x3: u32 = b[at + 3] as u32;
    if little {
        x0 + x1 * 0x100 + x2 * 0x1_0000 + x3 * 0x100_0000
    } else {
        x3 + x2 * 0x100 + x1 * 0x1_0000 + x0 * 0x100_0000
    }
}

fn has_nonzero(b: &[u8], from: usize, to: usize) -> (yes: bool)
    requires
        from <= to <= b@.len(),
    ensures
        yes == any_nonzero(b@, from as int, to as int),
{
    let mut i: usize = from;
    while i < to
        invariant
            from <= i <= to <= b@.len(),
            forall|k: int| from <= k < i ==> #[trigger] b@[k] == 0,
        decreases to - i,
    {
        if b[i] != 0 {
            return true;
        }
        i += 1;
    }
    false
}

/// Returns `true` if any arc counter in the given `.gcda` file, of which `b` is the content, is
/// non-zero.
///
/// This does not require the paired `.gcno` file: it only checks whether any counter fired, not
/// which lines they correspond to.
pub fn has_coverage(b: &[u8]) -> (covered: Result<bool, FormatFault>)
    ensures
        covered == fired(b@),
{
    if b.len() < 4 {
        return Err(FormatFault::NoMagic);
    }
    let little = if read_word(b, 0, true) == MAGIC {
        true
    } else if read_word(b, 0, false) == MAGIC {
        false
    } else {
        return Err(FormatFault::NoMagic);
    };
    if b.len() < 12 {
        return Err(FormatFault::Truncated);
    }
    let version = read_word(b, 4, little);
    let tens: u32 = version / 0x100_0000;
    let ones: u32 = (version / 0x1_0000) % 0x100;
    let since_12 = tens > 0x42 || (tens == 0x42 && ones >= 0x32);
    if since_12 && b.len() < 16 {
        return Err(FormatFault::Truncated);
    }
    let mut at: usize = if since_12 {
        16
    } else {
        12
    };
    while at < b.len()
        invariant
            fired(b@) == records_fired(b@, at as int, little, since_12),
            at <= b@.len(),
        decreases b@.len() - at,
    {
        let left: usize = b.len() - at;
        if left < 4 {
            return Err(FormatFault::Truncated);
        }
        let tag = read_word(b, at, little);
        if tag == 0 {
            return Ok(false);
        }
        if left < 8 {
            return Err(FormatFault::Truncated);
        }
        let length = read_word(b, at + 4, little);
        let n: u64 = if since_12 {
            if length >= 0x8000_0000 {
                0
            } else {
                length as u64
            }
        } else {
            length as u64 * 4
        };
        if n > (left - 8) as u64 {
            return Err(FormatFault::Truncated);
        }
        let end: usize = at + 8 + n as usize;
        if tag == ARC_TAG && has_nonzero(b, at + 8, end) {
            return Ok(true);
        }
        at = end;
    }
    Ok(false)
}

// ── The kernel's root ─────────────────────────────────────────────────────────

/// What a directory holds.
pub struct Listing {
    /// The path of the directory.
    pub path: String,
    /// The names of the files in it.
    pub files: NameSet,
    /// The names of the directories in it.
    pub dirs: NameSet,
}

/// Whether the children of a directory look like those of a kernel source root.
pub open spec fn looks_like_root(l: Listing) -> bool {
    &&& l.files@.contains("Makefile"@)
    &&& l.dirs@.contains("drivers"@)
    &&& l.dirs@.contains("include"@)
    &&& l.dirs@.contains("arch"@)
}

/// Tests whether the children of a directory look like those of a kernel source root.
pub fn is_kernel_root(l: &Listing) -> (yes: bool)
    ensures
        yes == looks_like_root(*l),
{
    l.files.contains("Makefile") && l.dirs.contains("drivers") && l.dirs.contains("include")
        && l.dirs.contains("arch")
}

/// Detects the kernel build root directory embedded inside the gcov tree.
///
/// Takes the directories of the tree in the order in which they are walked, and gives the first
/// whose immediate children look like a kernel source root (`Makefile`, `drivers/`, `include/`,
/// `arch/`), or nothing where none does. Its path can be stripped from gcov paths to recover
/// kernel-relative source paths.
pub fn detect_kernel_root_in_gcov(walk: &Vec<Listing>) -> (root: Option<usize>)
    ensures
        match root {
            Some(r) => {
                &&& r < walk@.len()
                &&& looks_like_root(walk@[r as int])
                &&& forall|i: int| 0 <= i < r ==> !looks_like_root(#[trigger] walk@[i])
            },
            None => forall|i: int| 0 <= i < walk@.len() ==> !looks_like_root(#[trigger] walk@[i]),
        },
{
    for i in 0..walk.len()
        invariant
            forall|k: int| 0 <= k < i ==> !looks_like_root(#[trigger] walk@[k]),
    {
        if is_kernel_root(&walk[i]) {
            return Some(i);
        }
    }
    None
}

// ── Covered files ─────────────────────────────────────────────────────────────

/// A coverage file of the gcov tree.
pub struct CoverageFile {
    /// The path of the file.
    pub path: String,
    /// Whether any of its counters fired.
    pub fired: bool,
}

/// What the paths below `root` begin with.
pub open spec fn below_root(root: Seq<char>) -> Seq<char> {
    if root.len() > 0 && root.last() == '/' {
        root
    } else {
        root + "/"@
    }
}

/// The source file, relative to `root` and plainly spelled, that the coverage file at `path` belongs
/// to; nothing where `path` is not that of a coverage file below `root`.
pub open spec fn source_of(root: Seq<char>, path: Seq<char>) -> Option<Seq<char>> {
    let prefix = below_root(plain_form(root));
    let whole = plain_form(path);
    if prefix.is_prefix_of(whole) {
        match without_suffix(without_leading(whole.skip(prefix.len() as int), '/'), ".gcda"@) {
            Some(stem) => Some(plain_form(stem + ".c"@)),
            None => None,
        }
    } else {
        None
    }
}

/// Whether a coverage file with a counter that fired belongs to the source file `source`.
pub open spec fn is_covered(
    root: Seq<char>,
    files: Seq<CoverageFile>,
    source: Seq<char>,
) -> bool {
    exists|i: int|
        0 <= i < files.len() && (#[trigger] files[i]).fired && source_of(root, files[i].path@)
            == Some(source)
}

/// Gives the source file that the coverage file at `path` belongs to.
pub fn source_file(root: &str, path: &str) -> (source: Option<String>)
    ensures
        match source {
            Some(s) => source_of(root@, path@) == Some(s@),
            None => source_of(root@, path@) is None,
        },
{
    let mut prefix = to_plain(root);
    let own = chars_of(prefix.as_str());
    if own.len() == 0 || own[own.len() - 1] != '/' {
        prefix.append("/");
    }
    let chars = chars_of(to_plain(path).as_str());
    match crate::text::strip_prefix(chars.as_slice(), prefix.as_str()) {
        Some(rest) => match strip_suffix(trim_leading(rest, '/'), ".gcda") {
            Some(stem) => {
                let mut source = string_of(stem);
                source.append(".c");
                Some(to_plain(source.as_str()))
            },
            None => None,
        },
        None => None,
    }
}

/// Returns paths relative to the kernel source root for all source files that have at least one
/// coverage counter > 0.
///
/// `root` is the kernel build root inside the gcov tree, `files` are the coverage files of the tree.
/// The tree embeds the build machine's absolute path, e.g.
///   `<gcov_dir>/home/builduser/linux-6.12/drivers/usb/core/usb.gcda`;
/// the root is stripped to recover relative paths that match the kernel source tree layout.
pub fn covered_files(root: &str, files: &Vec<CoverageFile>) -> (covered: NameSet)
    ensures
        forall|s: Seq<char>| #[trigger]
            covered@.contains(s) <==> is_covered(root@, files@, s),
{
    let mut covered = NameSet::new();
    let mut i: usize = 0;
    while i < files.len()
        invariant
            i <= files@.len(),
            forall|s: Seq<char>| #[trigger]
                covered@.contains(s) ==> is_covered(root@, files@, s),
            forall|k: int|
                0 <= k < i && (#[trigger] files@[k]).fired && source_of(root@, files@[k].path@)
                    is Some ==> covered@.contains(source_of(root@, files@[k].path@)->0),
        decreases files@.len() - i,
    {
        if files[i].fired {
            if let Some(source) = source_file(root, files[i].path.as_str()) {
                assert(is_covered(root@, files@, source@));
                covered.insert(source);
            }
        }
        i += 1;
    }
    covered
}

// ── Laws ──────────────────────────────────────────────────────────────────────

proof fn lemma_leading_gone(s: Seq<char>, c: char)
    ensures
        without_leading(s, c).len() > 0 ==> without_leading(s, c)[0] != c,
    decreases s.len(),
{
    if s.len() > 0 && s[0] == c {
        lemma_leading_gone(s.drop_first(), c);
    }
}

/// A covered source file is named relative to the root: its path does not begin with a slash.
pub proof fn lemma_covered_is_relative(
    root: Seq<char>,
    files: Seq<CoverageFile>,
    source: Seq<char>,
)
    requires
        is_covered(root, files, source),
    ensures
        source.len() > 0,
        source[0] != '/',
{
    reveal_strlit(".c");
    let i = choose|i: int|
        0 <= i < files.len() && (#[trigger] files[i]).fired && source_of(root, files[i].path@)
            == Some(source);
    let rest = plain_form(files[i].path@).skip(below_root(plain_form(root)).len() as int);
    lemma_leading_gone(rest, '/');
    let stem = without_suffix(without_leading(rest, '/'), ".gcda"@)->0;
    assert((stem + ".c"@).last() == 'c');
    assert((stem + ".c"@)[0] != '/');
    lemma_plain_name(stem + ".c"@);
}

/// How the root and the path are spelled makes no difference.
pub proof fn lemma_spelling_of_source(
    root: Seq<char>,
    other_root: Seq<char>,
    path: Seq<char>,
    other_path: Seq<char>,
)
    requires
        same_path(root, other_root),
        same_path(path, other_path),
    ensures
        source_of(root, path) == source_of(other_root, other_path),
{
    lemma_same_form(root, other_root);
    lemma_same_form(path, other_path);
}

/// A slash at the end of the root makes no difference.
pub proof fn lemma_root_with_slash(root: Seq<char>, path: Seq<char>)
    requires
        root.len() > 0,
    ensures
        source_of(root + "/"@, path) == source_of(root, path),
{
    lemma_slash_at_end(root);
    lemma_spelling_of_source(root + "/"@, root, path, path);
}

/// No source file is covered under two spellings of its path.
pub proof fn lemma_covered_once(root: Seq<char>, files: Seq<CoverageFile>, covered: Set<Seq<char>>)
    requires
        forall|s: Seq<char>| #[trigger] covered.contains(s) ==> is_covered(root, files, s),
    ensures
        each_once(covered),
{
    assert forall|a: Seq<char>| #[trigger] covered.contains(a) implies plain_form(a) == a by {
        let i = choose|i: int|
            0 <= i < files.len() && (#[trigger] files[i]).fired && source_of(root, files[i].path@)
                == Some(a);
        let rest = plain_form(files[i].path@).skip(below_root(plain_form(root)).len() as int);
        let named = without_suffix(without_leading(rest, '/'), ".gcda"@)->0 + ".c"@;
        lemma_plain_form(named);
        lemma_same_form(a, named);
    }
    assert forall|a: Seq<char>, b: Seq<char>| #[trigger]
        covered.contains(a) && #[trigger] covered.contains(b) && same_path(a, b) implies a == b by {
        lemma_same_form(a, b);
    }
}

/// Whether a record begins at `p` of the records from `from` on: each one in front of it is whole.
pub open spec fn begins_record(b: Seq<u8>, from: int, p: int, little: bool, since_12: bool) -> bool
    decreases b.len() - from,
{
    from == p || (0 <= from && from + 8 <= b.len() && word(b, from, little) != 0 && {
        let n = record_len(b, from, little, since_12);
        0 <= n && from + 8 + n <= b.len() && begins_record(b, from + 8 + n, p, little, since_12)
    })
}

/// How many bytes of data the record at `at` has: since version 12 its length counts bytes, and a
/// negative one stands for none; before that it counts words.
pub open spec fn record_len(b: Seq<u8>, at: int, little: bool, since_12: bool) -> int {
    let length = word(b, at + 4, little);
    if !since_12 {
        4 * length
    } else if length < 0x8000_0000 {
        length
    } else {
        0
    }
}

/// Whether a whole record of arc counters begins at `p`, and one of its bytes is not zero.
pub open spec fn is_fired_record(b: Seq<u8>, p: int, little: bool, since_12: bool) -> bool {
    &&& 0 <= p
    &&& p + 8 + record_len(b, p, little, since_12) <= b.len()
    &&& word(b, p, little) == 0x01a1_0000
    &&& exists|i: int|
        p + 8 <= i < p + 8 + record_len(b, p, little, since_12) && #[trigger] b[i] != 0
}

/// One record of arc counters with a counter that is not zero is enough, whichever it is.
pub proof fn lemma_any_record_fires(
    b: Seq<u8>,
    from: int,
    p: int,
    little: bool,
    since_12: bool,
)
    requires
        0 <= from,
        begins_record(b, from, p, little, since_12),
        is_fired_record(b, p, little, since_12),
    ensures
        records_fired(b, from, little, since_12) == Ok::<bool, FormatFault>(true),
    decreases b.len() - from,
{
    let n = record_len(b, from, little, since_12);
    assert(data_len(word(b, from + 4, little), since_12) == n);
    if from == p {
        let i = choose|i: int| p + 8 <= i < p + 8 + n && #[trigger] b[i] != 0;
        assert(any_nonzero(b, p + 8, p + 8 + n));
    } else {
        if !(word(b, from, little) == ARC_TAG && any_nonzero(b, from + 8, from + 8 + n)) {
            lemma_any_record_fires(b, from + 8 + n, p, little, since_12);
        }
    }
}

/// Where counters are said to have fired, some record of arc counters has one that is not zero.
pub proof fn lemma_some_record_fired(b: Seq<u8>, from: int, little: bool, since_12: bool) -> (p: int)
    requires
        0 <= from,
        records_fired(b, from, little, since_12) == Ok::<bool, FormatFault>(true),
    ensures
        begins_record(b, from, p, little, since_12),
        is_fired_record(b, p, little, since_12),
    decreases b.len() - from,
{
    let n = record_len(b, from, little, since_12);
    assert(data_len(word(b, from + 4, little), since_12) == n);
    if word(b, from, little) == ARC_TAG && any_nonzero(b, from + 8, from + 8 + n) {
        let i = choose|i: int| from + 8 <= i < from + 8 + n && #[trigger] b[i] != 0;
        assert(b[i] != 0);
        from
    } else {
        lemma_some_record_fired(b, from + 8 + n, little, since_12)
    }
}

/// The records of a file begin behind its header, which is three words long, and four since version
/// 12. The magic number tells the byte order.
pub proof fn lemma_header_length(b: Seq<u8>, little: bool)
    requires
        b.len() >= 16,
        word(b, 0, little) == 0x6763_6461,
    ensures
        is_since_12(word(b, 4, little)) ==> fired(b) == records_fired(b, 16, little, true),
        !is_since_12(word(b, 4, little)) ==> fired(b) == records_fired(b, 12, little, false),
{
    if !little && word(b, 0, true) == MAGIC {
        assert(false) by {
            let (w, x, y, z) = (b[0] as int, b[1] as int, b[2] as int, b[3] as int);
            assert(w + x * 0x100 + y * 0x1_0000 + z * 0x100_0000 == 0x6763_6461);
            assert(z + y * 0x100 + x * 0x1_0000 + w * 0x100_0000 == 0x6763_6461);
        }
    }
}

/// A coverage file below the root belongs to the source file of the same name at the same place.
pub proof fn lemma_source_at_same_place(root: Seq<char>, stem: Seq<char>)
    requires
        root.len() > 0,
        root.last() != '/',
        stem.len() > 0,
        stem[0] != '/',
        plain_form(root) == root,
        plain_form(root + "/"@ + stem + ".gcda"@) == root + "/"@ + stem + ".gcda"@,
        plain_form(stem + ".c"@) == stem + ".c"@,
    ensures
        source_of(root, root + "/"@ + stem + ".gcda"@) == Some(stem + ".c"@),
{
    reveal_strlit("/");
    reveal_strlit(".gcda");
    let path = root + "/"@ + stem + ".gcda"@;
    let prefix = root + "/"@;
    assert(below_root(root) == prefix);
    assert(prefix.is_prefix_of(path)) by {
        assert(path.subrange(0, prefix.len() as int) =~= prefix);
    }
    let rest = path.skip(prefix.len() as int);
    assert(rest =~= stem + ".gcda"@);
    assert(rest[0] == stem[0]);
    assert(without_leading(rest, '/') == rest);
    assert(".gcda"@.is_suffix_of(rest)) by {
        assert(rest.subrange(rest.len() - ".gcda"@.len(), rest.len() as int) =~= ".gcda"@);
    }
    assert(without_suffix(rest, ".gcda"@)->0 =~= stem);
}

/// Every coverage file with a counter that fired counts: those of two lists, one behind the other,
/// cover just what each list covers, and one that did not fire covers nothing.
pub proof fn lemma_coverage_adds_up(
    root: Seq<char>,
    a: Seq<CoverageFile>,
    b: Seq<CoverageFile>,
    f: CoverageFile,
    source: Seq<char>,
)
    ensures
        is_covered(root, a + b, source) <==> is_covered(root, a, source) || is_covered(
            root,
            b,
            source,
        ),
        is_covered(root, seq![f], source) <==> f.fired && source_of(root, f.path@) == Some(source),
{
    let both = a + b;
    if is_covered(root, both, source) {
        let i = choose|i: int|
            0 <= i < both.len() && (#[trigger] both[i]).fired && source_of(root, both[i].path@)
                == Some(source);
        if i < a.len() {
            assert(a[i].fired);
        } else {
            assert(b[i - a.len()].fired);
        }
    }
    if is_covered(root, a, source) {
        let i = choose|i: int|
            0 <= i < a.len() && (#[trigger] a[i]).fired && source_of(root, a[i].path@) == Some(
                source,
            );
        assert(both[i].fired);
    }
    if is_covered(root, b, source) {
        let i = choose|i: int|
            0 <= i < b.len() && (#[trigger] b[i]).fired && source_of(root, b[i].path@) == Some(
                source,
            );
        assert(both[i + a.len()].fired);
    }
    assert(seq![f][0] == f);
}

/// A directory looks like a kernel source root just where it holds a `Makefile` and the directories
/// `drivers`, `include` and `arch`, whatever else it holds.
pub proof fn lemma_root_has_children(l: Listing)
    ensures
        looks_like_root(l) <==> l.files@.contains("Makefile"@) && l.dirs@.contains("drivers"@)
            && l.dirs@.contains("include"@) && l.dirs@.contains("arch"@),
{
}

/// Version numbers are read off the leading characters of the version word: the tens counted from
/// `A`, then the ones.
pub proof fn lemma_versions(tens: int, ones: int, rest: int)
    requires
        0 <= tens < 26,
        0 <= ones < 10,
        0 <= rest < 0x1_0000,
    ensures
        is_since_12((0x41 + tens) * 0x100_0000 + (0x30 + ones) * 0x1_0000 + rest) <==> 10 * tens
            + ones >= 12,
{
    let version = (0x41 + tens) * 0x100_0000 + (0x30 + ones) * 0x1_0000 + rest;
    assert(version / 0x100_0000 == 0x41 + tens);
    assert(version / 0x1_0000 == (0x41 + tens) * 0x100 + 0x30 + ones);
    assert((version / 0x1_0000) % 0x100 == 0x30 + ones);
}

} // verus!
