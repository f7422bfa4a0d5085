//! Reading `/proc/modules`, and the errors that reading can end in.
use crate::gather::{ModuleEntry, ModuleList, ModuleSnapshot, ModuleState};
use crate::gather::clusters::name_lists;
use crate::number::{decimal, parse_u32, to_decimal, unsigned};
use crate::split::{
    contains_part, has_part, lines, pieces, pieces_at_most, slice_views, split, split_at_most,
    split_lines,
};
use crate::text::{chars_of, is_word, string_of, texts, trim, trimmed};
use vstd::prelude::*;

verus! {

/// What can go wrong while observations are read or stored.
#[derive(Debug)]
pub enum Error {
    /// A file could not be read or written; holds the operating system's words.
    Io(String),
    /// A line of `/proc/modules` is not in the expected form.
    ProcModules { line_no: usize, reason: String, line: String },
    /// A stored list could not be decoded or encoded; holds the decoder's words.
    Serde(String),
}

// ── Quoting ───────────────────────────────────────────────────────────────────

/// `s` in double quotes, as `Debug` of `str` writes it.
pub uninterp spec fn debug_text(s: Seq<char>) -> Seq<char>;

/// Formats `s` with `<str as Debug>::fmt`, through `format!` and `{:?}`. The claim is only that the
/// text depends on nothing but `s`; which characters are escaped, and how, is left unsaid.
#[verifier::external_body]
pub(crate) fn quoted(s: &str) -> (q: String)
    ensures
        q@ == debug_text(s@),
{
    format!("{:?}", s)
}

/// The reason given for a state column that holds no known state, from its quoted text.
pub fn unknown_state(quoted_state: &str) -> (reason: String)
    ensures
        reason@ == "unknown state "@ + quoted_state@,
{
    let mut reason = "unknown state ".to_owned();
    reason.append(quoted_state);
    reason
}

impl Error {
    /// The message for the error, where `quoted_line` is the quoted text of the line that could
    /// not be parsed.
    pub open spec fn message_spec(self, quoted_line: Seq<char>) -> Seq<char> {
        match self {
            Error::Io(e) => "I/O error: "@ + e@,
            Error::ProcModules { line_no, reason, line } =>
                "failed to parse /proc/modules line "@ + decimal(line_no as nat) + ": "@ + reason@
                + "\n  line: "@ + quoted_line,
            Error::Serde(e) => "serialization error: "@ + e@,
        }
    }

    /// Writes the message around the quoted text of the line that could not be parsed.
    pub fn message_with(&self, quoted_line: &str) -> (m: String)
        ensures
            m@ == self.message_spec(quoted_line@),
    {
        match self {
            Error::Io(e) => {
                let mut m = "I/O error: ".to_owned();
                m.append(e.as_str());
                m
            },
            Error::ProcModules { line_no, reason, line } => {
                let mut m = "failed to parse /proc/modules line ".to_owned();
                m.append(to_decimal(*line_no as u128).as_str());
                m.append(": ");
                m.append(reason.as_str());
                m.append("\n  line: ");
                m.append(quoted_line);
                m
            },
            Error::Serde(e) => {
                let mut m = "serialization error: ".to_owned();
                m.append(e.as_str());
                m
            },
        }
    }

    /// The message for the error.
    pub fn message(&self) -> (m: String)
        ensures
            m@ == self.message_spec(
                match *self {
                    Error::ProcModules { line_no, reason, line } => debug_text(line@),
                    _ => seq![],
                },
            ),
    {
        match self {
            Error::ProcModules { line_no, reason, line } => self.message_with(
                quoted(line.as_str()).as_str(),
            ),
            _ => {
                proof {
                    reveal_strlit("");
                    assert(""@ =~= seq![]);
                }
                self.message_with("")
            },
        }
    }
}

// ── What a line says ──────────────────────────────────────────────────────────

/// What an entry holds.
pub ghost struct EntryView {
    pub name: Seq<char>,
    pub use_count: nat,
    pub used_by: Seq<Seq<char>>,
    pub state: ModuleState,
    pub is_out_of_tree: bool,
}

impl View for ModuleEntry {
    type V = EntryView;

    open spec fn view(&self) -> EntryView {
        EntryView {
            name: self.name@,
            use_count: self.use_count as nat,
            used_by: texts(self.used_by@),
            state: self.state,
            is_out_of_tree: self.is_out_of_tree,
        }
    }
}

/// What several entries hold.
pub open spec fn entry_views(v: Seq<ModuleEntry>) -> Seq<EntryView> {
    Seq::new(v.len(), |i: int| v[i]@)
}

/// The parts that are more than white space, without white space at their ends.
pub open spec fn non_blank(parts: Seq<Seq<char>>) -> Seq<Seq<char>>
    decreases parts.len(),
{
    if parts.len() == 0 {
        seq![]
    } else {
        let front = non_blank(parts.drop_last());
        if trimmed(parts.last()).len() > 0 {
            front.push(trimmed(parts.last()))
        } else {
            front
        }
    }
}

/// The modules that a `used_by` column names: none for a dash, else what stands between the commas.
pub open spec fn users(column: Seq<char>) -> Seq<Seq<char>> {
    if column == "-"@ {
        seq![]
    } else {
        non_blank(pieces(column, ','))
    }
}

/// The state that a word stands for.
pub open spec fn state_of(word: Seq<char>) -> Option<ModuleState> {
    if word == "Live"@ {
        Some(ModuleState::Live)
    } else if word == "Loading"@ {
        Some(ModuleState::Loading)
    } else if word == "Unloading"@ {
        Some(ModuleState::Unloading)
    } else {
        None
    }
}

/// What a line says, or the reason why it says nothing. The line has six columns, each but the
/// last one up to a space; the last, which may be missing, is the rest of the line.
pub open spec fn line_entry(line: Seq<char>) -> Result<EntryView, Seq<char>> {
    let cols = pieces_at_most(line, ' ', 6);
    if cols.len() < 2 {
        Err("missing size"@)
    } else if cols.len() < 3 {
        Err("missing use_count"@)
    } else if unsigned(cols[2], 10) is None || unsigned(cols[2], 10)->0 > u32::MAX {
        Err("use_count is not a u32"@)
    } else if cols.len() < 4 {
        Err("missing used_by column"@)
    } else if cols.len() < 5 {
        Err("missing state"@)
    } else {
        match state_of(trimmed(cols[4])) {
            Some(state) => Ok(
                EntryView {
                    name: cols[0],
                    use_count: unsigned(cols[2], 10)->0,
                    used_by: users(cols[3]),
                    state,
                    is_out_of_tree: cols.len() > 5 && has_part(cols[5], "(OE)"@),
                },
            ),
            None => Err("unknown state "@ + debug_text(trimmed(cols[4]))),
        }
    }
}

/// Why a text is no list of modules: the number of the line, what is wrong with it, and its text.
pub ghost struct LineFault {
    pub line_no: nat,
    pub reason: Seq<char>,
    pub line: Seq<char>,
}

/// What the lines say, in their order; blank ones say nothing. The first line that is not in the
/// expected form decides the fault.
pub open spec fn lines_entries(lines: Seq<Seq<char>>) -> Result<Seq<EntryView>, LineFault>
    decreases lines.len(),
{
    if lines.len() == 0 {
        Ok(seq![])
    } else {
        let line = trimmed(lines.last());
        match lines_entries(lines.drop_last()) {
            Err(fault) => Err(fault),
            Ok(front) => if line.len() == 0 {
                Ok(front)
            } else {
                match line_entry(line) {
                    Ok(entry) => Ok(front.push(entry)),
                    Err(reason) => Err(LineFault { line_no: lines.len(), reason, line }),
                }
            },
        }
    }
}

// ── Parsing ───────────────────────────────────────────────────────────────────

/// The trimmed parts that are not blank.
fn keep_non_blank(parts: &Vec<&[char]>) -> (kept: Vec<String>)
    ensures
        texts(kept@) == non_blank(slice_views(parts@)),
{
    let mut kept: Vec<String> = Vec::new();
    let mut i: usize = 0;
    assert(slice_views(parts@).take(0) == Seq::<Seq<char>>::empty());
    assert(texts(kept@) =~= seq![]);
    while i < parts.len()
        invariant
            i <= parts@.len(),
            texts(kept@) == non_blank(slice_views(parts@).take(i as int)),
        decreases parts@.len() - i,
    {
        proof {
            let t = slice_views(parts@).take(i + 1);
            assert(t.drop_last() == slice_views(parts@).take(i as int));
            assert(t.last() == parts@[i as int]@);
        }
        let ghost before = texts(kept@);
        let part = trim(parts[i]);
        if part.len() > 0 {
            kept.push(string_of(part));
            assert(texts(kept@) =~= before.push(part@));
        }
        i += 1;
    }
    assert(slice_views(parts@).take(i as int) == slice_views(parts@));
    kept
}

/// Reads a `used_by` column.
fn parse_users(column: &[char]) -> (names: Vec<String>)
    ensures
        texts(names@) == users(column@),
{
    if is_word(column, "-") {
        let names: Vec<String> = Vec::new();
        assert(texts(names@) =~= seq![]);
        names
    } else {
        keep_non_blank(&split(column, ','))
    }
}

/// Reads the word for a state.
fn parse_state(word: &[char]) -> (state: Option<ModuleState>)
    ensures
        state == state_of(word@),
{
    if is_word(word, "Live") {
        Some(ModuleState::Live)
    } else if is_word(word, "Loading") {
        Some(ModuleState::Loading)
    } else if is_word(word, "Unloading") {
        Some(ModuleState::Unloading)
    } else {
        None
    }
}

/// Reads one line; gives the reason where that fails.
fn parse_line(line: &[char]) -> (entry: Result<ModuleEntry, String>)
    ensures
        match entry {
            Ok(e) => line_entry(line@) == Ok::<EntryView, Seq<char>>(e@),
            Err(r) => line_entry(line@) == Err::<EntryView, Seq<char>>(r@),
        },
{
    let cols = split_at_most(line, ' ', 6);
    let ghost views = slice_views(cols@);
    assert(forall|k: int| 0 <= k < cols@.len() ==> #[trigger] views[k] == cols@[k]@);
    if cols.len() < 2 {
        return Err("missing size".to_owned());
    }
    if cols.len() < 3 {
        return Err("missing use_count".to_owned());
    }
    let use_count = match parse_u32(cols[2]) {
        Some(n) => n,
        None => {
            return Err("use_count is not a u32".to_owned());
        },
    };
    if cols.len() < 4 {
        return Err("missing used_by column".to_owned());
    }
    let used_by = parse_users(cols[3]);
    if cols.len() < 5 {
        return Err("missing state".to_owned());
    }
    let word = trim(cols[4]);
    let state = match parse_state(word) {
        Some(s) => s,
        None => {
            return Err(unknown_state(quoted(string_of(word).as_str()).as_str()));
        },
    };
    let flag = chars_of("(OE)");
    proof {
        reveal_strlit("(OE)");
    }
    let is_out_of_tree = cols.len() > 5 && contains_part(cols[5], flag.as_slice());
    Ok(ModuleEntry { name: string_of(cols[0]), use_count, used_by, state, is_out_of_tree })
}

/// Parses the content of `/proc/modules` (as a string) into a `Vec<ModuleEntry>`.
///
/// Exposed publicly so it can be unit-tested with synthetic input without touching the filesystem.
pub fn parse_proc_modules(content: &str) -> (parsed: Result<Vec<ModuleEntry>, Error>)
    ensures
        match parsed {
            Ok(v) => lines_entries(lines(content@)) == Ok::<Seq<EntryView>, LineFault>(
                entry_views(v@),
            ),
            Err(Error::ProcModules { line_no, reason, line }) => lines_entries(lines(content@))
                == Err::<Seq<EntryView>, LineFault>(
                (LineFault { line_no: line_no as nat, reason: reason@, line: line@ }),
            ),
            Err(_) => false,
        },
{
    let chars = chars_of(content);
    let parts = split_lines(chars.as_slice());
    let ghost all = lines(content@);
    let mut entries: Vec<ModuleEntry> = Vec::new();
    let mut i: usize = 0;
    assert(all.take(0) == Seq::<Seq<char>>::empty());
    assert(entry_views(entries@) =~= seq![]);
    while i < parts.len()
        invariant
            i <= parts@.len(),
            all == lines(content@),
            slice_views(parts@) == all,
            lines_entries(all.take(i as int)) == Ok::<Seq<EntryView>, LineFault>(
                entry_views(entries@),
            ),
        decreases parts@.len() - i,
    {
        let line = trim(parts[i]);
        let ghost before = entry_views(entries@);
        proof {
            assert(slice_views(parts@)[i as int] == parts@[i as int]@);
            assert(all.take(i + 1).drop_last() == all.take(i as int));
        }
        if line.len() > 0 {
            match parse_line(line) {
                Ok(e) => {
                    entries.push(e);
                    assert(entry_views(entries@) =~= before.push(e@));
                },
                Err(reason) => {
                    proof {
                        lemma_first_fault(all, i + 1);
                    }
                    return Err(
                        Error::ProcModules { line_no: i + 1, reason, line: string_of(line) },
                    );
                },
            }
        }
        i += 1;
    }
    assert(all.take(i as int) == all);
    Ok(entries)
}

/// A fault in the first lines is the fault of all of them.
proof fn lemma_first_fault(lines: Seq<Seq<char>>, k: int)
    requires
        0 <= k <= lines.len(),
        lines_entries(lines.take(k)) is Err,
    ensures
        lines_entries(lines) == lines_entries(lines.take(k)),
    decreases lines.len(),
{
    if k == lines.len() {
        assert(lines.take(k) == lines);
    } else {
        assert(lines.drop_last().take(k) == lines.take(k));
        lemma_first_fault(lines.drop_last(), k);
    }
}

// ── Snapshots ─────────────────────────────────────────────────────────────────

/// What a text of `/proc/modules` gives, taken at `timestamp_secs`.
pub open spec fn is_snapshot_of(
    content: Seq<char>,
    timestamp_secs: u64,
    snapshot: Result<ModuleSnapshot, Error>,
) -> bool {
    match snapshot {
        Ok(s) => {
            &&& lines_entries(lines(content)) == Ok::<Seq<EntryView>, LineFault>(
                entry_views(s.modules@),
            )
            &&& s.timestamp_secs == timestamp_secs
        },
        Err(Error::ProcModules { line_no, reason, line }) => lines_entries(lines(content)) == Err::<
            Seq<EntryView>,
            LineFault,
        >((LineFault { line_no: line_no as nat, reason: reason@, line: line@ })),
        Err(_) => false,
    }
}

/// Parses `content` (the text of `/proc/modules`) into a snapshot that bears `timestamp_secs`.
pub fn snapshot_at(content: &str, timestamp_secs: u64) -> (snapshot: Result<
    ModuleSnapshot,
    Error,
>)
    ensures
        is_snapshot_of(content@, timestamp_secs, snapshot),
{
    match parse_proc_modules(content) {
        Ok(modules) => Ok(ModuleSnapshot { timestamp_secs, modules }),
        Err(e) => Err(e),
    }
}

/// `std::time::SystemTime`.
#[verifier::external_type_specification]
#[verifier::external_body]
pub struct ExSystemTime(std::time::SystemTime);

/// `std::time::SystemTimeError`.
#[verifier::external_type_specification]
#[verifier::external_body]
pub struct ExSystemTimeError(std::time::SystemTimeError);

/// `std::time::SystemTime::now`. What the clock shows is left unsaid.
#[verifier::external_body]
fn clock() -> (now: std::time::SystemTime) {
    std::time::SystemTime::now()
}

/// `std::time::SystemTime::duration_since`, from the Unix epoch. Nothing is claimed of the result,
/// which rests on what the clock showed.
#[verifier::external_body]
fn since_epoch(now: &std::time::SystemTime) -> (age: Result<
    std::time::Duration,
    std::time::SystemTimeError,
>) {
    now.duration_since(std::time::UNIX_EPOCH)
}

/// `std::time::Duration::as_secs`. Nothing is claimed of the number, which rests on what the clock
/// showed.
#[verifier::external_body]
fn whole_seconds(age: &std::time::Duration) -> (secs: u64) {
    age.as_secs()
}

/// Parses `content` (the text of `/proc/modules`) into a timestamped snapshot.
///
/// Use this when the content was obtained by some means other than a local filesystem read, for
/// example fetched over SSH.
pub fn snapshot_from_content(content: &str) -> (snapshot: Result<ModuleSnapshot, Error>)
    ensures
        exists|secs: u64| #[trigger] is_snapshot_of(content@, secs, snapshot),
{
    let secs: u64 = match since_epoch(&clock()) {
        Ok(age) => whole_seconds(&age),
        Err(_) => 0,
    };
    let snapshot = snapshot_at(content, secs);
    assert(is_snapshot_of(content@, secs, snapshot));
    snapshot
}

// ── Stored lists ──────────────────────────────────────────────────────────────

/// Returns the connected components of the safely-disableable module sub-graph of a loaded list,
/// or the error that loading it ended in. Each inner `Vec` is one cluster: a group of modules that
/// can be removed together and whose removal is safe (no directly-active module depends on any of
/// them, directly or transitively). Clusters are sorted by descending size, then alphabetically by
/// first name. Within each cluster names are sorted alphabetically.
pub fn disableable_clusters(loaded: Result<ModuleList, Error>) -> (clusters: Result<
    Vec<Vec<String>>,
    Error,
>)
    ensures
        match (loaded, clusters) {
            (Ok(list), Ok(c)) => list.is_clustering(name_lists(c@)),
            (Err(e), Err(f)) => e == f,
            _ => false,
        },
{
    match loaded {
        Ok(list) => Ok(list.safely_disableable_clusters()),
        Err(e) => Err(e),
    }
}

} // verus!
