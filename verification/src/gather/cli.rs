//! The command line of the gathering programs.
use crate::number::{decimal, lemma_decimal_reads_back, parse_u64, unsigned};
use crate::text::{chars_of, same_text, string_of, texts, trim, trimmed};
use vstd::prelude::*;

verus! {

/// The sampling interval where none is given, in seconds.
pub const DEFAULT_INTERVAL_SECS: u64 = 10;

/// What a gathering program is told to do.
#[derive(Debug)]
pub struct GatherArgs {
    /// Path to the file where snapshots are accumulated.
    pub output: String,
    /// Seconds between samples.
    pub interval_secs: u64,
    /// Seconds after which to stop; forever if there are none.
    pub duration_secs: Option<u64>,
}

/// The number that `s` denotes, if it is one that fits.
pub open spec fn number_of(s: Seq<char>) -> Option<u64> {
    match unsigned(s, 10) {
        Some(n) => if n <= u64::MAX {
            Some(n as u64)
        } else {
            None
        },
        None => None,
    }
}

fn read_number(s: &str) -> (n: Option<u64>)
    ensures
        n == number_of(s@),
{
    parse_u64(chars_of(s).as_slice())
}

/// The interval that the second argument gives; one that is no number, or that is a flag where
/// `flags` are taken, gives none.
pub open spec fn interval_of(args: Seq<Seq<char>>, flags: bool) -> u64 {
    if args.len() > 2 && !(flags && args[2].len() > 0 && args[2][0] == '-') && number_of(args[2])
        is Some {
        number_of(args[2])->0
    } else {
        DEFAULT_INTERVAL_SECS
    }
}

/// The duration that follows the first `--duration` which anything follows.
pub open spec fn duration_of(args: Seq<Seq<char>>) -> Option<u64>
    decreases args.len(),
{
    if args.len() < 2 {
        None
    } else if args[0] == "--duration"@ {
        number_of(args[1])
    } else {
        duration_of(args.drop_first())
    }
}

fn read_interval(args: &Vec<String>, flags: bool) -> (interval: u64)
    ensures
        interval == interval_of(texts(args@), flags),
{
    if args.len() > 2 {
        let chars = chars_of(args[2].as_str());
        assert(texts(args@)[2] == args@[2]@);
        if !(flags && chars.len() > 0 && chars[0] == '-') {
            if let Some(n) = parse_u64(chars.as_slice()) {
                return n;
            }
        }
    }
    DEFAULT_INTERVAL_SECS
}

fn read_duration(args: &Vec<String>) -> (duration: Option<u64>)
    ensures
        duration == duration_of(texts(args@)),
{
    let ghost all = texts(args@);
    let mut i: usize = 0;
    assert(all.skip(0) =~= all);
    while i < args.len() && args.len() - i >= 2
        invariant
            i <= args@.len(),
            all == texts(args@),
            duration_of(all.skip(i as int)) == duration_of(all),
        decreases args@.len() - i,
    {
        proof {
            assert(all.skip(i as int)[0] == args@[i as int]@);
            assert(all.skip(i as int)[1] == args@[i + 1]@);
            assert(all.skip(i as int).drop_first() =~= all.skip(i + 1));
        }
        if same_text(args[i].as_str(), "--duration") {
            return read_number(args[i + 1].as_str());
        }
        i += 1;
    }
    None
}

/// Reads the command line `<prog> <output_file> [interval_secs] [--duration <secs>]`; nothing where
/// the output file is missing.
pub fn parse_kgather_args(args: &Vec<String>) -> (parsed: Option<GatherArgs>)
    ensures
        match parsed {
            Some(a) => {
                &&& args@.len() >= 2
                &&& a.output@ == args@[1]@
                &&& a.interval_secs == interval_of(texts(args@), true)
                &&& a.duration_secs == duration_of(texts(args@))
            },
            None => args@.len() < 2,
        },
{
    if args.len() < 2 {
        return None;
    }
    Some(
        GatherArgs {
            output: args[1].clone(),
            interval_secs: read_interval(args, true),
            duration_secs: read_duration(args),
        },
    )
}

/// Reads the command line `<prog> <output_file> [interval_secs]`; nothing where the output file is
/// missing.
pub fn parse_ktinify_args(args: &Vec<String>) -> (parsed: Option<GatherArgs>)
    ensures
        match parsed {
            Some(a) => {
                &&& args@.len() >= 2
                &&& a.output@ == args@[1]@
                &&& a.interval_secs == interval_of(texts(args@), false)
                &&& a.duration_secs is None
            },
            None => args@.len() < 2,
        },
{
    if args.len() < 2 {
        return None;
    }
    Some(
        GatherArgs {
            output: args[1].clone(),
            interval_secs: read_interval(args, false),
            duration_secs: None,
        },
    )
}

/// The path of the alias map of the kernel whose release string `version` holds.
pub fn modules_alias_path(version: &str) -> (path: String)
    ensures
        path@ == "/lib/modules/"@ + trimmed(version@) + "/modules.alias"@,
{
    let mut path = "/lib/modules/".to_owned();
    path.append(string_of(trim(chars_of(version).as_slice())).as_str());
    path.append("/modules.alias");
    path
}

// ── Laws ──────────────────────────────────────────────────────────────────────

/// A number on the command line reads as itself where it fits.
pub proof fn lemma_number_reads_back(n: nat)
    ensures
        n <= u64::MAX ==> number_of(decimal(n)) == Some(n as u64),
        n > u64::MAX ==> number_of(decimal(n)) is None,
{
    lemma_decimal_reads_back(n);
}

/// The interval is the second argument where that is a number; else it is the usual one.
pub proof fn lemma_interval_is_second(args: Seq<Seq<char>>, n: u64, flags: bool)
    requires
        args.len() > 2,
        args[2] == decimal(n as nat),
    ensures
        interval_of(args, flags) == n,
        interval_of(args.take(2), flags) == 10,
{
    lemma_decimal_reads_back(n as nat);
    lemma_number_reads_back(n as nat);
    assert('0' <= args[2][0]);
}

/// The duration follows the first `--duration` that anything follows, wherever that stands; without
/// one there is none.
pub proof fn lemma_duration_follows_flag(args: Seq<Seq<char>>, i: int)
    requires
        0 <= i,
        forall|j: int| 0 <= j < i && j + 1 < args.len() ==> #[trigger] args[j] != "--duration"@,
    ensures
        i + 1 < args.len() && args[i] == "--duration"@ ==> duration_of(args) == number_of(
            args[i + 1],
        ),
        i + 1 >= args.len() ==> duration_of(args) is None,
    decreases args.len(),
{
    if args.len() >= 2 && i > 0 {
        let rest = args.drop_first();
        assert(args[0] != "--duration"@);
        assert forall|j: int| 0 <= j < i - 1 && j + 1 < rest.len() implies #[trigger] rest[j]
            != "--duration"@ by {
            assert(rest[j] == args[j + 1]);
        }
        lemma_duration_follows_flag(rest, i - 1);
    }
}

} // verus!
