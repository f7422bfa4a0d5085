//! Numbers read from text and written as text.
use crate::text::{chars_of, string_of, strip_prefix, without_prefix};
use vstd::prelude::*;
use vstd::slice::slice_subrange;

verus! {

/// The value of `c` as a digit in base `radix`, which is 10 or 16.
pub open spec fn digit(c: char, radix: nat) -> Option<nat> {
    if '0' <= c && c <= '9' {
        Some((c as nat - '0' as nat) as nat)
    } else if radix == 16 && 'a' <= c && c <= 'f' {
        Some((c as nat - 'a' as nat + 10) as nat)
    } else if radix == 16 && 'A' <= c && c <= 'F' {
        Some((c as nat - 'A' as nat + 10) as nat)
    } else {
        None
    }
}

/// Whether every character of `s` is a digit, and there is at least one.
pub open spec fn is_digits(s: Seq<char>, radix: nat) -> bool {
    &&& s.len() > 0
    &&& forall|i: int| 0 <= i < s.len() ==> digit(#[trigger] s[i], radix) is Some
}

/// The number that the digits of `s` denote, the most significant first.
pub open spec fn magnitude(s: Seq<char>, radix: nat) -> nat
    decreases s.len(),
{
    if s.len() == 0 {
        0
    } else {
        magnitude(s.drop_last(), radix) * radix + digit(s.last(), radix)->0
    }
}

/// The unsigned number that `s` denotes: digits, which may follow one `+`.
pub open spec fn unsigned(s: Seq<char>, radix: nat) -> Option<nat> {
    let digits = if s.len() > 0 && s[0] == '+' {
        s.drop_first()
    } else {
        s
    };
    if is_digits(digits, radix) {
        Some(magnitude(digits, radix))
    } else {
        None
    }
}

/// The signed number that `s` denotes: digits, which may follow one `+` or `-`.
pub open spec fn signed(s: Seq<char>, radix: nat) -> Option<int> {
    if s.len() > 0 && s[0] == '-' {
        if is_digits(s.drop_first(), radix) {
            Some(-(magnitude(s.drop_first(), radix) as int))
        } else {
            None
        }
    } else {
        match unsigned(s, radix) {
            Some(n) => Some(n as int),
            None => None,
        }
    }
}

/// The value of one digit.
fn digit_of(c: char, radix: u128) -> (d: Option<u128>)
    requires
        radix == 10 || radix == 16,
    ensures
        match d {
            Some(v) => digit(c, radix as nat) == Some(v as nat) && v < 16,
            None => digit(c, radix as nat) is None,
        },
{
    if '0' <= c && c <= '9' {
        Some(c as u128 - '0' as u128)
    } else if radix == 16 && 'a' <= c && c <= 'f' {
        Some(c as u128 - 'a' as u128 + 10)
    } else if radix == 16 && 'A' <= c && c <= 'F' {
        Some(c as u128 - 'A' as u128 + 10)
    } else {
        None
    }
}

/// One past the largest `u64`; magnitudes are not told apart from here on.
const CEILING: u128 = 0x1_0000_0000_0000_0000;

/// The magnitude of a run of digits, cut off at `CEILING`.
fn magnitude_of(s: &[char], radix: u128) -> (m: Option<u128>)
    requires
        radix == 10 || radix == 16,
    ensures
        m is Some <==> is_digits(s@, radix as nat),
        m matches Some(v) ==> {
            &&& v <= CEILING
            &&& v < CEILING ==> v == magnitude(s@, radix as nat)
            &&& v == CEILING ==> magnitude(s@, radix as nat) >= CEILING
        },
{
    if s.len() == 0 {
        return None;
    }
    let mut v: u128 = 0;
    let mut i: usize = 0;
    while i < s.len()
        invariant
            i <= s@.len(),
            s@.len() > 0,
            radix == 10 || radix == 16,
            v <= CEILING,
            v < CEILING ==> v == magnitude(s@.take(i as int), radix as nat),
            v == CEILING ==> magnitude(s@.take(i as int), radix as nat) >= CEILING,
            forall|k: int| 0 <= k < i ==> digit(#[trigger] s@[k], radix as nat) is Some,
        decreases s@.len() - i,
    {
        match digit_of(s[i], radix) {
            None => {
                assert(digit(s@[i as int], radix as nat) is None);
                return None;
            },
            Some(d) => {
                let ghost m = magnitude(s@.take(i as int), radix as nat);
                assert(s@.take(i + 1).drop_last() == s@.take(i as int));
                assert(magnitude(s@.take(i + 1), radix as nat) == m * radix + d);
                assert(m * radix >= m) by (nonlinear_arith)
                    requires
                        radix == 10 || radix == 16,
                        m >= 0,
                ;
                let w: u128 = v * radix + d;
                v = if w < CEILING {
                    w
                } else {
                    CEILING
                };
            },
        }
        i += 1;
    }
    assert(s@.take(s@.len() as int) == s@);
    Some(v)
}

/// Reads an unsigned decimal number that fits in 64 bits.
pub fn parse_u64(s: &[char]) -> (n: Option<u64>)
    ensures
        match n {
            Some(v) => unsigned(s@, 10) == Some(v as nat),
            None => unsigned(s@, 10) matches Some(m) ==> m > u64::MAX,
        },
{
    let digits = if s.len() > 0 && s[0] == '+' {
        slice_subrange(s, 1, s.len())
    } else {
        s
    };
    match magnitude_of(digits, 10) {
        Some(v) => if v < CEILING {
            Some(v as u64)
        } else {
            None
        },
        None => None,
    }
}

/// Reads an unsigned decimal number that fits in 32 bits.
pub fn parse_u32(s: &[char]) -> (n: Option<u32>)
    ensures
        match n {
            Some(v) => unsigned(s@, 10) == Some(v as nat),
            None => unsigned(s@, 10) matches Some(m) ==> m > u32::MAX,
        },
{
    match parse_u64(s) {
        Some(v) => if v <= u32::MAX as u64 {
            Some(v as u32)
        } else {
            None
        },
        None => None,
    }
}

/// Reads a signed number in base `radix` that fits in 64 bits.
pub fn parse_i64(s: &[char], radix: u128) -> (n: Option<i64>)
    requires
        radix == 10 || radix == 16,
    ensures
        match n {
            Some(v) => signed(s@, radix as nat) == Some(v as int),
            None => signed(s@, radix as nat) matches Some(m) ==> m < i64::MIN || m > i64::MAX,
        },
{
    let negative = s.len() > 0 && s[0] == '-';
    let digits = if negative || (s.len() > 0 && s[0] == '+') {
        slice_subrange(s, 1, s.len())
    } else {
        s
    };
    match magnitude_of(digits, radix) {
        Some(v) => if negative {
            if v <= 0x8000_0000_0000_0000 {
                Some((-(v as i128)) as i64)
            } else {
                None
            }
        } else if v <= 0x7fff_ffff_ffff_ffff {
            Some(v as i64)
        } else {
            None
        },
        None => None,
    }
}

/// The integer that a configuration value denotes: `0x` or `0X` and hexadecimal digits, or
/// decimal digits, with an optional sign in front of the digits, within 64 bits.
pub open spec fn integer(s: Seq<char>) -> Option<int> {
    let value = match without_prefix(s, "0x"@) {
        Some(hex) => signed(hex, 16),
        None => match without_prefix(s, "0X"@) {
            Some(hex) => signed(hex, 16),
            None => signed(s, 10),
        },
    };
    match value {
        Some(n) => if i64::MIN <= n <= i64::MAX {
            Some(n)
        } else {
            None
        },
        None => None,
    }
}

/// Reads a configuration value as an integer.
pub fn parse_int(s: &str) -> (n: Option<i64>)
    ensures
        match n {
            Some(v) => integer(s@) == Some(v as int),
            None => integer(s@) is None,
        },
{
    let chars = chars_of(s);
    match strip_prefix(chars.as_slice(), "0x") {
        Some(hex) => parse_i64(hex, 16),
        None => match strip_prefix(chars.as_slice(), "0X") {
            Some(hex) => parse_i64(hex, 16),
            None => parse_i64(chars.as_slice(), 10),
        },
    }
}

/// The character of a decimal digit.
pub open spec fn digit_char(d: nat) -> char {
    (d + '0' as nat) as char
}

/// `n` in decimal digits, without leading zeros.
pub open spec fn decimal(n: nat) -> Seq<char>
    decreases n,
{
    if n < 10 {
        seq![digit_char(n)]
    } else {
        decimal(n / 10).push(digit_char(n % 10))
    }
}

/// The digits of `n`.
fn decimal_chars(n: u128) -> (chars: Vec<char>)
    ensures
        chars@ == decimal(n as nat),
    decreases n,
{
    let c: char = (48u8 + (n % 10) as u8) as char;
    if n < 10 {
        let mut chars: Vec<char> = Vec::new();
        chars.push(c);
        chars
    } else {
        let mut chars = decimal_chars(n / 10);
        chars.push(c);
        chars
    }
}

/// Writes `n` in decimal.
pub fn to_decimal(n: u128) -> (s: String)
    ensures
        s@ == decimal(n as nat),
{
    string_of(decimal_chars(n).as_slice())
}

// ── Laws ──────────────────────────────────────────────────────────────────────

/// A number that was written in decimal reads as itself; what is written are digits.
pub proof fn lemma_decimal_reads_back(n: nat)
    ensures
        unsigned(decimal(n), 10) == Some(n),
        decimal(n).len() > 0,
        forall|i: int|
            0 <= i < decimal(n).len() ==> '0' <= #[trigger] decimal(n)[i] && decimal(n)[i] <= '9',
        n <= i64::MAX ==> integer(decimal(n)) == Some(n as int),
{
    lemma_decimal_digits(n);
    let s = decimal(n);
    assert('0' <= s[0] && s[0] <= '9');
    reveal_strlit("0x");
    reveal_strlit("0X");
    if "0x"@.is_prefix_of(s) {
        assert(s[1] == s.subrange(0, 2)[1]);
        assert("0x"@[1] == 'x');
    }
    if "0X"@.is_prefix_of(s) {
        assert(s[1] == s.subrange(0, 2)[1]);
        assert("0X"@[1] == 'X');
    }
}

proof fn lemma_decimal_digits(n: nat)
    ensures
        is_digits(decimal(n), 10),
        magnitude(decimal(n), 10) == n,
        forall|i: int|
            0 <= i < decimal(n).len() ==> '0' <= #[trigger] decimal(n)[i] && decimal(n)[i] <= '9',
    decreases n,
{
    let s = decimal(n);
    let d = n % 10;
    assert(digit(digit_char(d), 10) == Some(d));
    if n < 10 {
        assert(s.drop_last() =~= Seq::<char>::empty());
        assert(magnitude(s.drop_last(), 10) == 0);
    } else {
        let front = decimal(n / 10);
        lemma_decimal_digits(n / 10);
        assert(s == front.push(digit_char(d)));
        assert(s.drop_last() =~= front);
        assert forall|i: int| 0 <= i < s.len() implies digit(#[trigger] s[i], 10) is Some && '0'
            <= s[i] && s[i] <= '9' by {
            if i < front.len() {
                assert(s[i] == front[i]);
                assert(digit(front[i], 10) is Some);
            }
        }
    }
}

/// A sign in front of a number counts, and so does the prefix of a hexadecimal one.
pub proof fn lemma_signs_and_prefixes(n: nat, hex: Seq<char>)
    requires
        is_digits(hex, 16),
        magnitude(hex, 16) <= i64::MAX,
        n <= i64::MAX,
    ensures
        integer(seq!['-'] + decimal(n)) == Some(-(n as int)),
        integer("0x"@ + hex) == Some(magnitude(hex, 16) as int),
        integer("0X"@ + hex) == Some(magnitude(hex, 16) as int),
{
    reveal_strlit("0x");
    reveal_strlit("0X");
    lemma_decimal_digits(n);
    let minus = seq!['-'] + decimal(n);
    assert(minus[0] == '-');
    assert(minus.drop_first() =~= decimal(n));
    if "0x"@.is_prefix_of(minus) {
        assert(minus.subrange(0, 2)[0] == '0');
    }
    if "0X"@.is_prefix_of(minus) {
        assert(minus.subrange(0, 2)[0] == '0');
    }
    let low = "0x"@ + hex;
    let high = "0X"@ + hex;
    assert(low.subrange(0, 2) =~= "0x"@);
    assert(low.skip(2) =~= hex);
    assert(high.subrange(0, 2) =~= "0X"@);
    assert(high.skip(2) =~= hex);
    if "0x"@.is_prefix_of(high) {
        assert(high.subrange(0, 2)[1] == 'x');
        assert(high[1] == 'X');
    }
    assert(digit(hex[0], 16) is Some);
}

/// Digits count by their place: one more digit behind makes the number so many times as large and
/// adds the digit.
pub proof fn lemma_places_count(s: Seq<char>, c: char)
    ensures
        magnitude(s.push(c), 16) == 16 * magnitude(s, 16) + digit(c, 16)->0,
        magnitude(s.push(c), 10) == 10 * magnitude(s, 10) + digit(c, 10)->0,
        digit('f', 16) == Some(15nat),
        digit('A', 16) == Some(10nat),
        digit('9', 10) == Some(9nat),
        digit('a', 10) is None,
{
    assert(s.push(c).drop_last() =~= s);
}

} // verus!
