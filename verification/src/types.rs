//! The plain data types the telemetry endpoints hand out, and the hex
//! timespec form the clock endpoints speak.
use vstd::prelude::*;

use crate::lit::{
    hex_digits, hex_i64_literal_val, is_hex_i64_literal, parse_hex_i64, push_hex_digits,
};
use crate::text::push_char;

verus! {

/// One network interface's transfer counters.
#[derive(Debug, Clone)]
pub struct NetworkUsageEntry {
    pub interface: String,
    pub rx: u64,
    pub tx: u64,
}

/// One mount point's disk usage.
#[derive(Debug, Clone)]
pub struct DiskUsageEntry {
    pub mount_point: String,
    pub total: u64,
    pub used: u64,
}

/// The device's identity summary.
#[derive(Debug, Clone)]
pub struct Summary {
    pub hostname: String,
    pub os: String,
    pub shiitake_version: String,
    pub webpage_version: String,
    pub uuid: u128,
    pub cpu_cores: u8,
    pub total_memory: u64,
}

/// The index of the first colon, or the length when there is none.
pub open spec fn first_colon(s: Seq<char>) -> int
    decreases s.len(),
{
    if s.len() == 0 {
        0
    } else if s[0] == ':' {
        0
    } else {
        1 + first_colon(s.drop_first())
    }
}

pub proof fn lemma_first_colon_at(s: Seq<char>, i: int)
    requires
        0 <= i <= s.len(),
        forall|k: int| 0 <= k < i ==> s[k] != ':',
        i < s.len() ==> s[i] == ':',
    ensures
        first_colon(s) == i,
    decreases i,
{
    if i > 0 {
        assert forall|k: int| 0 <= k < i - 1 implies s.drop_first()[k] != ':' by {
            assert(s.drop_first()[k] == s[k + 1]);
        }
        if i - 1 < s.len() - 1 {
            assert(s.drop_first()[i - 1] == s[i]);
        }
        lemma_first_colon_at(s.drop_first(), i - 1);
    }
}

/// What a timespec renders to: the two numbers in lowercase hex (each in
/// two's complement, as an unsigned 64-bit value), joined by one colon.
pub open spec fn spec_timespec_hex(seconds: int, nanoseconds: int) -> Seq<char> {
    hex_digits(seconds) + seq![':'] + hex_digits(nanoseconds)
}

/// The hex timespec text of a clock reading.
pub fn timespec_to_hex(seconds: i64, nanoseconds: i64) -> (r: String)
    ensures
        r@ == spec_timespec_hex((seconds as u64) as int, (nanoseconds as u64) as int),
{
    let mut s = String::new();
    push_hex_digits(&mut s, seconds as u64);
    push_char(&mut s, ':');
    push_hex_digits(&mut s, nanoseconds as u64);
    proof {
        assert(s@ =~= spec_timespec_hex((seconds as u64) as int, (nanoseconds as u64) as int));
    }
    s
}

/// What reading a hex timespec text yields: the part before the first colon
/// and the part between the first and second colon, each read as a signed
/// 64-bit hex number; anything malformed yields nothing.
pub open spec fn spec_hex_to_timespec(s: Seq<char>) -> Option<(int, int)> {
    let p1 = first_colon(s);
    if p1 >= s.len() {
        None
    } else {
        let seg1 = s.subrange(0, p1);
        let rest = s.subrange(p1 + 1, s.len() as int);
        let p2 = first_colon(rest);
        let seg2 = rest.subrange(0, p2);
        if is_hex_i64_literal(seg1) && is_hex_i64_literal(seg2) {
            Some((hex_i64_literal_val(seg1), hex_i64_literal_val(seg2)))
        } else {
            None
        }
    }
}

/// A clock reading survives the hex round trip: rendering a nonnegative
/// timespec and reading the text back yields the same two numbers. (A
/// negative number renders as its two's complement, which no longer fits a
/// signed 64-bit reading: such a text yields `None`.)
pub proof fn lemma_timespec_round_trip(seconds: int, nanoseconds: int)
    requires
        0 <= seconds <= 0x7fff_ffff_ffff_ffff,
        0 <= nanoseconds <= 0x7fff_ffff_ffff_ffff,
    ensures
        spec_hex_to_timespec(spec_timespec_hex(seconds, nanoseconds)) == Some(
            (seconds, nanoseconds),
        ),
{
    crate::lit::lemma_hex_digits_val(seconds);
    crate::lit::lemma_hex_digits_val(nanoseconds);
    let a = hex_digits(seconds);
    let b = hex_digits(nanoseconds);
    let s = spec_timespec_hex(seconds, nanoseconds);
    assert(s == a + seq![':'] + b);
    assert forall|k: int| 0 <= k < a.len() implies s[k] != ':' by {
        assert(s[k] == a[k]);
    }
    assert(s[a.len() as int] == ':');
    lemma_first_colon_at(s, a.len() as int);
    let rest = s.subrange(a.len() + 1 as int, s.len() as int);
    assert(rest =~= b);
    lemma_first_colon_at(rest, b.len() as int);
    assert(s.subrange(0, a.len() as int) =~= a);
    assert(rest.subrange(0, b.len() as int) =~= b);
    lemma_hex_digits_literal(seconds);
    lemma_hex_digits_literal(nanoseconds);
}

/// The canonical hex digits of a number within signed 64-bit range read
/// back as a hex literal of that value.
proof fn lemma_hex_digits_literal(n: int)
    requires
        0 <= n <= 0x7fff_ffff_ffff_ffff,
    ensures
        is_hex_i64_literal(hex_digits(n)),
        hex_i64_literal_val(hex_digits(n)) == n,
{
    crate::lit::lemma_hex_digits_val(n);
    let d = hex_digits(n);
    assert(crate::lit::is_hex_digit(d[0]));
    assert(d[0] != '+' && d[0] != '-');
}

/// Reads a hex timespec text back into its two numbers; a text without a
/// colon, or with a malformed or out-of-range number, yields `None`.
pub fn hex_to_timespec(hex: &str) -> (r: Option<(i64, i64)>)
    ensures
        r matches Some(t) ==> spec_hex_to_timespec(hex@) == Some((t.0 as int, t.1 as int)),
        r is None ==> spec_hex_to_timespec(hex@) is None,
{
    let v = crate::text::string_to_chars(hex);
    let n = v.len();
    let mut p1: usize = 0;
    while p1 < n && v[p1] != ':'
        invariant
            p1 <= n,
            n == v@.len(),
            v@ == hex@,
            forall|k: int| 0 <= k < p1 ==> v@[k] != ':',
        ensures
            p1 <= n,
            forall|k: int| 0 <= k < p1 ==> v@[k] != ':',
            p1 < n ==> v@[p1 as int] == ':',
        decreases n - p1,
    {
        p1 = p1 + 1;
    }
    proof {
        lemma_first_colon_at(hex@, p1 as int);
    }
    if p1 >= n {
        return None;
    }
    let mut p2: usize = p1 + 1;
    let ghost rest = hex@.subrange(p1 + 1, n as int);
    while p2 < n && v[p2] != ':'
        invariant
            p1 + 1 <= p2 <= n,
            n == v@.len(),
            v@ == hex@,
            forall|k: int| p1 + 1 <= k < p2 ==> v@[k] != ':',
        ensures
            p1 + 1 <= p2 <= n,
            forall|k: int| p1 + 1 <= k < p2 ==> v@[k] != ':',
            p2 < n ==> v@[p2 as int] == ':',
        decreases n - p2,
    {
        p2 = p2 + 1;
    }
    proof {
        assert forall|k: int| 0 <= k < p2 - p1 - 1 implies rest[k] != ':' by {
            assert(rest[k] == hex@[p1 + 1 + k]);
        }
        if p2 < n {
            assert(rest[p2 - p1 - 1] == hex@[p2 as int]);
        }
        lemma_first_colon_at(rest, p2 - p1 - 1);
    }
    let seg1 = crate::text::subvec(&v, 0, p1);
    let seg2 = crate::text::subvec(&v, p1 + 1, p2);
    proof {
        assert(seg2@ =~= rest.subrange(0, p2 - p1 - 1));
    }
    let a = match parse_hex_i64(&seg1) {
        Some(a) => a,
        None => {
            return None;
        },
    };
    let b = match parse_hex_i64(&seg2) {
        Some(b) => b,
        None => {
            return None;
        },
    };
    Some((a, b))
}

} // verus!
