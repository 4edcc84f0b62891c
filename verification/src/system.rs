//! The identity-summary scanners: each reads one system file's text, handed
//! in by the host process, and extracts one fact of the device.
use vstd::prelude::*;

use crate::ini::{lines_view, split_lines};
use crate::lit::{
    all_digits, dec_val, hex_u128_literal_val, hex_val, is_digit, is_hex_u128_literal,
    parse_digits_u64, parse_hex_u128,
};
use crate::rio_interface::{line_serial, scan_line_serial};
use crate::text::{lower, lower_char, lower_seq};
use crate::types::Summary;

verus! {

/// Whether the sequence opens with the pattern.
pub open spec fn starts_with(s: Seq<char>, p: Seq<char>) -> bool {
    p.len() <= s.len() && s.subrange(0, p.len() as int) == p
}

/// The first line that opens with the pattern, if any.
pub open spec fn spec_first_prefixed(lines: Seq<Seq<char>>, p: Seq<char>) -> Option<Seq<char>>
    decreases lines.len(),
{
    if lines.len() == 0 {
        None
    } else if starts_with(lines[0], p) {
        Some(lines[0])
    } else {
        spec_first_prefixed(lines.drop_first(), p)
    }
}

/// Whether the line opens with the pattern.
fn vec_starts_with(line: &Vec<char>, p: &Vec<char>) -> (r: bool)
    ensures
        r == starts_with(line@, p@),
{
    let m = p.len();
    let n = line.len();
    if m > n {
        return false;
    }
    let mut i: usize = 0;
    while i < m
        invariant
            i <= m,
            m <= n,
            m == p@.len(),
            n == line@.len(),
            forall|j: int| 0 <= j < i ==> line@[j] == p@[j],
        decreases m - i,
    {
        if line[i] != p[i] {
            proof {
                assert(line@.subrange(0, m as int)[i as int] == line@[i as int]);
            }
            return false;
        }
        i = i + 1;
    }
    proof {
        assert(line@.subrange(0, m as int) =~= p@);
    }
    true
}

/// The first line of the text that opens with the pattern, as its index.
fn find_prefixed_line(lines: &Vec<Vec<char>>, p: &Vec<char>) -> (r: Option<usize>)
    ensures
        r matches Some(i) ==> i < lines@.len() && spec_first_prefixed(lines_view(lines@), p@)
            == Some(lines@[i as int]@),
        r is None ==> spec_first_prefixed(lines_view(lines@), p@) is None,
{
    let n = lines.len();
    let ghost lv = lines_view(lines@);
    let mut i: usize = 0;
    proof {
        assert(lv.subrange(0, n as int) =~= lv);
    }
    while i < n
        invariant
            i <= n,
            n == lines@.len(),
            lv == lines_view(lines@),
            spec_first_prefixed(lv, p@) == spec_first_prefixed(lv.subrange(i as int, n as int), p@),
        decreases n - i,
    {
        let ghost sub = lv.subrange(i as int, n as int);
        proof {
            assert(sub[0] == lv[i as int]);
            assert(sub.drop_first() =~= lv.subrange((i + 1) as int, n as int));
        }
        if vec_starts_with(&lines[i], p) {
            return Some(i);
        }
        i = i + 1;
    }
    proof {
        assert(lv.subrange(n as int, n as int) =~= Seq::<Seq<char>>::empty());
    }
    None
}

/// The sequence with every trailing line break removed.
pub open spec fn trim_nl(s: Seq<char>) -> Seq<char>
    decreases s.len(),
{
    if s.len() > 0 && s.last() == '\n' {
        trim_nl(s.drop_last())
    } else {
        s
    }
}

/// The characters with trailing line breaks removed.
fn trim_nl_exec(v: &Vec<char>) -> (r: Vec<char>)
    ensures
        r@ == trim_nl(v@),
{
    let mut e = v.len();
    proof {
        assert(v@.subrange(0, e as int) =~= v@);
    }
    while e > 0 && v[e - 1] == '\n'
        invariant
            e <= v@.len(),
            trim_nl(v@) == trim_nl(v@.subrange(0, e as int)),
        ensures
            e <= v@.len(),
            trim_nl(v@) == trim_nl(v@.subrange(0, e as int)),
            e > 0 ==> v@[e - 1] != '\n',
        decreases e,
    {
        proof {
            let p = v@.subrange(0, e as int);
            assert(p.last() == v@[e - 1]);
            assert(p.drop_last() =~= v@.subrange(0, (e - 1) as int));
        }
        e = e - 1;
    }
    proof {
        let p = v@.subrange(0, e as int);
        if e > 0 {
            assert(p.last() == v@[e - 1]);
        }
        assert(trim_nl(p) == p);
    }
    crate::text::subvec(v, 0, e)
}

/// The sequence with every double quote removed.
pub open spec fn remove_quotes(s: Seq<char>) -> Seq<char>
    decreases s.len(),
{
    if s.len() == 0 {
        Seq::empty()
    } else if s.last() == '"' {
        remove_quotes(s.drop_last())
    } else {
        remove_quotes(s.drop_last()).push(s.last())
    }
}

/// The characters with every double quote removed.
fn remove_quotes_exec(v: &Vec<char>) -> (r: Vec<char>)
    ensures
        r@ == remove_quotes(v@),
{
    let n = v.len();
    let mut r: Vec<char> = Vec::new();
    let mut i: usize = 0;
    proof {
        assert(v@.subrange(0, 0) =~= Seq::<char>::empty());
    }
    while i < n
        invariant
            i <= n,
            n == v@.len(),
            r@ == remove_quotes(v@.subrange(0, i as int)),
        decreases n - i,
    {
        let c = v[i];
        proof {
            let p = v@.subrange(0, (i + 1) as int);
            assert(p.drop_last() =~= v@.subrange(0, i as int));
            assert(p.last() == v@[i as int]);
        }
        if c != '"' {
            r.push(c);
        }
        i = i + 1;
    }
    proof {
        assert(v@.subrange(0, n as int) =~= v@);
    }
    r
}

/// The line's characters from position `k` on; empty when it is shorter.
pub open spec fn skip_n(l: Seq<char>, k: int) -> Seq<char> {
    if l.len() >= k {
        l.subrange(k, l.len() as int)
    } else {
        Seq::empty()
    }
}

/// The host name of an `/etc/hostname`-style text: the text itself with
/// trailing line breaks removed.
pub fn hostname_from_etc_text(text: &str) -> (r: String)
    ensures
        r@ == trim_nl(text@),
{
    let v = crate::text::string_to_chars(text);
    let t = trim_nl_exec(&v);
    crate::text::chars_to_string(&t)
}

/// The host name of a vendor runtime-config text: the first line opening
/// with `host_name=`, taken after that prefix, double quotes removed.
pub fn hostname_from_rt_ini_text(text: &str) -> (r: Option<String>)
    ensures
        ({
            match spec_first_prefixed(split_lines(text@), "host_name="@) {
                Some(l) => r matches Some(s) && s@ == remove_quotes(skip_n(l, 10)),
                None => r is None,
            }
        }),
{
    prefixed_tail(text, "host_name=", 10)
}

/// The pretty name of an `/etc/os-release`-style text: the first line
/// opening with `PRETTY_NAME=`, taken after thirteen characters, double
/// quotes removed.
pub fn os_from_release_text(text: &str) -> (r: Option<String>)
    ensures
        ({
            match spec_first_prefixed(split_lines(text@), "PRETTY_NAME="@) {
                Some(l) => r matches Some(s) && s@ == remove_quotes(skip_n(l, 13)),
                None => r is None,
            }
        }),
{
    prefixed_tail(text, "PRETTY_NAME=", 13)
}

/// The image version of a vendor image-metadata text: the first line
/// opening with `IMAGEVERSION = `, taken after that prefix, double quotes
/// removed.
pub fn os_from_image_text(text: &str) -> (r: Option<String>)
    ensures
        ({
            match spec_first_prefixed(split_lines(text@), "IMAGEVERSION = "@) {
                Some(l) => r matches Some(s) && s@ == remove_quotes(skip_n(l, 15)),
                None => r is None,
            }
        }),
{
    prefixed_tail(text, "IMAGEVERSION = ", 15)
}

/// The first line opening with the pattern, taken from position `k` on,
/// double quotes removed.
fn prefixed_tail(text: &str, p: &str, k: usize) -> (r: Option<String>)
    ensures
        ({
            match spec_first_prefixed(split_lines(text@), p@) {
                Some(l) => r matches Some(s) && s@ == remove_quotes(skip_n(l, k as int)),
                None => r is None,
            }
        }),
{
    let chars = crate::text::string_to_chars(text);
    let lines = crate::ini::split_lines_exec(&chars);
    let pv = crate::text::string_to_chars(p);
    match find_prefixed_line(&lines, &pv) {
        None => None,
        Some(i) => {
            let line: &Vec<char> = &lines[i];
            let m = line.len();
            let tail = if m >= k {
                crate::text::subvec(line, k, m)
            } else {
                Vec::new()
            };
            proof {
                if m < k {
                    assert(tail@ =~= skip_n(line@, k as int));
                }
            }
            let cleaned = remove_quotes_exec(&tail);
            Some(crate::text::chars_to_string(&cleaned))
        },
    }
}

/// The machine id of an `/etc/machine-id`-style text: the text, trailing
/// line breaks removed, read as an unsigned 128-bit hex number.
pub fn uuid_from_machine_id_text(text: &str) -> (r: Option<u128>)
    ensures
        is_hex_u128_literal(trim_nl(text@)) ==> (r matches Some(u) && u as int
            == hex_u128_literal_val(trim_nl(text@))),
        !is_hex_u128_literal(trim_nl(text@)) ==> r is None,
{
    let v = crate::text::string_to_chars(text);
    let t = trim_nl_exec(&v);
    parse_hex_u128(&t)
}

/// The serial sum of the lines: every line's first full serial read as an
/// unsigned hex number, all summed; nothing when a serial is malformed,
/// together with how many serials there were.
pub open spec fn spec_serial_sum(lines: Seq<Seq<char>>) -> Option<(int, int)>
    decreases lines.len(),
{
    if lines.len() == 0 {
        Some((0, 0))
    } else {
        match line_serial(lines[0]) {
            None => spec_serial_sum(lines.drop_first()),
            Some(ser) => if is_hex_u128_literal(ser) {
                match spec_serial_sum(lines.drop_first()) {
                    None => None,
                    Some(sc) => Some((sc.0 + hex_u128_literal_val(ser), sc.1 + 1)),
                }
            } else {
                None
            },
        }
    }
}

/// Sixteen hex digits stay below two to the sixty-fourth.
proof fn lemma_hex_val_small(s: Seq<char>)
    requires
        all_digits_hex(s),
        s.len() <= 16,
    ensures
        hex_val(s) < 0x1_0000_0000_0000_0000,
        hex_val(s) >= 0,
    decreases s.len(),
{
    reveal_with_fuel(pow16, 17);
    lemma_hex_val_small16(s, 16);
    assert(pow16(16) == 0x1_0000_0000_0000_0000);
}

spec fn all_digits_hex(s: Seq<char>) -> bool {
    crate::lit::all_hex_digits(s)
}

/// Hex digits of bounded count denote a bounded value.
proof fn lemma_hex_val_small16(s: Seq<char>, k: int)
    requires
        all_digits_hex(s),
        s.len() <= k,
        0 <= k <= 16,
    ensures
        hex_val(s) < pow16(k),
        hex_val(s) >= 0,
    decreases s.len(),
{
    reveal_with_fuel(pow16, 17);
    if s.len() == 0 {
        assert(pow16(k) >= 1) by {
            lemma_pow16_pos(k);
        }
    } else {
        assert(forall|i: int| 0 <= i < s.len() - 1 ==> s.drop_last()[i] == s[i]);
        lemma_hex_val_small16(s.drop_last(), k - 1);
        assert(hex_val(s) == hex_val(s.drop_last()) * 16 + crate::lit::hex_digit_val(s.last()));
        assert(crate::lit::hex_digit_val(s.last()) <= 15);
        assert(hex_val(s.drop_last()) <= pow16(k - 1) - 1);
        assert(hex_val(s.drop_last()) * 16 <= (pow16(k - 1) - 1) * 16) by (nonlinear_arith)
            requires
                hex_val(s.drop_last()) <= pow16(k - 1) - 1,
        ;
        assert(pow16(k) == pow16(k - 1) * 16);
    }
}

spec fn pow16(k: int) -> int
    decreases k,
{
    if k <= 0 {
        1
    } else {
        pow16(k - 1) * 16
    }
}

proof fn lemma_pow16_pos(k: int)
    ensures
        pow16(k) >= 1,
    decreases k,
{
    if k > 0 {
        lemma_pow16_pos(k - 1);
    }
}

/// A found serial stands where `serial_at` says, so it has sixteen
/// characters.
proof fn lemma_first_serial(line: Seq<char>, i: int)
    ensures
        crate::rio_interface::first_serial_from(line, i) >= 0
            ==> crate::rio_interface::serial_at(
            line,
            crate::rio_interface::first_serial_from(line, i),
        ),
    decreases line.len() - i + 1,
{
    if !(i < 0 || i + crate::rio_interface::serial_pattern().len() + 16 > line.len()) {
        if !crate::rio_interface::serial_at(line, i) {
            lemma_first_serial(line, i + 1);
        }
    }
}

/// A serial sum counts its serials and stays within their joint bound.
proof fn lemma_serial_sum_bound(lines: Seq<Seq<char>>)
    ensures
        ({
            match spec_serial_sum(lines) {
                Some(sc) => 0 <= sc.1 <= lines.len() && 0 <= sc.0 && sc.0 <= sc.1
                    * 0xffff_ffff_ffff_ffff,
                None => true,
            }
        }),
    decreases lines.len(),
{
    if lines.len() > 0 {
        lemma_serial_sum_bound(lines.drop_first());
        match line_serial(lines[0]) {
            None => {},
            Some(ser) => {
                if is_hex_u128_literal(ser) {
                    match spec_serial_sum(lines.drop_first()) {
                        None => {},
                        Some(sc) => {
                            lemma_first_serial(lines[0], 0);
                            assert(ser.len() == 16);
                            let body = if ser.len() > 0 && ser[0] == '+' {
                                ser.subrange(1, ser.len() as int)
                            } else {
                                ser
                            };
                            assert(body.len() <= 16);
                            lemma_hex_val_small(body);
                            assert(hex_u128_literal_val(ser) <= 0xffff_ffff_ffff_ffff);
                            assert(sc.0 + hex_u128_literal_val(ser) <= sc.1
                                * 0xffff_ffff_ffff_ffff + 0xffff_ffff_ffff_ffff);
                            assert(sc.1 * 0xffff_ffff_ffff_ffff + 0xffff_ffff_ffff_ffff == (sc.1
                                + 1) * 0xffff_ffff_ffff_ffff) by (nonlinear_arith);
                        },
                    }
                }
            },
        }
    }
}

/// The device id of a vendor config text: the sum of every line's serial,
/// each read as an unsigned hex number; nothing without any serial, and
/// nothing on a malformed one.
pub fn uuid_from_serial_text(text: &str) -> (r: Option<u128>)
    ensures
        ({
            match spec_serial_sum(split_lines(text@)) {
                None => r is None,
                Some(sc) => if sc.1 == 0 {
                    r is None
                } else {
                    r matches Some(u) && u as int == sc.0
                },
            }
        }),
{
    let chars = crate::text::string_to_chars(text);
    let lines = crate::ini::split_lines_exec(&chars);
    let ghost lv = lines_view(lines@);
    let n = lines.len();
    let mut sum: u128 = 0;
    let mut count: usize = 0;
    let mut i: usize = 0;
    proof {
        assert(lv.subrange(0, n as int) =~= lv);
    }
    while i < n
        invariant
            i <= n,
            n == lines@.len(),
            lv == lines_view(lines@),
            lv == split_lines(text@),
            count <= i,
            sum <= count * 0xffff_ffff_ffff_ffff,
            ({
                match spec_serial_sum(lv.subrange(i as int, n as int)) {
                    None => spec_serial_sum(lv) is None,
                    Some(sc) => spec_serial_sum(lv) == Some(
                        (sc.0 + sum as int, sc.1 + count as int),
                    ),
                }
            }),
        decreases n - i,
    {
        let ghost sub = lv.subrange(i as int, n as int);
        proof {
            assert(sub[0] == lv[i as int]);
            assert(sub.drop_first() =~= lv.subrange((i + 1) as int, n as int));
            assert(lv[i as int] == lines@[i as int]@);
        }
        let line: &Vec<char> = &lines[i];
        match scan_line_serial(line) {
            None => {},
            Some(ser) => {
                match parse_hex_u128(&ser) {
                    None => {
                        return None;
                    },
                    Some(u) => {
                        proof {
                            assert(ser@.len() == 16);
                            let body = if ser@.len() > 0 && ser@[0] == '+' {
                                ser@.subrange(1, ser@.len() as int)
                            } else {
                                ser@
                            };
                            assert(body.len() <= 16);
                            lemma_hex_val_small(body);
                            assert(u <= 0xffff_ffff_ffff_ffff);
                            assert(sum + u <= count * 0xffff_ffff_ffff_ffff
                                + 0xffff_ffff_ffff_ffff);
                            assert(count * 0xffff_ffff_ffff_ffff + 0xffff_ffff_ffff_ffff == (
                            count + 1) * 0xffff_ffff_ffff_ffff) by (nonlinear_arith);
                            assert((count + 1) * 0xffff_ffff_ffff_ffff < 0xffff_ffff_ffff_ffff_ffff_ffff_ffff_ffff)
                                by (nonlinear_arith)
                                requires
                                    0 <= count < 0x1_0000_0000_0000_0000,
                            ;
                        }
                        sum = sum + u;
                        count = count + 1;
                    },
                }
            },
        }
        i = i + 1;
    }
    proof {
        assert(lv.subrange(n as int, n as int) =~= Seq::<Seq<char>>::empty());
    }
    if count == 0 {
        None
    } else {
        Some(sum)
    }
}

/// How many lines open with the pattern.
pub open spec fn count_prefixed(lines: Seq<Seq<char>>, p: Seq<char>) -> int
    decreases lines.len(),
{
    if lines.len() == 0 {
        0
    } else {
        count_prefixed(lines.drop_first(), p) + if starts_with(lines[0], p) {
            1int
        } else {
            0int
        }
    }
}

/// The core count of a `/proc/cpuinfo`-style text: how many lines open with
/// `processor`, held at 255 where there are more.
pub fn cpu_cores_from_text(text: &str) -> (r: u8)
    ensures
        count_prefixed(split_lines(text@), "processor"@) <= 255 ==> r as int == count_prefixed(
            split_lines(text@),
            "processor"@,
        ),
        count_prefixed(split_lines(text@), "processor"@) > 255 ==> r == 255,
{
    let chars = crate::text::string_to_chars(text);
    let lines = crate::ini::split_lines_exec(&chars);
    let pv = crate::text::string_to_chars("processor");
    let ghost lv = lines_view(lines@);
    let n = lines.len();
    let mut cores: u64 = 0;
    let mut i: usize = 0;
    proof {
        assert(lv.subrange(0, n as int) =~= lv);
    }
    while i < n
        invariant
            i <= n,
            n == lines@.len(),
            lv == lines_view(lines@),
            lv == split_lines(text@),
            pv@ == "processor"@,
            cores <= i,
            count_prefixed(lv, pv@) == cores + count_prefixed(
                lv.subrange(i as int, n as int),
                pv@,
            ),
        decreases n - i,
    {
        let ghost sub = lv.subrange(i as int, n as int);
        proof {
            assert(sub[0] == lv[i as int]);
            assert(sub.drop_first() =~= lv.subrange((i + 1) as int, n as int));
        }
        if vec_starts_with(&lines[i], &pv) {
            cores = cores + 1;
        }
        i = i + 1;
    }
    proof {
        assert(lv.subrange(n as int, n as int) =~= Seq::<Seq<char>>::empty());
    }
    if cores > 255 {
        255
    } else {
        cores as u8
    }
}

/// The position of the first occurrence of the pattern at or after `i`, or
/// `-1` when there is none.
pub open spec fn first_sub_from(s: Seq<char>, p: Seq<char>, i: int) -> int
    decreases s.len() - i + 1,
{
    if i < 0 || i + p.len() > s.len() {
        -1
    } else if s.subrange(i, i + p.len() as int) == p {
        i
    } else {
        first_sub_from(s, p, i + 1)
    }
}

/// Whether the sequence holds the pattern anywhere.
pub open spec fn contains_sub(s: Seq<char>, p: Seq<char>) -> bool {
    first_sub_from(s, p, 0) >= 0
}

/// Whether the characters hold the two-character pattern anywhere.
fn vec_contains2(v: &Vec<char>, a: char, b: char) -> (r: bool)
    ensures
        r == contains_sub(v@, seq![a, b]),
{
    let ghost p = seq![a, b];
    let n = v.len();
    if n < 2 {
        proof {
            assert(first_sub_from(v@, p, 0) == -1);
        }
        return false;
    }
    let mut i: usize = 0;
    while i <= n - 2
        invariant
            0 <= i,
            i <= n - 1,
            n == v@.len(),
            n >= 2,
            p == seq![a, b],
            first_sub_from(v@, p, 0) == first_sub_from(v@, p, i as int),
        decreases n - i,
    {
        if v[i] == a && v[i + 1] == b {
            proof {
                assert(v@.subrange(i as int, i + 2) =~= p);
                assert(first_sub_from(v@, p, i as int) == i as int);
            }
            return true;
        }
        proof {
            assert(v@.subrange(i as int, i + 2) != p) by {
                if v@[i as int] != a {
                    assert(v@.subrange(i as int, i + 2)[0] != p[0]);
                } else {
                    assert(v@.subrange(i as int, i + 2)[1] != p[1]);
                }
            }
        }
        i = i + 1;
    }
    proof {
        assert(first_sub_from(v@, p, i as int) == -1);
    }
    false
}

/// The digits of the sequence, in order, everything else removed.
pub open spec fn digits_only(s: Seq<char>) -> Seq<char>
    decreases s.len(),
{
    if s.len() == 0 {
        Seq::empty()
    } else if is_digit(s.last()) {
        digits_only(s.drop_last()).push(s.last())
    } else {
        digits_only(s.drop_last())
    }
}

/// The digit count a `MemTotal:` line denotes with its unit suffix: three
/// appended zeros for a kilobyte unit, six for a megabyte unit, nine for a
/// gigabyte unit, judged case-insensitively.
pub open spec fn spec_total_memory(text: Seq<char>) -> Option<int> {
    match spec_first_prefixed(split_lines(text), "MemTotal:"@) {
        None => None,
        Some(line) => {
            let ds = digits_only(line);
            let low = lower_seq(line);
            let zeros: int = if contains_sub(low, "kb"@) {
                3
            } else if contains_sub(low, "mb"@) {
                6
            } else if contains_sub(low, "gb"@) {
                9
            } else {
                0
            };
            let full = ds + Seq::new(zeros as nat, |j: int| '0');
            if full.len() == 0 {
                None
            } else if dec_val(full) > 0xffff_ffff_ffff_ffff {
                None
            } else {
                Some(dec_val(full))
            }
        },
    }
}

/// The total memory of a `/proc/meminfo`-style text: the digits of the
/// first `MemTotal:` line, scaled by its unit suffix; nothing without such
/// a line, and nothing when the number cannot be carried in 64 bits.
pub fn total_memory_from_text(text: &str) -> (r: Option<u64>)
    ensures
        ({
            match spec_total_memory(text@) {
                Some(m) => r matches Some(u) && u as int == m,
                None => r is None,
            }
        }),
{
    let chars = crate::text::string_to_chars(text);
    let lines = crate::ini::split_lines_exec(&chars);
    let pv = crate::text::string_to_chars("MemTotal:");
    let li = match find_prefixed_line(&lines, &pv) {
        None => {
            return None;
        },
        Some(i) => i,
    };
    let line: &Vec<char> = &lines[li];
    let n = line.len();
    // collect the digits
    let mut ds: Vec<char> = Vec::new();
    let mut i: usize = 0;
    proof {
        assert(line@.subrange(0, 0) =~= Seq::<char>::empty());
    }
    while i < n
        invariant
            i <= n,
            n == line@.len(),
            ds@ == digits_only(line@.subrange(0, i as int)),
            all_digits(ds@),
        decreases n - i,
    {
        let c = line[i];
        proof {
            let p = line@.subrange(0, (i + 1) as int);
            assert(p.drop_last() =~= line@.subrange(0, i as int));
            assert(p.last() == line@[i as int]);
        }
        if '0' <= c && c <= '9' {
            ds.push(c);
        }
        i = i + 1;
    }
    proof {
        assert(line@.subrange(0, n as int) =~= line@);
    }
    // the lowered line decides the unit
    let mut low: Vec<char> = Vec::new();
    let mut k: usize = 0;
    while k < n
        invariant
            k <= n,
            n == line@.len(),
            low@ == lower_seq(line@).subrange(0, k as int),
        decreases n - k,
    {
        low.push(lower_char(line[k]));
        proof {
            assert(lower_seq(line@).subrange(0, (k + 1) as int) =~= lower_seq(line@).subrange(
                0,
                k as int,
            ).push(lower_seq(line@)[k as int]));
        }
        k = k + 1;
    }
    proof {
        assert(lower_seq(line@).subrange(0, n as int) =~= lower_seq(line@));
    }
    proof {
        reveal_strlit("kb");
        reveal_strlit("mb");
        reveal_strlit("gb");
        assert("kb"@ =~= seq!['k', 'b']);
        assert("mb"@ =~= seq!['m', 'b']);
        assert("gb"@ =~= seq!['g', 'b']);
    }
    let zeros: usize = if vec_contains2(&low, 'k', 'b') {
        3
    } else if vec_contains2(&low, 'm', 'b') {
        6
    } else if vec_contains2(&low, 'g', 'b') {
        9
    } else {
        0
    };
    let ghost before = ds@;
    let mut z: usize = 0;
    while z < zeros
        invariant
            z <= zeros,
            ds@ == before + Seq::new(z as nat, |j: int| '0'),
            all_digits(ds@),
        decreases zeros - z,
    {
        ds.push('0');
        proof {
            assert(ds@ =~= before + Seq::new((z + 1) as nat, |j: int| '0'));
        }
        z = z + 1;
    }
    proof {
        assert(ds@ =~= before + Seq::new(zeros as nat, |j: int| '0'));
    }
    if ds.len() == 0 {
        return None;
    }
    let full_len = ds.len();
    proof {
        assert(ds@.subrange(0, full_len as int) =~= ds@);
    }
    parse_digits_u64(&ds, 0, full_len, 0xffff_ffff_ffff_ffff)
}

/// The identity summary, from whatever facts could be read: a missing fact
/// falls back to `Unknown` or zero.
pub fn make_summary(
    hostname: Option<String>,
    os: Option<String>,
    uuid: Option<u128>,
    cpu_cores: Option<u8>,
    total_memory: Option<u64>,
    shiitake_version: String,
    webpage_version: String,
) -> (r: Summary)
    ensures
        ({
            &&& match hostname {
                Some(h) => r.hostname@ == h@,
                None => r.hostname@ == "Unknown"@,
            }
            &&& match os {
                Some(o) => r.os@ == o@,
                None => r.os@ == "Unknown"@,
            }
            &&& r.uuid as int == match uuid {
                Some(u) => u as int,
                None => 0,
            }
            &&& r.cpu_cores as int == match cpu_cores {
                Some(c) => c as int,
                None => 0,
            }
            &&& r.total_memory as int == match total_memory {
                Some(m) => m as int,
                None => 0,
            }
            &&& r.shiitake_version@ == shiitake_version@
            &&& r.webpage_version@ == webpage_version@
        }),
{
    Summary {
        hostname: match hostname {
            Some(h) => h,
            None => String::from_str("Unknown"),
        },
        os: match os {
            Some(o) => o,
            None => String::from_str("Unknown"),
        },
        uuid: match uuid {
            Some(u) => u,
            None => 0,
        },
        cpu_cores: match cpu_cores {
            Some(c) => c,
            None => 0,
        },
        total_memory: match total_memory {
            Some(m) => m,
            None => 0,
        },
        shiitake_version,
        webpage_version,
    }
}

} // verus!
