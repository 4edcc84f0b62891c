//! Numeric literals as the store's parser understands them: decimal 64-bit
//! signed integers, and the float-literal grammar (sign, digits, optional
//! point and exponent, or the words `inf`, `infinity`, `nan` in any case).
use vstd::prelude::*;

use crate::text::{lower, lower_char, lower_seq};

verus! {

pub open spec fn is_digit(c: char) -> bool {
    '0' <= c && c <= '9'
}

pub open spec fn digit_val(c: char) -> int {
    c as int - 48
}

pub open spec fn digit_char(d: int) -> char {
    (48 + d) as char
}

/// The number denoted by a sequence of decimal digits, most significant first.
pub open spec fn dec_val(s: Seq<char>) -> int
    decreases s.len(),
{
    if s.len() == 0 {
        0
    } else {
        dec_val(s.drop_last()) * 10 + digit_val(s.last())
    }
}

pub open spec fn all_digits(s: Seq<char>) -> bool {
    forall|i: int| 0 <= i < s.len() ==> is_digit(s[i])
}

/// The canonical digits of a nonnegative number: no leading zero except for 0.
pub open spec fn dec_digits(n: int) -> Seq<char>
    decreases n,
{
    if n <= 9 {
        seq![digit_char(n)]
    } else {
        dec_digits(n / 10).push(digit_char(n % 10))
    }
}

/// The canonical decimal rendering of a 64-bit signed integer.
pub open spec fn render_i64(n: int) -> Seq<char> {
    if n < 0 {
        seq!['-'] + dec_digits(-n)
    } else {
        dec_digits(n)
    }
}

/// Whether the characters spell a 64-bit signed integer: an optional sign,
/// then at least one digit, with the magnitude in range.
pub open spec fn is_i64_literal(s: Seq<char>) -> bool {
    let body = if s.len() > 0 && (s[0] == '+' || s[0] == '-') {
        s.subrange(1, s.len() as int)
    } else {
        s
    };
    let neg = s.len() > 0 && s[0] == '-';
    body.len() > 0 && all_digits(body) && (if neg {
        dec_val(body) <= 0x8000_0000_0000_0000
    } else {
        dec_val(body) <= 0x7fff_ffff_ffff_ffff
    })
}

/// The value of a 64-bit signed integer literal.
pub open spec fn i64_literal_val(s: Seq<char>) -> int {
    let body = if s.len() > 0 && (s[0] == '+' || s[0] == '-') {
        s.subrange(1, s.len() as int)
    } else {
        s
    };
    if s.len() > 0 && s[0] == '-' {
        -dec_val(body)
    } else {
        dec_val(body)
    }
}

/// A digit sequence's value never shrinks when more digits follow.
proof fn lemma_dec_val_nonneg(s: Seq<char>)
    requires
        all_digits(s),
    ensures
        dec_val(s) >= 0,
    decreases s.len(),
{
    if s.len() > 0 {
        assert(all_digits(s.drop_last())) by {
            assert(forall|i: int| 0 <= i < s.len() - 1 ==> s.drop_last()[i] == s[i]);
        }
        lemma_dec_val_nonneg(s.drop_last());
    }
}

proof fn lemma_dec_val_prefix(s: Seq<char>, i: int)
    requires
        all_digits(s),
        0 <= i <= s.len(),
    ensures
        dec_val(s) >= dec_val(s.subrange(0, i)),
    decreases s.len() - i,
{
    if i < s.len() {
        lemma_dec_val_prefix(s, i + 1);
        let p = s.subrange(0, i + 1);
        assert(p.drop_last() =~= s.subrange(0, i));
        assert(all_digits(s.subrange(0, i)));
        lemma_dec_val_nonneg(s.subrange(0, i));
        assert(dec_val(p) == dec_val(s.subrange(0, i)) * 10 + digit_val(s[i]));
        assert(digit_val(s[i]) >= 0);
    } else {
        assert(s.subrange(0, i) =~= s);
    }
}

/// Parses a decimal run `v[from..to]` as a nonnegative number, refusing
/// values above `max`.
pub(crate) fn parse_digits_u64(v: &Vec<char>, from: usize, to: usize, max: u64) -> (r: Option<u64>)
    requires
        from <= to <= v@.len(),
        all_digits(v@.subrange(from as int, to as int)),
    ensures
        ({
            let d = v@.subrange(from as int, to as int);
            if dec_val(d) <= max {
                r matches Some(m) && m == dec_val(d)
            } else {
                r is None
            }
        }),
{
    let ghost d = v@.subrange(from as int, to as int);
    let mut acc: u64 = 0;
    let mut i: usize = from;
    while i < to
        invariant
            from <= i <= to <= v@.len(),
            d == v@.subrange(from as int, to as int),
            all_digits(d),
            acc == dec_val(d.subrange(0, i - from)),
            acc <= max,
        decreases to - i,
    {
        let c = v[i];
        proof {
            assert(d[i - from] == c);
        }
        let dv: u64 = (c as u8 - 48) as u64;
        proof {
            assert(d.subrange(0, i + 1 - from).drop_last() =~= d.subrange(0, i - from));
            assert(d.subrange(0, i + 1 - from).last() == c);
        }
        if acc > max / 10 || (acc == max / 10 && dv > max % 10) {
            proof {
                assert(dec_val(d.subrange(0, i + 1 - from)) > max);
                lemma_dec_val_prefix(d, i + 1 - from);
            }
            return None;
        }
        acc = acc * 10 + dv;
        i = i + 1;
    }
    proof {
        assert(d.subrange(0, to - from) =~= d);
    }
    Some(acc)
}

/// Parses the characters as a 64-bit signed integer literal, exactly when
/// they are one.
pub fn parse_i64(v: &Vec<char>) -> (r: Option<i64>)
    ensures
        is_i64_literal(v@) ==> (r matches Some(n) && n as int == i64_literal_val(v@)),
        !is_i64_literal(v@) ==> r is None,
{
    let n = v.len();
    let signed = n > 0 && (v[0] == '+' || v[0] == '-');
    let neg = n > 0 && v[0] == '-';
    let from: usize = if signed {
        1
    } else {
        0
    };
    if n == from {
        return None;
    }
    let mut i: usize = from;
    while i < n
        invariant
            from <= i <= n,
            n == v@.len(),
            signed == (n > 0 && (v@[0] == '+' || v@[0] == '-')),
            neg == (n > 0 && v@[0] == '-'),
            from == if signed {
                1int
            } else {
                0int
            },
            forall|j: int| from <= j < i ==> is_digit(v@[j]),
        decreases n - i,
    {
        let c = v[i];
        if !('0' <= c && c <= '9') {
            proof {
                assert(v@.subrange(from as int, n as int)[i - from] == v@[i as int]);
                assert(!all_digits(v@.subrange(from as int, n as int)));
                if !signed {
                    assert(v@.subrange(0, n as int) =~= v@);
                }
            }
            return None;
        }
        i = i + 1;
    }
    proof {
        assert(all_digits(v@.subrange(from as int, n as int)));
        if !signed {
            assert(v@.subrange(0, n as int) =~= v@);
        }
    }
    let max: u64 = if neg {
        0x8000_0000_0000_0000
    } else {
        0x7fff_ffff_ffff_ffff
    };
    let r = parse_digits_u64(v, from, n, max);
    proof {
        let body = if signed {
            v@.subrange(1, n as int)
        } else {
            v@
        };
        assert(v@.subrange(from as int, n as int) =~= body);
    }
    match r {
        None => None,
        Some(m) => {
            if neg {
                if m == 0x8000_0000_0000_0000 {
                    Some(i64::MIN)
                } else {
                    Some(-(m as i64))
                }
            } else {
                Some(m as i64)
            }
        },
    }
}

/// Appends the canonical decimal digits of `m`.
fn push_dec_digits(s: &mut String, m: u64)
    ensures
        final(s)@ == old(s)@ + dec_digits(m as int),
    decreases m,
{
    if m <= 9 {
        crate::text::push_char(s, (48 + m as u8) as char);
        proof {
            assert(old(s)@.push(digit_char(m as int)) =~= old(s)@ + dec_digits(m as int));
        }
    } else {
        push_dec_digits(s, m / 10);
        crate::text::push_char(s, (48 + (m % 10) as u8) as char);
        proof {
            assert((old(s)@ + dec_digits(m as int / 10)).push(digit_char(m as int % 10)) =~= old(
                s,
            )@ + dec_digits(m as int));
        }
    }
}

/// The canonical decimal rendering of a 64-bit signed integer.
pub fn i64_to_string(n: i64) -> (r: String)
    ensures
        r@ == render_i64(n as int),
{
    let mut s = String::new();
    if n < 0 {
        crate::text::push_char(&mut s, '-');
        let m: u64 = if n == i64::MIN {
            0x8000_0000_0000_0000
        } else {
            (-n) as u64
        };
        push_dec_digits(&mut s, m);
        proof {
            assert(Seq::<char>::empty().push('-') =~= seq!['-']);
            assert(seq!['-'] + dec_digits(m as int) =~= render_i64(n as int));
        }
    } else {
        push_dec_digits(&mut s, n as u64);
        proof {
            assert(Seq::<char>::empty() + dec_digits(n as int) =~= render_i64(n as int));
        }
    }
    s
}

/// The canonical digits of a nonnegative number denote it.
pub proof fn lemma_dec_digits_val(n: int)
    requires
        n >= 0,
    ensures
        all_digits(dec_digits(n)),
        dec_digits(n).len() >= 1,
        dec_val(dec_digits(n)) == n,
    decreases n,
{
    if n <= 9 {
        assert(dec_digits(n).drop_last() =~= Seq::<char>::empty());
        assert(dec_val(Seq::<char>::empty()) == 0);
        assert(0 <= 48 + n <= 57);
        assert(digit_val(digit_char(n)) == n);
        assert(is_digit(digit_char(n)));
    } else {
        lemma_dec_digits_val(n / 10);
        assert(dec_digits(n).drop_last() =~= dec_digits(n / 10));
        assert(is_digit(digit_char(n % 10)));
        assert(digit_val(digit_char(n % 10)) == n % 10);
    }
}

/// The canonical rendering of a 64-bit integer reads back as that integer.
pub proof fn lemma_render_i64_round(n: int)
    requires
        -0x8000_0000_0000_0000 <= n <= 0x7fff_ffff_ffff_ffff,
    ensures
        is_i64_literal(render_i64(n)),
        i64_literal_val(render_i64(n)) == n,
        render_i64(n).len() >= 1,
        is_digit(render_i64(n).last()),
        render_i64(n)[0] == '-' || is_digit(render_i64(n)[0]),
{
    if n >= 0 {
        lemma_dec_digits_val(n);
        let s = render_i64(n);
        assert(is_digit(s[0]));
        assert(s[0] != '+' && s[0] != '-');
        assert(is_digit(s.last()));
    } else {
        lemma_dec_digits_val(-n);
        let s = render_i64(n);
        assert(s[0] == '-');
        assert(s.subrange(1, s.len() as int) =~= dec_digits(-n));
        assert(is_digit(s.last()));
    }
}

pub open spec fn is_hex_digit(c: char) -> bool {
    is_digit(c) || ('a' <= c && c <= 'f') || ('A' <= c && c <= 'F')
}

pub open spec fn hex_digit_val(c: char) -> int {
    if is_digit(c) {
        c as int - 48
    } else if 'a' <= c && c <= 'f' {
        c as int - 87
    } else {
        c as int - 55
    }
}

/// The lowercase character of one hex digit value.
pub open spec fn hex_digit_char(d: int) -> char {
    if d < 10 {
        (48 + d) as char
    } else {
        (87 + d) as char
    }
}

/// The number denoted by a sequence of hex digits, most significant first.
pub open spec fn hex_val(s: Seq<char>) -> int
    decreases s.len(),
{
    if s.len() == 0 {
        0
    } else {
        hex_val(s.drop_last()) * 16 + hex_digit_val(s.last())
    }
}

pub open spec fn all_hex_digits(s: Seq<char>) -> bool {
    forall|i: int| 0 <= i < s.len() ==> is_hex_digit(#[trigger] s[i])
}

/// Whether the characters spell a 64-bit signed integer in base 16, as
/// `i64::from_str_radix` reads it: an optional sign, then at least one hex
/// digit, with the magnitude in range.
pub open spec fn is_hex_i64_literal(s: Seq<char>) -> bool {
    let body = if s.len() > 0 && (s[0] == '+' || s[0] == '-') {
        s.subrange(1, s.len() as int)
    } else {
        s
    };
    let neg = s.len() > 0 && s[0] == '-';
    body.len() > 0 && all_hex_digits(body) && (if neg {
        hex_val(body) <= 0x8000_0000_0000_0000
    } else {
        hex_val(body) <= 0x7fff_ffff_ffff_ffff
    })
}

/// The value of a 64-bit signed hex literal.
pub open spec fn hex_i64_literal_val(s: Seq<char>) -> int {
    let body = if s.len() > 0 && (s[0] == '+' || s[0] == '-') {
        s.subrange(1, s.len() as int)
    } else {
        s
    };
    if s.len() > 0 && s[0] == '-' {
        -hex_val(body)
    } else {
        hex_val(body)
    }
}

proof fn lemma_hex_val_nonneg(s: Seq<char>)
    requires
        all_hex_digits(s),
    ensures
        hex_val(s) >= 0,
    decreases s.len(),
{
    if s.len() > 0 {
        assert(all_hex_digits(s.drop_last())) by {
            assert(forall|i: int| 0 <= i < s.len() - 1 ==> s.drop_last()[i] == s[i]);
        }
        lemma_hex_val_nonneg(s.drop_last());
        assert(hex_digit_val(s.last()) >= 0);
    }
}

proof fn lemma_hex_val_prefix(s: Seq<char>, i: int)
    requires
        all_hex_digits(s),
        0 <= i <= s.len(),
    ensures
        hex_val(s) >= hex_val(s.subrange(0, i)),
    decreases s.len() - i,
{
    if i < s.len() {
        lemma_hex_val_prefix(s, i + 1);
        let p = s.subrange(0, i + 1);
        assert(p.drop_last() =~= s.subrange(0, i));
        assert(all_hex_digits(s.subrange(0, i)));
        lemma_hex_val_nonneg(s.subrange(0, i));
        assert(hex_val(p) == hex_val(s.subrange(0, i)) * 16 + hex_digit_val(s[i]));
        assert(hex_digit_val(s[i]) >= 0);
    } else {
        assert(s.subrange(0, i) =~= s);
    }
}

/// Parses a hex-digit run `v[from..to]` as a nonnegative number, refusing
/// values above `max`.
fn parse_hex_digits_u64(v: &Vec<char>, from: usize, to: usize, max: u64) -> (r: Option<u64>)
    requires
        from <= to <= v@.len(),
        all_hex_digits(v@.subrange(from as int, to as int)),
    ensures
        ({
            let d = v@.subrange(from as int, to as int);
            if hex_val(d) <= max {
                r matches Some(m) && m == hex_val(d)
            } else {
                r is None
            }
        }),
{
    let ghost d = v@.subrange(from as int, to as int);
    let mut acc: u64 = 0;
    let mut i: usize = from;
    while i < to
        invariant
            from <= i <= to <= v@.len(),
            d == v@.subrange(from as int, to as int),
            all_hex_digits(d),
            acc == hex_val(d.subrange(0, i - from)),
            acc <= max,
        decreases to - i,
    {
        let c = v[i];
        proof {
            assert(d[i - from] == c);
        }
        let dv: u64 = if '0' <= c && c <= '9' {
            (c as u8 - 48) as u64
        } else if 'a' <= c && c <= 'f' {
            (c as u8 - 87) as u64
        } else {
            (c as u8 - 55) as u64
        };
        proof {
            assert(dv == hex_digit_val(c));
            assert(d.subrange(0, i + 1 - from).drop_last() =~= d.subrange(0, i - from));
            assert(d.subrange(0, i + 1 - from).last() == c);
        }
        if acc > max / 16 || (acc == max / 16 && dv > max % 16) {
            proof {
                assert(hex_val(d.subrange(0, i + 1 - from)) > max);
                lemma_hex_val_prefix(d, i + 1 - from);
            }
            return None;
        }
        acc = acc * 16 + dv;
        i = i + 1;
    }
    proof {
        assert(d.subrange(0, to - from) =~= d);
    }
    Some(acc)
}

/// Parses the characters as a signed 64-bit hex literal, exactly when they
/// are one.
pub fn parse_hex_i64(v: &Vec<char>) -> (r: Option<i64>)
    ensures
        is_hex_i64_literal(v@) ==> (r matches Some(n) && n as int == hex_i64_literal_val(v@)),
        !is_hex_i64_literal(v@) ==> r is None,
{
    let n = v.len();
    let signed = n > 0 && (v[0] == '+' || v[0] == '-');
    let neg = n > 0 && v[0] == '-';
    let from: usize = if signed {
        1
    } else {
        0
    };
    if n == from {
        return None;
    }
    let mut i: usize = from;
    while i < n
        invariant
            from <= i <= n,
            n == v@.len(),
            signed == (n > 0 && (v@[0] == '+' || v@[0] == '-')),
            neg == (n > 0 && v@[0] == '-'),
            from == if signed {
                1int
            } else {
                0int
            },
            forall|j: int| from <= j < i ==> is_hex_digit(#[trigger] v@[j]),
        decreases n - i,
    {
        let c = v[i];
        if !(('0' <= c && c <= '9') || ('a' <= c && c <= 'f') || ('A' <= c && c <= 'F')) {
            proof {
                assert(v@.subrange(from as int, n as int)[i - from] == v@[i as int]);
                assert(!all_hex_digits(v@.subrange(from as int, n as int)));
                if !signed {
                    assert(v@.subrange(0, n as int) =~= v@);
                }
            }
            return None;
        }
        i = i + 1;
    }
    proof {
        assert(all_hex_digits(v@.subrange(from as int, n as int)));
        if !signed {
            assert(v@.subrange(0, n as int) =~= v@);
        }
    }
    let max: u64 = if neg {
        0x8000_0000_0000_0000
    } else {
        0x7fff_ffff_ffff_ffff
    };
    let r = parse_hex_digits_u64(v, from, n, max);
    proof {
        let body = if signed {
            v@.subrange(1, n as int)
        } else {
            v@
        };
        assert(v@.subrange(from as int, n as int) =~= body);
    }
    match r {
        None => None,
        Some(m) => {
            if neg {
                if m == 0x8000_0000_0000_0000 {
                    Some(i64::MIN)
                } else {
                    Some(-(m as i64))
                }
            } else {
                Some(m as i64)
            }
        },
    }
}

/// Whether the characters spell an unsigned 128-bit number in base 16, as
/// `u128::from_str_radix` reads it: an optional plus sign, then at least one
/// hex digit, with the value in range.
pub open spec fn is_hex_u128_literal(s: Seq<char>) -> bool {
    let body = if s.len() > 0 && s[0] == '+' {
        s.subrange(1, s.len() as int)
    } else {
        s
    };
    &&& !(s.len() > 0 && s[0] == '-')
    &&& body.len() > 0
    &&& all_hex_digits(body)
    &&& hex_val(body) <= 0xffff_ffff_ffff_ffff_ffff_ffff_ffff_ffff
}

/// The value of an unsigned 128-bit hex literal.
pub open spec fn hex_u128_literal_val(s: Seq<char>) -> int {
    let body = if s.len() > 0 && s[0] == '+' {
        s.subrange(1, s.len() as int)
    } else {
        s
    };
    hex_val(body)
}

/// Parses the characters as an unsigned 128-bit hex literal, exactly when
/// they are one.
pub fn parse_hex_u128(v: &Vec<char>) -> (r: Option<u128>)
    ensures
        is_hex_u128_literal(v@) ==> (r matches Some(n) && n as int == hex_u128_literal_val(v@)),
        !is_hex_u128_literal(v@) ==> r is None,
{
    let n = v.len();
    if n > 0 && v[0] == '-' {
        return None;
    }
    let signed = n > 0 && v[0] == '+';
    let from: usize = if signed {
        1
    } else {
        0
    };
    if n == from {
        return None;
    }
    let mut i: usize = from;
    while i < n
        invariant
            from <= i <= n,
            n == v@.len(),
            signed == (n > 0 && v@[0] == '+'),
            !(n > 0 && v@[0] == '-'),
            from == if signed {
                1int
            } else {
                0int
            },
            forall|j: int| from <= j < i ==> is_hex_digit(#[trigger] v@[j]),
        decreases n - i,
    {
        let c = v[i];
        if !(('0' <= c && c <= '9') || ('a' <= c && c <= 'f') || ('A' <= c && c <= 'F')) {
            proof {
                assert(v@.subrange(from as int, n as int)[i - from] == v@[i as int]);
                assert(!all_hex_digits(v@.subrange(from as int, n as int)));
                if !signed {
                    assert(v@.subrange(0, n as int) =~= v@);
                }
            }
            return None;
        }
        i = i + 1;
    }
    proof {
        assert(all_hex_digits(v@.subrange(from as int, n as int)));
        if !signed {
            assert(v@.subrange(0, n as int) =~= v@);
        }
    }
    let ghost d = v@.subrange(from as int, n as int);
    let mut acc: u128 = 0;
    let mut k: usize = from;
    let max: u128 = 0xffff_ffff_ffff_ffff_ffff_ffff_ffff_ffff;
    while k < n
        invariant
            from <= k <= n,
            n == v@.len(),
            signed == (n > 0 && v@[0] == '+'),
            !(n > 0 && v@[0] == '-'),
            from == if signed {
                1int
            } else {
                0int
            },
            d == v@.subrange(from as int, n as int),
            all_hex_digits(d),
            acc == hex_val(d.subrange(0, k - from)),
            acc <= max,
            max == 0xffff_ffff_ffff_ffff_ffff_ffff_ffff_ffff,
        decreases n - k,
    {
        let c = v[k];
        proof {
            assert(d[k - from] == c);
        }
        let dv: u128 = if '0' <= c && c <= '9' {
            (c as u8 - 48) as u128
        } else if 'a' <= c && c <= 'f' {
            (c as u8 - 87) as u128
        } else {
            (c as u8 - 55) as u128
        };
        proof {
            assert(dv == hex_digit_val(c));
            assert(d.subrange(0, k + 1 - from).drop_last() =~= d.subrange(0, k - from));
            assert(d.subrange(0, k + 1 - from).last() == c);
        }
        if acc > max / 16 || (acc == max / 16 && dv > max % 16) {
            proof {
                assert(hex_val(d.subrange(0, k + 1 - from)) > max);
                lemma_hex_val_prefix(d, k + 1 - from);
                let body = if signed {
                    v@.subrange(1, n as int)
                } else {
                    v@
                };
                assert(v@.subrange(from as int, n as int) =~= body);
            }
            return None;
        }
        acc = acc * 16 + dv;
        k = k + 1;
    }
    proof {
        assert(d.subrange(0, n - from) =~= d);
        let body = if signed {
            v@.subrange(1, n as int)
        } else {
            v@
        };
        assert(v@.subrange(from as int, n as int) =~= body);
    }
    Some(acc)
}

/// The canonical lowercase hex digits of a nonnegative number.
pub open spec fn hex_digits(n: int) -> Seq<char>
    decreases n,
{
    if n <= 15 {
        seq![hex_digit_char(n)]
    } else {
        hex_digits(n / 16).push(hex_digit_char(n % 16))
    }
}

/// The canonical hex digits of a nonnegative number denote it.
pub proof fn lemma_hex_digits_val(n: int)
    requires
        n >= 0,
    ensures
        all_hex_digits(hex_digits(n)),
        hex_digits(n).len() >= 1,
        hex_val(hex_digits(n)) == n,
        forall|i: int| 0 <= i < hex_digits(n).len() ==> #[trigger] hex_digits(n)[i] != ':',
    decreases n,
{
    if n <= 15 {
        assert(hex_digits(n).drop_last() =~= Seq::<char>::empty());
        assert(hex_val(Seq::<char>::empty()) == 0);
        assert(is_hex_digit(hex_digit_char(n)));
        assert(hex_digit_val(hex_digit_char(n)) == n);
        assert(hex_digit_char(n) != ':');
    } else {
        lemma_hex_digits_val(n / 16);
        assert(hex_digits(n).drop_last() =~= hex_digits(n / 16));
        assert(is_hex_digit(hex_digit_char(n % 16)));
        assert(hex_digit_val(hex_digit_char(n % 16)) == n % 16);
        assert(hex_digit_char(n % 16) != ':');
    }
}

/// Appends the canonical lowercase hex digits of `m`.
pub fn push_hex_digits(s: &mut String, m: u64)
    ensures
        final(s)@ == old(s)@ + hex_digits(m as int),
    decreases m,
{
    if m <= 15 {
        let d = m as u8;
        let c = if d < 10 {
            (48 + d) as char
        } else {
            (87 + d) as char
        };
        crate::text::push_char(s, c);
        proof {
            assert(c == hex_digit_char(m as int));
            assert(old(s)@.push(hex_digit_char(m as int)) =~= old(s)@ + hex_digits(m as int));
        }
    } else {
        push_hex_digits(s, m / 16);
        let d = (m % 16) as u8;
        let c = if d < 10 {
            (48 + d) as char
        } else {
            (87 + d) as char
        };
        crate::text::push_char(s, c);
        proof {
            assert(c == hex_digit_char(m as int % 16));
            assert((old(s)@ + hex_digits(m as int / 16)).push(hex_digit_char(m as int % 16)) =~= old(
                s,
            )@ + hex_digits(m as int));
        }
    }
}

/// The number of consecutive decimal digits at and after position `i`.
pub open spec fn digits_run(s: Seq<char>, i: int) -> int
    decreases s.len() - i,
{
    if 0 <= i && i < s.len() && is_digit(s[i]) {
        1 + digits_run(s, i + 1)
    } else {
        0
    }
}

/// Whether `s[i..]` is an exponent part: `e` or `E`, an optional sign, then
/// one or more digits and nothing else.
pub open spec fn is_exp_from(s: Seq<char>, i: int) -> bool {
    &&& i < s.len()
    &&& (s[i] == 'e' || s[i] == 'E')
    &&& {
        let j = if i + 1 < s.len() && (s[i + 1] == '+' || s[i + 1] == '-') {
            i + 2
        } else {
            i + 1
        };
        j < s.len() && digits_run(s, j) == s.len() - j
    }
}

/// Whether `s[i..]` is an unsigned float number: digits, an optional point
/// with more digits, an optional exponent; at least one digit around the
/// point.
pub open spec fn is_number_from(s: Seq<char>, i: int) -> bool {
    let d1 = digits_run(s, i);
    let p = i + d1;
    if p < s.len() && s[p] == '.' {
        let d2 = digits_run(s, p + 1);
        let e = p + 1 + d2;
        d1 + d2 > 0 && (e == s.len() || is_exp_from(s, e))
    } else {
        d1 > 0 && (p == s.len() || is_exp_from(s, p))
    }
}

/// Where the body of a float literal begins: after one optional sign.
pub open spec fn f64_body_start(s: Seq<char>) -> int {
    if s.len() > 0 && (s[0] == '+' || s[0] == '-') {
        1
    } else {
        0
    }
}

/// Whether the characters spell a 64-bit float: an optional sign, then the
/// words `inf`, `infinity` or `nan` in any case, or a number.
pub open spec fn is_f64_literal(s: Seq<char>) -> bool {
    let i = f64_body_start(s);
    let tail = lower_seq(s.subrange(i, s.len() as int));
    tail == "inf"@ || tail == "infinity"@ || tail == "nan"@ || is_number_from(s, i)
}

/// The position where the digit run starting at `from` ends.
fn digits_run_end(v: &Vec<char>, from: usize) -> (r: usize)
    requires
        from <= v@.len(),
    ensures
        from <= r <= v@.len(),
        r - from == digits_run(v@, from as int),
{
    let n = v.len();
    let mut i = from;
    while i < n
        invariant
            from <= i <= n,
            n == v@.len(),
            digits_run(v@, from as int) == (i - from) + digits_run(v@, i as int),
        decreases n - i,
    {
        let c = v[i];
        if !('0' <= c && c <= '9') {
            return i;
        }
        i = i + 1;
    }
    i
}

/// Whether the string, lowercased in ASCII from position `from` on, equals
/// the second string exactly.
fn tail_eq_lowered(v: &Vec<char>, from: usize, t: &str) -> (r: bool)
    requires
        from <= v@.len(),
    ensures
        r == (lower_seq(v@.subrange(from as int, v@.len() as int)) == t@),
{
    let ghost tail = lower_seq(v@.subrange(from as int, v@.len() as int));
    let n = v.len();
    let nt = t.unicode_len();
    if n - from != nt {
        proof {
            assert(tail.len() == n - from);
        }
        return false;
    }
    let mut j: usize = from;
    while j < n
        invariant
            from <= j <= n,
            n == v@.len(),
            from + nt == n,
            nt == t@.len(),
            tail == lower_seq(v@.subrange(from as int, v@.len() as int)),
            tail.len() == nt,
            forall|k: int| 0 <= k < j - from ==> tail[k] == t@[k],
        decreases n - j,
    {
        let i = j - from;
        proof {
            assert(v@.subrange(from as int, v@.len() as int)[j - from] == v@[j as int]);
            assert(tail[j - from] == lower(v@[j as int]));
        }
        if lower_char(v[j]) != t.get_char(i) {
            return false;
        }
        j = j + 1;
    }
    proof {
        assert(tail =~= t@);
    }
    true
}

/// Whether `v[i..]` is an exponent part.
fn is_exp_exec(v: &Vec<char>, i: usize) -> (r: bool)
    requires
        i <= v@.len(),
    ensures
        r == is_exp_from(v@, i as int),
{
    let n = v.len();
    if i >= n {
        return false;
    }
    let c = v[i];
    if !(c == 'e' || c == 'E') {
        return false;
    }
    let j: usize = if i + 1 < n && (v[i + 1] == '+' || v[i + 1] == '-') {
        i + 2
    } else {
        i + 1
    };
    if j >= n {
        return false;
    }
    let e = digits_run_end(v, j);
    e == n
}

/// Decides the float-literal grammar.
pub fn is_f64_lit(v: &Vec<char>) -> (r: bool)
    ensures
        r == is_f64_literal(v@),
{
    let n = v.len();
    let from: usize = if n > 0 && (v[0] == '+' || v[0] == '-') {
        1
    } else {
        0
    };
    proof {
        assert(from == f64_body_start(v@));
    }
    if tail_eq_lowered(v, from, "inf") || tail_eq_lowered(v, from, "infinity") || tail_eq_lowered(
        v,
        from,
        "nan",
    ) {
        return true;
    }
    let d1e = digits_run_end(v, from);
    if d1e < n && v[d1e] == '.' {
        let d2e = digits_run_end(v, d1e + 1);
        if d1e == from && d2e == d1e + 1 {
            return false;
        }
        if d2e == n {
            return true;
        }
        is_exp_exec(v, d2e)
    } else {
        if d1e == from {
            return false;
        }
        if d1e == n {
            return true;
        }
        is_exp_exec(v, d1e)
    }
}

} // verus!
