//! The text obfuscation codec: a reversible transform packing arbitrary byte
//! text into the restricted alphabet `0`..`9`, `:`, `;`, `<`, `=`, `>`, `?`
//! that the vendor schema accepts in its comment field.
//!
//! Each input byte becomes two characters: its two hex digits, swapped (low
//! nibble first), with the digits `a`..`f` shifted down by 39 positions into
//! `:`..`?`. Every byte is padded to exactly two digits, so decoding two
//! characters at a time inverts encoding for every byte value.
use vstd::prelude::*;

use crate::ini::{IniError, IniResult};
use crate::lit::{hex_digit_char, hex_val, is_hex_i64_literal, hex_i64_literal_val, parse_hex_i64};
use crate::text::{chars_to_string, push_char, string_to_chars};

verus! {

/// The character that stands for one nibble: the sixteen values map to the
/// contiguous characters 48..63, that is `0`..`9` then `:`..`?`.
pub open spec fn enc_digit(d: int) -> char {
    (48 + d) as char
}

/// The two characters of one byte: low nibble first.
pub open spec fn encode_byte(b: int) -> Seq<char> {
    seq![enc_digit(b % 16), enc_digit(b / 16)]
}

/// The encoding of a byte text, two characters per byte.
pub open spec fn spec_encode(s: Seq<char>) -> Seq<char>
    decreases s.len(),
{
    if s.len() == 0 {
        Seq::empty()
    } else {
        encode_byte(s[0] as int) + spec_encode(s.drop_first())
    }
}

/// A character of the codec alphabet.
pub open spec fn valid_enc_char(c: char) -> bool {
    48 <= c as int <= 63
}

/// The byte a pair of alphabet characters denotes: the first character is
/// the low nibble.
pub open spec fn decode_pair(c1: char, c2: char) -> char {
    ((c2 as int - 48) * 16 + (c1 as int - 48)) as char
}

/// The decoding of an encoded text: defined only for inputs of even length
/// whose characters all lie in the alphabet.
pub open spec fn spec_decode(s: Seq<char>) -> Option<Seq<char>>
    decreases s.len(),
{
    if s.len() == 0 {
        Some(Seq::empty())
    } else if s.len() == 1 {
        None
    } else if !valid_enc_char(s[0]) || !valid_enc_char(s[1]) {
        None
    } else {
        match spec_decode(s.subrange(2, s.len() as int)) {
            None => None,
            Some(r) => Some(seq![decode_pair(s[0], s[1])] + r),
        }
    }
}

/// Whether every character of the text is a byte value.
pub open spec fn all_byte_chars(s: Seq<char>) -> bool {
    forall|i: int| 0 <= i < s.len() ==> 0 <= (#[trigger] s[i] as int) < 256
}

/// Encodes arbitrary byte text into the vendor alphabet; a character beyond
/// one byte fails with `Codec`.
pub fn encode_comment(s: &str) -> (r: IniResult<String>)
    ensures
        all_byte_chars(s@) ==> (r matches Ok(e) && e@ == spec_encode(s@)),
        !all_byte_chars(s@) ==> r == IniResult::<String>::Err(IniError::Codec),
{
    let v = string_to_chars(s);
    let n = v.len();
    let mut out = String::new();
    let mut i: usize = 0;
    proof {
        assert(s@.subrange(0, 0) =~= Seq::<char>::empty());
    }
    while i < n
        invariant
            i <= n,
            n == v@.len(),
            v@ == s@,
            out@ == spec_encode(s@.subrange(0, i as int)),
            all_byte_chars(s@.subrange(0, i as int)),
        decreases n - i,
    {
        let c = v[i];
        if c > '\u{00ff}' {
            proof {
                assert('\u{00ff}' as int == 255);
                assert(s@[i as int] as int > 255);
            }
            return Err(IniError::Codec);
        }
        let u = crate::text::byte_of_char(c);
        let lo = u % 16;
        let hi = u / 16;
        push_char(&mut out, (48 + lo) as char);
        push_char(&mut out, (48 + hi) as char);
        proof {
            let p = s@.subrange(0, (i + 1) as int);
            assert(p.drop_first() =~= s@.subrange(1, (i + 1) as int));
            lemma_encode_snoc(s@, i as int);
            assert((48 + lo) as char == enc_digit(s@[i as int] as int % 16));
            assert((48 + hi) as char == enc_digit(s@[i as int] as int / 16));
            assert(out@ =~= spec_encode(s@.subrange(0, i as int)) + encode_byte(
                s@[i as int] as int,
            ));
        }
        i = i + 1;
    }
    proof {
        assert(s@.subrange(0, n as int) =~= s@);
    }
    Ok(out)
}

/// Encoding one more byte appends its pair.
proof fn lemma_encode_snoc(s: Seq<char>, i: int)
    requires
        0 <= i < s.len(),
    ensures
        spec_encode(s.subrange(0, i + 1)) == spec_encode(s.subrange(0, i)) + encode_byte(
            s[i] as int,
        ),
    decreases i,
{
    if i == 0 {
        let p = s.subrange(0, 1);
        assert(p[0] == s[0]);
        assert(p.drop_first() =~= Seq::<char>::empty());
        assert(spec_encode(Seq::<char>::empty()) == Seq::<char>::empty());
        assert(spec_encode(p) == encode_byte(s[0] as int) + Seq::<char>::empty());
        assert(s.subrange(0, 0) =~= Seq::<char>::empty());
        assert(encode_byte(s[0] as int) + Seq::<char>::empty() =~= Seq::<char>::empty()
            + encode_byte(s[0] as int));
    } else {
        let p = s.subrange(0, i + 1);
        let q = s.subrange(0, i);
        assert(p.drop_first() =~= s.subrange(1, i + 1));
        assert(q.drop_first() =~= s.subrange(1, i));
        let t = s.subrange(1, s.len() as int);
        assert(s.subrange(1, i + 1) =~= t.subrange(0, i));
        assert(s.subrange(1, i) =~= t.subrange(0, i - 1));
        lemma_encode_snoc(t, i - 1);
        assert(t[i - 1] == s[i]);
        assert(spec_encode(p) == encode_byte(s[0] as int) + spec_encode(t.subrange(0, i)));
        assert(spec_encode(q) == encode_byte(s[0] as int) + spec_encode(t.subrange(0, i - 1)));
        assert(encode_byte(s[0] as int) + (spec_encode(t.subrange(0, i - 1)) + encode_byte(
            s[i] as int,
        )) =~= (encode_byte(s[0] as int) + spec_encode(t.subrange(0, i - 1))) + encode_byte(
            s[i] as int,
        ));
    }
}

/// Decodes a text of the vendor alphabet back into byte text; an odd length
/// or a character outside the alphabet fails with `Codec`.
pub fn decode_comment(s: &str) -> (r: IniResult<String>)
    ensures
        spec_decode(s@) matches Some(d) ==> (r matches Ok(t) && t@ == d),
        spec_decode(s@) is None ==> r == IniResult::<String>::Err(IniError::Codec),
{
    let v = string_to_chars(s);
    let n = v.len();
    let mut out = String::new();
    let mut i: usize = 0;
    proof {
        assert(s@.subrange(0, n as int) =~= s@);
        match spec_decode(s@) {
            Some(whole) => {
                assert(whole =~= Seq::<char>::empty() + whole);
            },
            None => {},
        }
    }
    while i < n
        invariant
            i <= n,
            n == v@.len(),
            v@ == s@,
            ({
                let rest = spec_decode(s@.subrange(i as int, n as int));
                match spec_decode(s@) {
                    Some(whole) => rest matches Some(rd) && whole == out@ + rd,
                    None => rest is None,
                }
            }),
        decreases n - i,
    {
        let ghost sub = s@.subrange(i as int, n as int);
        if i + 1 >= n {
            proof {
                assert(sub.len() == 1);
            }
            return Err(IniError::Codec);
        }
        let c1 = v[i];
        let c2 = v[i + 1];
        proof {
            assert(sub[0] == s@[i as int]);
            assert(sub[1] == s@[i as int + 1]);
            assert('0' as int == 48 && '?' as int == 63);
        }
        if !('0' <= c1 && c1 <= '?') || !('0' <= c2 && c2 <= '?') {
            proof {
                assert(!valid_enc_char(sub[0]) || !valid_enc_char(sub[1]));
            }
            return Err(IniError::Codec);
        }
        let b1 = crate::text::byte_of_char(c1);
        let b2 = crate::text::byte_of_char(c2);
        let b: u8 = (b2 - 48) * 16 + (b1 - 48);
        push_char(&mut out, b as char);
        proof {
            assert(b as char == decode_pair(sub[0], sub[1]));
            assert(sub.subrange(2, sub.len() as int) =~= s@.subrange((i + 2) as int, n as int));
            match spec_decode(s@) {
                Some(whole) => {
                    let rd = spec_decode(sub)->Some_0;
                    let rd2 = spec_decode(s@.subrange((i + 2) as int, n as int))->Some_0;
                    assert(rd == seq![decode_pair(sub[0], sub[1])] + rd2);
                    assert(out@ =~= (out@.drop_last()) + seq![decode_pair(sub[0], sub[1])]);
                    assert(whole =~= out@ + rd2);
                },
                None => {},
            }
        }
        i = i + 2;
    }
    proof {
        assert(s@.subrange(n as int, n as int) =~= Seq::<char>::empty());
        assert(spec_decode(Seq::<char>::empty()) == Some(Seq::<char>::empty()));
        match spec_decode(s@) {
            Some(whole) => {
                assert(whole =~= out@);
            },
            None => {},
        }
    }
    Ok(out)
}

/// Decoding inverts encoding on every byte text.
pub proof fn lemma_codec_round_trip(s: Seq<char>)
    requires
        all_byte_chars(s),
    ensures
        spec_decode(spec_encode(s)) == Some(s),
    decreases s.len(),
{
    if s.len() == 0 {
        assert(spec_encode(s) =~= Seq::<char>::empty());
    } else {
        let b = s[0] as int;
        let e = spec_encode(s);
        let eb = encode_byte(b);
        assert(e == eb + spec_encode(s.drop_first()));
        assert(e[0] == enc_digit(b % 16));
        assert(e[1] == enc_digit(b / 16));
        assert(0 <= b % 16 < 16);
        assert(0 <= b / 16 < 16);
        assert(valid_enc_char(e[0]));
        assert(valid_enc_char(e[1]));
        assert(e.subrange(2, e.len() as int) =~= spec_encode(s.drop_first()));
        assert(all_byte_chars(s.drop_first())) by {
            assert(forall|i: int| 0 <= i < s.len() - 1 ==> s.drop_first()[i] == s[i + 1]);
        }
        lemma_codec_round_trip(s.drop_first());
        assert(decode_pair(e[0], e[1]) == s[0]) by {
            assert(enc_digit(b % 16) as int == 48 + b % 16);
            assert(enc_digit(b / 16) as int == 48 + b / 16);
            assert((b / 16) * 16 + b % 16 == b);
            assert(decode_pair(e[0], e[1]) == b as char);
        }
        assert(seq![s[0]] + s.drop_first() =~= s);
    }
}

/// Remaps the characters `:`..`?` (58..63) up by 39 into `a`..`f`,
/// leaving every other character unchanged.
pub open spec fn fix_char(c: char) -> char {
    if 58 <= c as int <= 63 {
        (c as int + 39) as char
    } else {
        c
    }
}

/// Remaps the characters `a`..`f` (97..102) down by 39 into `:`..`?`,
/// leaving every other character unchanged.
pub open spec fn unfix_char(c: char) -> char {
    if 97 <= c as int <= 102 {
        (c as int - 39) as char
    } else {
        c
    }
}

/// Turns codec alphabet text into plain lowercase hex text.
pub fn fix_comment_hex(hex_str: &str) -> (r: String)
    ensures
        r@ == Seq::new(hex_str@.len(), |i: int| fix_char(hex_str@[i])),
{
    let v = string_to_chars(hex_str);
    let n = v.len();
    let mut out = String::new();
    let mut i: usize = 0;
    while i < n
        invariant
            i <= n,
            n == v@.len(),
            v@ == hex_str@,
            out@ == Seq::new(i as nat, |j: int| fix_char(hex_str@[j])),
        decreases n - i,
    {
        let c = v[i];
        let u = c as u32;
        let mapped: char = if 58 <= u && u <= 63 {
            ((u + 39) as u8) as char
        } else {
            c
        };
        proof {
            assert(mapped == fix_char(hex_str@[i as int]));
        }
        push_char(&mut out, mapped);
        proof {
            assert(out@ =~= Seq::new((i + 1) as nat, |j: int| fix_char(hex_str@[j])));
        }
        i = i + 1;
    }
    proof {
        assert(out@ =~= Seq::new(hex_str@.len(), |j: int| fix_char(hex_str@[j])));
    }
    out
}

/// Turns plain lowercase hex text into codec alphabet text.
pub fn unfix_comment_hex(hex_str: &str) -> (r: String)
    ensures
        r@ == Seq::new(hex_str@.len(), |i: int| unfix_char(hex_str@[i])),
{
    let v = string_to_chars(hex_str);
    let n = v.len();
    let mut out = String::new();
    let mut i: usize = 0;
    while i < n
        invariant
            i <= n,
            n == v@.len(),
            v@ == hex_str@,
            out@ == Seq::new(i as nat, |j: int| unfix_char(hex_str@[j])),
        decreases n - i,
    {
        let c = v[i];
        let u = c as u32;
        let mapped: char = if 97 <= u && u <= 102 {
            ((u - 39) as u8) as char
        } else {
            c
        };
        proof {
            assert(mapped == unfix_char(hex_str@[i as int]));
        }
        push_char(&mut out, mapped);
        proof {
            assert(out@ =~= Seq::new((i + 1) as nat, |j: int| unfix_char(hex_str@[j])));
        }
        i = i + 1;
    }
    proof {
        assert(out@ =~= Seq::new(hex_str@.len(), |j: int| unfix_char(hex_str@[j])));
    }
    out
}

/// Moves the first character to the end: on a two-character hex pair this
/// swaps the nibbles.
pub fn swap_hex(hex_str: &str) -> (r: String)
    requires
        hex_str@.len() >= 1,
    ensures
        r@ == hex_str@.subrange(1, hex_str@.len() as int) + hex_str@.subrange(0, 1),
{
    let v = string_to_chars(hex_str);
    let n = v.len();
    let tail = crate::text::subvec(&v, 1, n);
    let mut out = chars_to_string(&tail);
    push_char(&mut out, v[0]);
    proof {
        assert(out@ =~= hex_str@.subrange(1, hex_str@.len() as int) + hex_str@.subrange(0, 1));
    }
    out
}

/// The hex value of a codec alphabet pair: the substitution undone, the
/// nibbles swapped back, the result read as hex.
pub open spec fn spec_comment_hex_to_int(s: Seq<char>) -> Option<int> {
    let fixed = Seq::new(s.len(), |i: int| fix_char(s[i]));
    let swapped = fixed.subrange(1, fixed.len() as int) + fixed.subrange(0, 1);
    if s.len() >= 1 && is_hex_i64_literal(swapped) {
        Some(hex_i64_literal_val(swapped))
    } else {
        None
    }
}

/// Reads one encoded pair as its byte value; `None` on malformed hex.
pub fn comment_hex_to_int(hex_str: &str) -> (r: Option<i64>)
    ensures
        r matches Some(n) ==> spec_comment_hex_to_int(hex_str@) == Some(n as int),
        r is None ==> spec_comment_hex_to_int(hex_str@) is None,
{
    let fixed = fix_comment_hex(hex_str);
    if fixed.as_str().unicode_len() == 0 {
        return None;
    }
    let swapped = swap_hex(fixed.as_str());
    let sv = string_to_chars(swapped.as_str());
    parse_hex_i64(&sv)
}

} // verus!
