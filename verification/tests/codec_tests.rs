use shiitake_server::codec::{
    comment_hex_to_int, decode_comment, encode_comment, fix_comment_hex, swap_hex,
    unfix_comment_hex,
};
use shiitake_server::ini::IniError;

#[test]
fn encode_then_decode_returns_a() {
    let encoded = encode_comment("A").unwrap();
    assert_eq!(encoded, "14");
    assert_eq!(decode_comment(&encoded).unwrap(), "A");
}

#[test]
fn codec_round_trip_many_bytes() {
    let mut s = String::new();
    s.push('\u{01}');
    s.push('\u{0f}');
    s.push('\u{10}');
    s.push_str("Hello, world! 0123 ~");
    s.push('\u{ff}');
    let encoded = encode_comment(&s).unwrap();
    assert_eq!(decode_comment(&encoded).unwrap(), s);
}

#[test]
fn encode_stays_in_alphabet() {
    let encoded = encode_comment("hello world").unwrap();
    for c in encoded.chars() {
        assert!(('0'..='9').contains(&c) || (':'..='?').contains(&c));
    }
}

#[test]
fn encode_rejects_wide_characters() {
    assert_eq!(encode_comment("caf\u{0100}"), Err(IniError::Codec));
}

#[test]
fn decode_rejects_odd_length() {
    assert_eq!(decode_comment("1"), Err(IniError::Codec));
    assert_eq!(decode_comment("141"), Err(IniError::Codec));
}

#[test]
fn decode_rejects_foreign_characters() {
    assert_eq!(decode_comment("zz"), Err(IniError::Codec));
    assert_eq!(decode_comment("1Z"), Err(IniError::Codec));
}

#[test]
fn decode_empty_is_empty() {
    assert_eq!(decode_comment("").unwrap(), "");
    assert_eq!(encode_comment("").unwrap(), "");
}

#[test]
fn component_transforms() {
    // 'a' is 0x61: hex "61", swapped "16", substitution leaves digits alone
    assert_eq!(encode_comment("a").unwrap(), "16");
    assert_eq!(swap_hex("61"), "16");
    assert_eq!(unfix_comment_hex("ab"), ":;");
    assert_eq!(fix_comment_hex(":;"), "ab");
    // decoding one pair: fix, swap back, read as hex
    assert_eq!(comment_hex_to_int("16"), Some(0x61));
    // 0xAB encodes as the pair ";:" read back to 171
    let enc = encode_comment("\u{ab}").unwrap();
    assert_eq!(comment_hex_to_int(&enc), Some(0xab));
    assert_eq!(comment_hex_to_int(""), None);
}
