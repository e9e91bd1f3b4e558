use falcon_bms_callbacker::keys::{convert_number, key_number_of, parse_key_code, parse_modifiers, Key, Modifier};
use falcon_bms_callbacker::text::{parse_i64, parse_u32_radix, split_words, trimmed};

fn chars(s: &str) -> Vec<char> {
    s.chars().collect()
}

#[test]
fn numbers_in_hex_and_decimal() {
    assert_eq!(convert_number("0x1C"), 28);
    assert_eq!(convert_number("0X1c"), 28);
    assert_eq!(convert_number("28"), 28);
    assert_eq!(convert_number("+28"), 28);
    assert_eq!(convert_number("0x0x1c"), 28);
    assert_eq!(convert_number("0XFFFFFFFF"), 0xFFFF);
    assert_eq!(convert_number("0x10001"), 1);
    assert_eq!(convert_number("65535"), 65535);
    assert_eq!(convert_number("0"), 0);
}

#[test]
fn numbers_that_are_not() {
    assert_eq!(key_number_of(&chars("65536")), None);
    assert_eq!(key_number_of(&chars("0x")), None);
    assert_eq!(key_number_of(&chars("0x100000000")), None);
    assert_eq!(key_number_of(&chars("-1")), None);
    assert_eq!(key_number_of(&chars("")), None);
    assert_eq!(key_number_of(&chars("1c")), None);
    assert_eq!(key_number_of(&chars("0x1g")), None);
}

#[test]
fn key_codes() {
    assert_eq!(parse_key_code(0), Key::Other(0));
    assert_eq!(parse_key_code(0xFFFF), Key::Other(0));
    assert_eq!(parse_key_code(1), Key::Escape);
    assert_eq!(parse_key_code(37), Key::L);
    assert_eq!(parse_key_code(38), Key::L);
    assert_eq!(parse_key_code(43), Key::Unicode('\\'));
    assert_eq!(parse_key_code(200), Key::UpArrow);
    assert_eq!(parse_key_code(221), Key::Apps);
}

#[test]
fn modifiers_from_bits() {
    assert_eq!(parse_modifiers(0), vec![]);
    assert_eq!(parse_modifiers(1), vec![Modifier::LSHIFT]);
    assert_eq!(parse_modifiers(2), vec![Modifier::LCONTROL]);
    assert_eq!(parse_modifiers(4), vec![Modifier::LALT]);
    assert_eq!(parse_modifiers(6), vec![Modifier::LCONTROL, Modifier::LALT]);
    assert_eq!(parse_modifiers(7), vec![Modifier::LSHIFT, Modifier::LCONTROL, Modifier::LALT]);
    assert_eq!(parse_modifiers(8), vec![]);
    assert_eq!(parse_modifiers(15), parse_modifiers(7));
}

#[test]
fn signed_integers() {
    assert_eq!(parse_i64(&chars("0")), Some(0));
    assert_eq!(parse_i64(&chars("-0")), Some(0));
    assert_eq!(parse_i64(&chars("+17")), Some(17));
    assert_eq!(parse_i64(&chars("-1")), Some(-1));
    assert_eq!(parse_i64(&chars("-9223372036854775808")), Some(i64::MIN));
    assert_eq!(parse_i64(&chars("9223372036854775807")), Some(i64::MAX));
    assert_eq!(parse_i64(&chars("9223372036854775808")), None);
    assert_eq!(parse_i64(&chars("-")), None);
    assert_eq!(parse_i64(&chars("")), None);
    assert_eq!(parse_i64(&chars("1x")), None);
}

#[test]
fn unsigned_in_radix() {
    assert_eq!(parse_u32_radix(&chars("ff"), 16), Some(255));
    assert_eq!(parse_u32_radix(&chars("FF"), 16), Some(255));
    assert_eq!(parse_u32_radix(&chars("+10"), 10), Some(10));
    assert_eq!(parse_u32_radix(&chars("4294967295"), 10), Some(u32::MAX));
    assert_eq!(parse_u32_radix(&chars("4294967296"), 10), None);
    assert_eq!(parse_u32_radix(&chars("+"), 10), None);
    assert_eq!(parse_u32_radix(&chars("-1"), 10), None);
}

#[test]
fn words_and_trimming() {
    let w = split_words(&chars("  a bc\t\td  \u{3000}e "));
    assert_eq!(w, vec![chars("a"), chars("bc"), chars("d"), chars("e")]);
    assert!(split_words(&chars(" \t ")).is_empty());
    assert_eq!(trimmed(&chars(" \t x y \n")), chars("x y"));
    assert_eq!(trimmed(&chars("   ")), chars(""));
}

#[test]
fn printed_numbers_read_back() {
    for n in [0u16, 1, 9, 10, 28, 200, 255, 4096, 0xABCD, 65535] {
        assert_eq!(convert_number(&n.to_string()), n);
        assert_eq!(convert_number(&format!("0x{:x}", n)), n);
        assert_eq!(convert_number(&format!("0X{:X}", n)), n);
    }
    for v in [0x12345u32, 0x11170, 0xFFFF_FFFF, 0x1_0000] {
        assert_eq!(convert_number(&format!("0x{:x}", v)), (v & 0xFFFF) as u16);
    }
}

#[test]
fn known_key_codes_only() {
    for code in [54u16, 56, 84, 184, 1000] {
        assert_eq!(falcon_bms_callbacker::keys::lookup_key_code(code), None);
    }
    for code in [0u16, 53, 55, 57, 83, 102, 221, 0xFFFF] {
        assert!(falcon_bms_callbacker::keys::lookup_key_code(code).is_some());
    }
}
