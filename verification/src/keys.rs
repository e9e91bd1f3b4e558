//! Keys, modifiers and the numbers by which a key file names them.
use vstd::prelude::*;

use crate::text::{
    chars_of, decimal_digits, digit_of, is_numeral, lemma_decimal_digits_radix,
    lemma_quotient_smaller, lemma_radix_digits, parse_integer, parse_u32_radix, parse_u32_spec,
    radix_digit_char, radix_digits,
};

verus! {

/// A modifier key held while a key is struck.
#[allow(non_camel_case_types)]
#[derive(Debug, Clone, Copy, PartialEq, Eq, Structural)]
pub enum Modifier {
    LSHIFT,
    LCONTROL,
    LALT,
}

/// A key of the keyboard, as a key file's scan codes name it.
#[derive(Debug, Clone, Copy, PartialEq, Eq, Structural)]
pub enum Key {
    /// A key known only by its raw code.
    Other(u32),
    Escape,
    Num1,
    Num2,
    Num3,
    Num4,
    Num5,
    Num6,
    Num7,
    Num8,
    Num9,
    Num0,
    /// The key that types this character.
    Unicode(char),
    Backspace,
    Tab,
    Q,
    W,
    E,
    R,
    T,
    Y,
    U,
    I,
    O,
    P,
    Return,
    LControl,
    A,
    S,
    D,
    F,
    G,
    H,
    J,
    L,
    LShift,
    Z,
    X,
    C,
    V,
    B,
    N,
    M,
    Multiply,
    Space,
    CapsLock,
    F1,
    F2,
    F3,
    F4,
    F5,
    F6,
    F7,
    F8,
    F9,
    F10,
    Numlock,
    Scroll,
    Numpad7,
    Numpad8,
    Numpad9,
    Subtract,
    Numpad4,
    Numpad5,
    Numpad6,
    Add,
    Numpad1,
    Numpad2,
    Numpad3,
    Numpad0,
    Decimal,
    F11,
    F12,
    F13,
    F14,
    F15,
    Separator,
    RControl,
    Divide,
    PrintScr,
    Home,
    UpArrow,
    PageUp,
    LeftArrow,
    RightArrow,
    End,
    DownArrow,
    PageDown,
    Insert,
    Delete,
    LWin,
    RWin,
    Apps,
    NumpadEnter,
}

/// The key that a key file's scan code stands for, where the code is one
/// that key files use.
pub open spec fn key_for_code(code: u16) -> Option<Key> {
    match code {
        0 => Some(Key::Other(0)),
        0xFFFF => Some(Key::Other(0)),
        1 => Some(Key::Escape),
        2 => Some(Key::Num1),
        3 => Some(Key::Num2),
        4 => Some(Key::Num3),
        5 => Some(Key::Num4),
        6 => Some(Key::Num5),
        7 => Some(Key::Num6),
        8 => Some(Key::Num7),
        9 => Some(Key::Num8),
        10 => Some(Key::Num9),
        11 => Some(Key::Num0),
        12 => Some(Key::Unicode('-')),
        13 => Some(Key::Unicode('=')),
        14 => Some(Key::Backspace),
        15 => Some(Key::Tab),
        16 => Some(Key::Q),
        17 => Some(Key::W),
        18 => Some(Key::E),
        19 => Some(Key::R),
        20 => Some(Key::T),
        21 => Some(Key::Y),
        22 => Some(Key::U),
        23 => Some(Key::I),
        24 => Some(Key::O),
        25 => Some(Key::P),
        26 => Some(Key::Unicode('[')),
        27 => Some(Key::Unicode(']')),
        28 => Some(Key::Return),
        29 => Some(Key::LControl),
        30 => Some(Key::A),
        31 => Some(Key::S),
        32 => Some(Key::D),
        33 => Some(Key::F),
        34 => Some(Key::G),
        35 => Some(Key::H),
        36 => Some(Key::J),
        37 => Some(Key::L),
        38 => Some(Key::L),
        39 => Some(Key::Unicode(';')),
        40 => Some(Key::Unicode('\'')),
        41 => Some(Key::Unicode('`')),
        42 => Some(Key::LShift),
        43 => Some(Key::Unicode('\\')),
        44 => Some(Key::Z),
        45 => Some(Key::X),
        46 => Some(Key::C),
        47 => Some(Key::V),
        48 => Some(Key::B),
        49 => Some(Key::N),
        50 => Some(Key::M),
        51 => Some(Key::Unicode(',')),
        52 => Some(Key::Unicode('.')),
        53 => Some(Key::Unicode('/')),
        55 => Some(Key::Multiply),
        57 => Some(Key::Space),
        58 => Some(Key::CapsLock),
        59 => Some(Key::F1),
        60 => Some(Key::F2),
        61 => Some(Key::F3),
        62 => Some(Key::F4),
        63 => Some(Key::F5),
        64 => Some(Key::F6),
        65 => Some(Key::F7),
        66 => Some(Key::F8),
        67 => Some(Key::F9),
        68 => Some(Key::F10),
        69 => Some(Key::Numlock),
        70 => Some(Key::Scroll),
        71 => Some(Key::Numpad7),
        72 => Some(Key::Numpad8),
        73 => Some(Key::Numpad9),
        74 => Some(Key::Subtract),
        75 => Some(Key::Numpad4),
        76 => Some(Key::Numpad5),
        77 => Some(Key::Numpad6),
        78 => Some(Key::Add),
        79 => Some(Key::Numpad1),
        80 => Some(Key::Numpad2),
        81 => Some(Key::Numpad3),
        82 => Some(Key::Numpad0),
        83 => Some(Key::Decimal),
        87 => Some(Key::F11),
        88 => Some(Key::F12),
        100 => Some(Key::F13),
        101 => Some(Key::F14),
        102 => Some(Key::F15),
        156 => Some(Key::Separator),
        157 => Some(Key::RControl),
        181 => Some(Key::Divide),
        183 => Some(Key::PrintScr),
        199 => Some(Key::Home),
        200 => Some(Key::UpArrow),
        201 => Some(Key::PageUp),
        203 => Some(Key::LeftArrow),
        205 => Some(Key::RightArrow),
        207 => Some(Key::End),
        208 => Some(Key::DownArrow),
        209 => Some(Key::PageDown),
        210 => Some(Key::Insert),
        211 => Some(Key::Delete),
        219 => Some(Key::LWin),
        220 => Some(Key::RWin),
        221 => Some(Key::Apps),
        _ => None,
    }
}

/// The scan codes that name a key: 0 and `0xFFFF` (no key), 1 to 53, 55,
/// 57 to 83, 87, 88, 100 to 102, and a list of codes of the extended keys.
pub proof fn lemma_known_key_codes(code: u16)
    ensures
        key_for_code(code) is Some <==> (code == 0 || code == 0xFFFF || (1 <= code <= 53) || code
            == 55 || (57 <= code <= 83) || code == 87 || code == 88 || (100 <= code <= 102) || code
            == 156 || code == 157 || code == 181 || code == 183 || code == 199 || code == 200 || code
            == 201 || code == 203 || code == 205 || code == 207 || code == 208 || code == 209 || code
            == 210 || code == 211 || code == 219 || code == 220 || code == 221),
{
}

/// The number row of the keyboard, left to right: `1` to `9`, then `0`.
pub open spec fn number_row() -> Seq<Key> {
    seq![
        Key::Num1,
        Key::Num2,
        Key::Num3,
        Key::Num4,
        Key::Num5,
        Key::Num6,
        Key::Num7,
        Key::Num8,
        Key::Num9,
        Key::Num0,
    ]
}

/// The top row of letters, left to right.
pub open spec fn top_letter_row() -> Seq<Key> {
    seq![Key::Q, Key::W, Key::E, Key::R, Key::T, Key::Y, Key::U, Key::I, Key::O, Key::P]
}

/// The middle row of letters, left to right, up to `J`.
pub open spec fn home_letter_row() -> Seq<Key> {
    seq![Key::A, Key::S, Key::D, Key::F, Key::G, Key::H, Key::J]
}

/// The bottom row of letters, left to right.
pub open spec fn bottom_letter_row() -> Seq<Key> {
    seq![Key::Z, Key::X, Key::C, Key::V, Key::B, Key::N, Key::M]
}

/// The function keys `F1` to `F10`.
pub open spec fn function_keys() -> Seq<Key> {
    seq![
        Key::F1,
        Key::F2,
        Key::F3,
        Key::F4,
        Key::F5,
        Key::F6,
        Key::F7,
        Key::F8,
        Key::F9,
        Key::F10,
    ]
}

/// The scan codes of a key file number the keys of each keyboard row one
/// after the other: the number row from 2, the top letter row from 16, the
/// middle letter row from 30 (to `J`; both 37 and 38 name `L`, as key files
/// have it), the bottom letter row from 44, `F1` to `F10` from 59, then `F11`
/// and `F12` at 87 and 88; escape is 1, and the arrows are 200 (up), 203
/// (left), 205 (right) and 208 (down).
pub proof fn lemma_scan_codes_follow_keyboard_rows()
    ensures
        forall|i: int| 0 <= i < 10 ==> key_for_code((2 + i) as u16) == Some(number_row()[i]),
        forall|i: int| 0 <= i < 10 ==> key_for_code((16 + i) as u16) == Some(top_letter_row()[i]),
        forall|i: int| 0 <= i < 7 ==> key_for_code((30 + i) as u16) == Some(home_letter_row()[i]),
        key_for_code(37) == Some(Key::L),
        key_for_code(38) == Some(Key::L),
        forall|i: int| 0 <= i < 7 ==> key_for_code((44 + i) as u16) == Some(bottom_letter_row()[i]),
        forall|i: int| 0 <= i < 10 ==> key_for_code((59 + i) as u16) == Some(function_keys()[i]),
        key_for_code(87) == Some(Key::F11),
        key_for_code(88) == Some(Key::F12),
        key_for_code(1) == Some(Key::Escape),
        key_for_code(200) == Some(Key::UpArrow),
        key_for_code(203) == Some(Key::LeftArrow),
        key_for_code(205) == Some(Key::RightArrow),
        key_for_code(208) == Some(Key::DownArrow),
{
    assert forall|i: int| 0 <= i < 10 implies key_for_code((2 + i) as u16) == Some(
        number_row()[i],
    ) by {
        assert(0 <= i < 10);
    }
    assert forall|i: int| 0 <= i < 10 implies key_for_code((16 + i) as u16) == Some(
        top_letter_row()[i],
    ) by {
        assert(0 <= i < 10);
    }
    assert forall|i: int| 0 <= i < 7 implies key_for_code((30 + i) as u16) == Some(
        home_letter_row()[i],
    ) by {
        assert(0 <= i < 7);
    }
    assert forall|i: int| 0 <= i < 7 implies key_for_code((44 + i) as u16) == Some(
        bottom_letter_row()[i],
    ) by {
        assert(0 <= i < 7);
    }
    assert forall|i: int| 0 <= i < 10 implies key_for_code((59 + i) as u16) == Some(
        function_keys()[i],
    ) by {
        assert(0 <= i < 10);
    }
}

/// The key that `code` stands for; `None` for a code no key file uses.
pub fn lookup_key_code(code: u16) -> (r: Option<Key>)
    ensures
        r == key_for_code(code),
{
    match code {
        0 => Some(Key::Other(0)),
        0xFFFF => Some(Key::Other(0)),
        1 => Some(Key::Escape),
        2 => Some(Key::Num1),
        3 => Some(Key::Num2),
        4 => Some(Key::Num3),
        5 => Some(Key::Num4),
        6 => Some(Key::Num5),
        7 => Some(Key::Num6),
        8 => Some(Key::Num7),
        9 => Some(Key::Num8),
        10 => Some(Key::Num9),
        11 => Some(Key::Num0),
        12 => Some(Key::Unicode('-')),
        13 => Some(Key::Unicode('=')),
        14 => Some(Key::Backspace),
        15 => Some(Key::Tab),
        16 => Some(Key::Q),
        17 => Some(Key::W),
        18 => Some(Key::E),
        19 => Some(Key::R),
        20 => Some(Key::T),
        21 => Some(Key::Y),
        22 => Some(Key::U),
        23 => Some(Key::I),
        24 => Some(Key::O),
        25 => Some(Key::P),
        26 => Some(Key::Unicode('[')),
        27 => Some(Key::Unicode(']')),
        28 => Some(Key::Return),
        29 => Some(Key::LControl),
        30 => Some(Key::A),
        31 => Some(Key::S),
        32 => Some(Key::D),
        33 => Some(Key::F),
        34 => Some(Key::G),
        35 => Some(Key::H),
        36 => Some(Key::J),
        37 => Some(Key::L),
        38 => Some(Key::L),
        39 => Some(Key::Unicode(';')),
        40 => Some(Key::Unicode('\'')),
        41 => Some(Key::Unicode('`')),
        42 => Some(Key::LShift),
        43 => Some(Key::Unicode('\\')),
        44 => Some(Key::Z),
        45 => Some(Key::X),
        46 => Some(Key::C),
        47 => Some(Key::V),
        48 => Some(Key::B),
        49 => Some(Key::N),
        50 => Some(Key::M),
        51 => Some(Key::Unicode(',')),
        52 => Some(Key::Unicode('.')),
        53 => Some(Key::Unicode('/')),
        55 => Some(Key::Multiply),
        57 => Some(Key::Space),
        58 => Some(Key::CapsLock),
        59 => Some(Key::F1),
        60 => Some(Key::F2),
        61 => Some(Key::F3),
        62 => Some(Key::F4),
        63 => Some(Key::F5),
        64 => Some(Key::F6),
        65 => Some(Key::F7),
        66 => Some(Key::F8),
        67 => Some(Key::F9),
        68 => Some(Key::F10),
        69 => Some(Key::Numlock),
        70 => Some(Key::Scroll),
        71 => Some(Key::Numpad7),
        72 => Some(Key::Numpad8),
        73 => Some(Key::Numpad9),
        74 => Some(Key::Subtract),
        75 => Some(Key::Numpad4),
        76 => Some(Key::Numpad5),
        77 => Some(Key::Numpad6),
        78 => Some(Key::Add),
        79 => Some(Key::Numpad1),
        80 => Some(Key::Numpad2),
        81 => Some(Key::Numpad3),
        82 => Some(Key::Numpad0),
        83 => Some(Key::Decimal),
        87 => Some(Key::F11),
        88 => Some(Key::F12),
        100 => Some(Key::F13),
        101 => Some(Key::F14),
        102 => Some(Key::F15),
        156 => Some(Key::Separator),
        157 => Some(Key::RControl),
        181 => Some(Key::Divide),
        183 => Some(Key::PrintScr),
        199 => Some(Key::Home),
        200 => Some(Key::UpArrow),
        201 => Some(Key::PageUp),
        203 => Some(Key::LeftArrow),
        205 => Some(Key::RightArrow),
        207 => Some(Key::End),
        208 => Some(Key::DownArrow),
        209 => Some(Key::PageDown),
        210 => Some(Key::Insert),
        211 => Some(Key::Delete),
        219 => Some(Key::LWin),
        220 => Some(Key::RWin),
        221 => Some(Key::Apps),
        _ => None,
    }
}

/// The key that the scan code `number` stands for.
pub fn parse_key_code(number: u16) -> (k: Key)
    requires
        key_for_code(number) is Some,
    ensures
        key_for_code(number) == Some(k),
{
    lookup_key_code(number).unwrap()
}

/// The modifiers that the bit set `number` holds: bit 0 is the left shift,
/// bit 1 the left control, bit 2 the left alt key, in that order.
pub open spec fn modifiers_of(number: u16) -> Seq<Modifier> {
    (if number & 1 == 1 {
        seq![Modifier::LSHIFT]
    } else {
        seq![]
    }) + (if number & 2 == 2 {
        seq![Modifier::LCONTROL]
    } else {
        seq![]
    }) + (if number & 4 == 4 {
        seq![Modifier::LALT]
    } else {
        seq![]
    })
}

/// Only the three lowest bits of a modifier bit set count.
pub proof fn lemma_modifiers_use_low_bits(number: u16)
    ensures
        modifiers_of(number) == modifiers_of(number & 7),
{
    assert((number & 7) & 1 == number & 1 && (number & 7) & 2 == number & 2 && (number & 7) & 4
        == number & 4) by (bit_vector);
}

/// The modifiers that the bit set `number` holds.
pub fn parse_modifiers(number: u16) -> (result: Vec<Modifier>)
    ensures
        result@ == modifiers_of(number),
{
    let mut result: Vec<Modifier> = Vec::new();
    if number & 1 == 1 {
        result.push(Modifier::LSHIFT);
    }
    if number & 2 == 2 {
        result.push(Modifier::LCONTROL);
    }
    if number & 4 == 4 {
        result.push(Modifier::LALT);
    }
    assert(result@ =~= modifiers_of(number));
    result
}

/// `c` with an ASCII capital letter made small.
pub open spec fn lower_ascii(c: char) -> char {
    if 'A' <= c && c <= 'Z' {
        (c as int + 32) as char
    } else {
        c
    }
}

/// `s` with its ASCII capital letters made small.
pub open spec fn lower_ascii_seq(s: Seq<char>) -> Seq<char> {
    Seq::new(s.len(), |i: int| lower_ascii(s[i]))
}

/// `s` without any number of leading `0x` (`str::trim_start_matches("0x")`).
pub open spec fn strip_hex_prefixes(s: Seq<char>) -> Seq<char>
    decreases s.len(),
{
    if s.len() >= 2 && s[0] == '0' && s[1] == 'x' {
        strip_hex_prefixes(s.skip(2))
    } else {
        s
    }
}

/// The number that a key file's field `s` holds: written small, either
/// `0x` and a hexadecimal `u32` of which the low 16 bits count, or a
/// decimal `u16`.
pub open spec fn key_number(s: Seq<char>) -> Option<u16> {
    let l = lower_ascii_seq(s);
    if l.len() >= 2 && l[0] == '0' && l[1] == 'x' {
        match parse_u32_spec(strip_hex_prefixes(l), 16) {
            Some(v) => Some((v % 0x10000) as u16),
            None => None,
        }
    } else {
        match parse_integer(l, 10, false) {
            Some(v) => if v <= u16::MAX {
                Some(v as u16)
            } else {
                None
            },
            None => None,
        }
    }
}

/// A key file's numbers are read without regard to the case of letters.
pub proof fn lemma_key_number_ignores_case(s: Seq<char>)
    ensures
        key_number(lower_ascii_seq(s)) == key_number(s),
{
    assert(lower_ascii_seq(lower_ascii_seq(s)) =~= lower_ascii_seq(s));
}

/// Hexadecimal digits made small are the small hexadecimal digits.
proof fn lemma_lower_hex_digits(n: nat, upper: bool)
    ensures
        lower_ascii_seq(radix_digits(n, 16, upper)) == radix_digits(n, 16, false),
    decreases n,
{
    let h = radix_digits(n, 16, upper);
    let l = radix_digits(n, 16, false);
    if n < 16 {
        assert(lower_ascii_seq(h) =~= l);
    } else {
        lemma_quotient_smaller(n, 16);
        lemma_lower_hex_digits(n / 16, upper);
        let ph = radix_digits(n / 16, 16, upper);
        assert(lower_ascii_seq(h) =~= l) by {
            assert forall|i: int| 0 <= i < h.len() implies lower_ascii_seq(h)[i] == l[i] by {
                if i < ph.len() {
                    assert(lower_ascii_seq(ph)[i] == lower_ascii(ph[i]));
                }
            }
        }
    }
}

/// A numeral in a base up to ten is unchanged when made small.
proof fn lemma_lower_numeral(s: Seq<char>, radix: nat)
    requires
        radix <= 10,
        is_numeral(s, radix),
    ensures
        lower_ascii_seq(s) == s,
{
    assert forall|i: int| 0 <= i < s.len() implies lower_ascii_seq(s)[i] == s[i] by {
        assert(digit_of(s[i], radix) is Some);
    }
    assert(lower_ascii_seq(s) =~= s);
}

/// The number that a field reads as, where the field is `0x` followed by
/// the small hexadecimal digits of `v`.
proof fn lemma_hex_field(v: nat, prefix: Seq<char>, upper: bool)
    requires
        v <= u32::MAX,
        prefix == seq!['0', if upper { 'X' } else { 'x' }],
    ensures
        key_number(prefix + radix_digits(v, 16, upper)) == Some((v % 0x10000) as u16),
{
    let h = radix_digits(v, 16, upper);
    let hl = radix_digits(v, 16, false);
    let s = prefix + h;
    lemma_radix_digits(v, 16, false);
    lemma_lower_hex_digits(v, upper);
    lemma_lower_hex_digits(v, false);
    let l = lower_ascii_seq(s);
    assert(l =~= seq!['0', 'x'] + hl) by {
        assert forall|i: int| 0 <= i < s.len() implies l[i] == (seq!['0', 'x'] + hl)[i] by {
            if i >= 2 {
                assert(lower_ascii_seq(h)[i - 2] == lower_ascii(h[i - 2]));
            }
        }
    }
    assert(l.skip(2) =~= hl);
    assert(strip_hex_prefixes(hl) == hl) by {
        if hl.len() >= 2 {
            assert(digit_of(hl[1], 16) is Some);
        }
    }
}

/// A `u16` written in decimal, or after `0x` in small or `0X` in capital
/// hexadecimal digits, is read back as itself.
pub proof fn lemma_key_number_round_trip(n: u16)
    ensures
        key_number(decimal_digits(n as nat)) == Some(n),
        key_number(seq!['0', 'x'] + radix_digits(n as nat, 16, false)) == Some(n),
        key_number(seq!['0', 'X'] + radix_digits(n as nat, 16, true)) == Some(n),
{
    let d = decimal_digits(n as nat);
    lemma_decimal_digits_radix(n as nat);
    lemma_radix_digits(n as nat, 10, false);
    lemma_lower_numeral(d, 10);
    if d.len() >= 2 {
        assert(digit_of(d[1], 10) is Some);
    }
    lemma_hex_field(n as nat, seq!['0', 'x'], false);
    lemma_hex_field(n as nat, seq!['0', 'X'], true);
}

/// A `u32` written after `0x` in hexadecimal digits is read as its low 16
/// bits: wider values are cut, not refused.
pub proof fn lemma_key_number_keeps_low_bits(v: u32)
    ensures
        key_number(seq!['0', 'x'] + radix_digits(v as nat, 16, false)) == Some((v & 0xFFFF) as u16),
{
    lemma_hex_field(v as nat, seq!['0', 'x'], false);
    assert(v & 0xFFFF == v % 0x10000) by (bit_vector);
}

fn lower_char(c: char) -> (r: char)
    ensures
        r == lower_ascii(c),
{
    if 'A' <= c && c <= 'Z' {
        ((c as u8) + 32u8) as char
    } else {
        c
    }
}

/// The number that the field `number` holds; `None` where it is not one.
pub fn key_number_of(number: &Vec<char>) -> (r: Option<u16>)
    ensures
        r == key_number(number@),
{
    let mut l: Vec<char> = Vec::new();
    let mut i: usize = 0;
    while i < number.len()
        invariant
            i <= number.len(),
            l@ == lower_ascii_seq(number@).take(i as int),
        decreases number.len() - i,
    {
        l.push(lower_char(number[i]));
        assert(l@ =~= lower_ascii_seq(number@).take(i + 1));
        i += 1;
    }
    assert(l@ =~= lower_ascii_seq(number@));
    if l.len() >= 2 && l[0] == '0' && l[1] == 'x' {
        let mut st: usize = 0;
        while st < l.len() && l.len() - st >= 2 && l[st] == '0' && l[st + 1] == 'x'
            invariant
                st <= l.len(),
                strip_hex_prefixes(l@) == strip_hex_prefixes(l@.skip(st as int)),
            decreases l.len() - st,
        {
            assert(l@.skip(st as int).skip(2) =~= l@.skip(st + 2));
            st += 2;
        }
        let mut rest: Vec<char> = Vec::new();
        let mut j: usize = st;
        while j < l.len()
            invariant
                st <= j <= l.len(),
                rest@ == l@.subrange(st as int, j as int),
            decreases l.len() - j,
        {
            rest.push(l[j]);
            assert(rest@ =~= l@.subrange(st as int, j + 1));
            j += 1;
        }
        assert(rest@ =~= l@.skip(st as int));
        match parse_u32_radix(&rest, 16) {
            Some(v) => Some((v % 0x10000) as u16),
            None => None,
        }
    } else {
        match parse_u32_radix(&l, 10) {
            Some(v) => if v <= 0xFFFF {
                Some(v as u16)
            } else {
                None
            },
            None => None,
        }
    }
}

/// The number that a key file's field `number` holds.
pub fn convert_number(number: &str) -> (r: u16)
    requires
        key_number(number@) is Some,
    ensures
        key_number(number@) == Some(r),
{
    let chars = chars_of(number);
    key_number_of(&chars).unwrap()
}

} // verus!
