//! Character-level text handling: whitespace, word splitting, trimming,
//! prefixes, integer numerals and decimal rendering.
use vstd::prelude::*;

verus! {

// ---------------------------------------------------------------------------
// Whitespace
// ---------------------------------------------------------------------------

/// The Unicode `White_Space` property, as used by `char::is_whitespace`.
pub open spec fn is_white_space(c: char) -> bool {
    ||| c == '\t'
    ||| c == '\n'
    ||| c == '\u{0B}'
    ||| c == '\u{0C}'
    ||| c == '\r'
    ||| c == ' '
    ||| c == '\u{85}'
    ||| c == '\u{A0}'
    ||| c == '\u{1680}'
    ||| ('\u{2000}' <= c && c <= '\u{200A}')
    ||| c == '\u{2028}'
    ||| c == '\u{2029}'
    ||| c == '\u{202F}'
    ||| c == '\u{205F}'
    ||| c == '\u{3000}'
}

pub fn is_whitespace(c: char) -> (r: bool)
    ensures
        r == is_white_space(c),
{
    c == '\t' || c == '\n' || c == '\u{0B}' || c == '\u{0C}' || c == '\r' || c == ' ' || c
        == '\u{85}' || c == '\u{A0}' || c == '\u{1680}' || ('\u{2000}' <= c && c <= '\u{200A}')
        || c == '\u{2028}' || c == '\u{2029}' || c == '\u{202F}' || c == '\u{205F}' || c
        == '\u{3000}'
}


// ---------------------------------------------------------------------------
// Characters and strings
// ---------------------------------------------------------------------------

/// The characters of `s`, in order.
pub fn chars_of(s: &str) -> (v: Vec<char>)
    ensures
        v@ == s@,
{
    let mut v: Vec<char> = Vec::new();
    for c in it: s.chars()
        invariant
            v@ == it.seq().take(it.index() as int),
            it.seq() == s@,
    {
        v.push(c);
    }
    v
}

/// Appends the characters of `s` to `out`.
pub fn push_chars(out: &mut Vec<char>, s: &str)
    ensures
        final(out)@ == old(out)@ + s@,
{
    let v = chars_of(s);
    let mut i: usize = 0;
    while i < v.len()
        invariant
            i <= v.len(),
            v@ == s@,
            out@ == old(out)@ + v@.take(i as int),
        decreases v.len() - i,
    {
        out.push(v[i]);
        assert(old(out)@ + v@.take(i + 1) =~= old(out)@ + v@.take(i as int) + seq![v@[i as int]]);
        i += 1;
    }
    assert(v@.take(v.len() as int) =~= v@);
}

/// `String::push`: appends `c` to `s`. Its contract claims that the
/// characters of `s` become its old characters followed by `c`.
#[verifier::external_body]
fn push_char(s: &mut String, c: char)
    ensures
        final(s)@ == old(s)@.push(c),
{
    s.push(c);
}

/// The string made of the characters of `v`, in order.
pub fn string_from_chars(v: &Vec<char>) -> (s: String)
    ensures
        s@ == v@,
{
    let mut s = String::new();
    let mut i: usize = 0;
    while i < v.len()
        invariant
            i <= v.len(),
            s@ == v@.take(i as int),
        decreases v.len() - i,
    {
        push_char(&mut s, v[i]);
        assert(v@.take(i as int).push(v@[i as int]) =~= v@.take(i + 1));
        i += 1;
    }
    assert(v@.take(v.len() as int) =~= v@);
    s
}

/// Whether `p` is a prefix of `s`.
pub fn starts_with(s: &Vec<char>, p: &Vec<char>) -> (r: bool)
    ensures
        r == p@.is_prefix_of(s@),
{
    if p.len() > s.len() {
        return false;
    }
    let mut i: usize = 0;
    while i < p.len()
        invariant
            p.len() <= s.len(),
            i <= p.len(),
            forall|k: int| 0 <= k < i ==> p@[k] == s@[k],
        decreases p.len() - i,
    {
        if p[i] != s[i] {
            return false;
        }
        i += 1;
    }
    assert(s@.take(p@.len() as int) =~= p@);
    true
}

// ---------------------------------------------------------------------------
// Words (`str::split_whitespace`)
// ---------------------------------------------------------------------------

/// Scans `s` left to right: the words completed so far, and the word being read.
pub open spec fn scan_words(s: Seq<char>) -> (Seq<Seq<char>>, Seq<char>)
    decreases s.len(),
{
    if s.len() == 0 {
        (seq![], seq![])
    } else {
        let (done, cur) = scan_words(s.drop_last());
        if is_white_space(s.last()) {
            if cur.len() > 0 {
                (done.push(cur), seq![])
            } else {
                (done, seq![])
            }
        } else {
            (done, cur.push(s.last()))
        }
    }
}

/// The maximal runs of non-whitespace characters of `s`, in order.
pub open spec fn words(s: Seq<char>) -> Seq<Seq<char>> {
    let (done, cur) = scan_words(s);
    if cur.len() > 0 {
        done.push(cur)
    } else {
        done
    }
}

/// Splits `s` into its words, as `str::split_whitespace` does.
pub fn split_words(s: &Vec<char>) -> (w: Vec<Vec<char>>)
    ensures
        w@.len() == words(s@).len(),
        forall|k: int| 0 <= k < w@.len() ==> (#[trigger] w@[k])@ == words(s@)[k],
{
    let mut done: Vec<Vec<char>> = Vec::new();
    let mut cur: Vec<char> = Vec::new();
    let mut i: usize = 0;
    while i < s.len()
        invariant
            i <= s.len(),
            done@.len() == scan_words(s@.take(i as int)).0.len(),
            forall|k: int|
                0 <= k < done@.len() ==> (#[trigger] done@[k])@ == scan_words(
                    s@.take(i as int),
                ).0[k],
            cur@ == scan_words(s@.take(i as int)).1,
        decreases s.len() - i,
    {
        assert(s@.take(i + 1).drop_last() =~= s@.take(i as int));
        let c = s[i];
        if is_whitespace(c) {
            if cur.len() > 0 {
                let word = cur;
                done.push(word);
                cur = Vec::new();
            }
        } else {
            cur.push(c);
        }
        i += 1;
    }
    assert(s@.take(s.len() as int) =~= s@);
    if cur.len() > 0 {
        done.push(cur);
    }
    done
}

// ---------------------------------------------------------------------------
// Trimming (`str::trim`)
// ---------------------------------------------------------------------------

/// `s` without its leading whitespace.
pub open spec fn trim_start(s: Seq<char>) -> Seq<char>
    decreases s.len(),
{
    if s.len() > 0 && is_white_space(s[0]) {
        trim_start(s.drop_first())
    } else {
        s
    }
}

/// `s` without its trailing whitespace.
pub open spec fn trim_end(s: Seq<char>) -> Seq<char>
    decreases s.len(),
{
    if s.len() > 0 && is_white_space(s.last()) {
        trim_end(s.drop_last())
    } else {
        s
    }
}

/// `s` without leading and trailing whitespace.
pub open spec fn trim(s: Seq<char>) -> Seq<char> {
    trim_end(trim_start(s))
}

proof fn lemma_trim_start_index(s: Seq<char>) -> (a: int)
    ensures
        0 <= a <= s.len(),
        trim_start(s) == s.skip(a),
        forall|i: int| 0 <= i < a ==> is_white_space(#[trigger] s[i]),
        a < s.len() ==> !is_white_space(s[a]),
    decreases s.len(),
{
    if s.len() > 0 && is_white_space(s[0]) {
        let r = lemma_trim_start_index(s.drop_first());
        assert(s.drop_first().skip(r) =~= s.skip(r + 1));
        assert forall|i: int| 0 <= i < r + 1 implies is_white_space(#[trigger] s[i]) by {
            if i > 0 {
                assert(s[i] == s.drop_first()[i - 1]);
            }
        }
        r + 1
    } else {
        assert(s.skip(0) =~= s);
        0
    }
}

proof fn lemma_trim_end_index(s: Seq<char>) -> (b: int)
    ensures
        0 <= b <= s.len(),
        trim_end(s) == s.take(b),
        forall|i: int| b <= i < s.len() ==> is_white_space(#[trigger] s[i]),
        b > 0 ==> !is_white_space(s[b - 1]),
    decreases s.len(),
{
    if s.len() > 0 && is_white_space(s.last()) {
        let r = lemma_trim_end_index(s.drop_last());
        assert(s.drop_last().take(r) =~= s.take(r));
        assert forall|i: int| r <= i < s.len() implies is_white_space(#[trigger] s[i]) by {
            if i < s.len() - 1 {
                assert(s[i] == s.drop_last()[i]);
            }
        }
        r
    } else {
        assert(s.take(s.len() as int) =~= s);
        s.len() as int
    }
}

/// Trimming takes away whitespace only, and all of it at both ends: the
/// trimmed text is a contiguous part of `s`, everything before and after it
/// is whitespace, and it neither starts nor ends with whitespace. Text that
/// neither starts nor ends with whitespace is left as it is.
pub proof fn lemma_trim_takes_only_end_whitespace(s: Seq<char>)
    ensures
        exists|a: int, b: int|
            {
                &&& 0 <= a <= b <= s.len()
                &&& trim(s) == s.subrange(a, b)
                &&& forall|i: int| 0 <= i < a ==> is_white_space(#[trigger] s[i])
                &&& forall|i: int| b <= i < s.len() ==> is_white_space(#[trigger] s[i])
                &&& a < b ==> !is_white_space(s[a]) && !is_white_space(s[b - 1])
            },
        s.len() == 0 || (!is_white_space(s[0]) && !is_white_space(s.last())) ==> trim(s) == s,
{
    let a = lemma_trim_start_index(s);
    let t = s.skip(a);
    let c = lemma_trim_end_index(t);
    let b = a + c;
    assert(t.take(c) =~= s.subrange(a, b));
    assert forall|i: int| b <= i < s.len() implies is_white_space(#[trigger] s[i]) by {
        assert(s[i] == t[i - a]);
    }
    if a < b {
        assert(s[b - 1] == t[c - 1]);
    }
    if s.len() > 0 && !is_white_space(s[0]) && !is_white_space(s.last()) {
        assert(a == 0);
        if b < s.len() {
            assert(is_white_space(s[s.len() - 1]));
        }
        assert(s.subrange(0, s.len() as int) =~= s);
    }
    if s.len() == 0 {
        assert(s.subrange(a, b) =~= s);
    }
}

/// `s` without leading and trailing whitespace, as `str::trim` gives it.
pub fn trimmed(s: &Vec<char>) -> (r: Vec<char>)
    ensures
        r@ == trim(s@),
{
    let mut a: usize = 0;
    assert(s@.skip(0) =~= s@);
    while a < s.len() && is_whitespace(s[a])
        invariant
            a <= s.len(),
            trim_start(s@) == trim_start(s@.skip(a as int)),
        decreases s.len() - a,
    {
        assert(s@.skip(a as int).drop_first() =~= s@.skip(a + 1));
        a += 1;
    }
    let ghost front = s@.skip(a as int);
    assert(trim_start(s@) == front);
    let mut b: usize = s.len();
    while b > a && is_whitespace(s[b - 1])
        invariant
            a <= b <= s.len(),
            front == s@.skip(a as int),
            trim_end(front) == trim_end(s@.subrange(a as int, b as int)),
        decreases b,
    {
        assert(s@.subrange(a as int, b as int).drop_last() =~= s@.subrange(a as int, b - 1));
        b -= 1;
    }
    assert(s@.skip(a as int) =~= s@.subrange(a as int, s.len() as int));
    let mut r: Vec<char> = Vec::new();
    let mut i: usize = a;
    while i < b
        invariant
            a <= i <= b <= s.len(),
            r@ == s@.subrange(a as int, i as int),
        decreases b - i,
    {
        r.push(s[i]);
        assert(s@.subrange(a as int, i as int).push(s@[i as int]) =~= s@.subrange(
            a as int,
            i + 1,
        ));
        i += 1;
    }
    r
}


// ---------------------------------------------------------------------------
// Integer numerals (`from_str_radix`)
// ---------------------------------------------------------------------------

/// The value of the digit `c` in base `radix` (`char::to_digit`), if it is one.
pub open spec fn digit_of(c: char, radix: nat) -> Option<nat> {
    let d: int = if '0' <= c && c <= '9' {
        c as int - '0' as int
    } else if 'a' <= c && c <= 'z' {
        c as int - 'a' as int + 10
    } else if 'A' <= c && c <= 'Z' {
        c as int - 'A' as int + 10
    } else {
        radix as int
    };
    if d < radix {
        Some(d as nat)
    } else {
        None
    }
}

/// Every character of `s` is a digit in base `radix`.
pub open spec fn is_numeral(s: Seq<char>, radix: nat) -> bool {
    forall|i: int| 0 <= i < s.len() ==> (#[trigger] digit_of(s[i], radix)) is Some
}

/// The value of the digits `s` in base `radix`, most significant first.
pub open spec fn numeral_value(s: Seq<char>, radix: nat) -> nat
    decreases s.len(),
{
    if s.len() == 0 {
        0
    } else {
        numeral_value(s.drop_last(), radix) * radix + digit_of(s.last(), radix).unwrap()
    }
}

/// How Rust's integer parsing (`from_str_radix`, `str::parse`) reads `s`,
/// before the range of the target type is checked: an optional `+` (or, for a
/// signed type, `-`), then at least one digit, and nothing else.
pub open spec fn parse_integer(s: Seq<char>, radix: nat, signed: bool) -> Option<int> {
    let negative = signed && s.len() > 0 && s[0] == '-';
    let digits = if s.len() > 0 && (s[0] == '+' || negative) {
        s.drop_first()
    } else {
        s
    };
    if digits.len() > 0 && is_numeral(digits, radix) {
        if negative {
            Some(-numeral_value(digits, radix))
        } else {
            Some(numeral_value(digits, radix) as int)
        }
    } else {
        None
    }
}

/// `s` read as a `u32` in base `radix` (`u32::from_str_radix`).
pub open spec fn parse_u32_spec(s: Seq<char>, radix: nat) -> Option<u32> {
    match parse_integer(s, radix, false) {
        Some(v) => if v <= u32::MAX {
            Some(v as u32)
        } else {
            None
        },
        None => None,
    }
}

/// `s` read as an `i64` (`str::parse::<i64>`).
pub open spec fn parse_i64_spec(s: Seq<char>) -> Option<i64> {
    match parse_integer(s, 10, true) {
        Some(v) => if i64::MIN <= v <= i64::MAX {
            Some(v as i64)
        } else {
            None
        },
        None => None,
    }
}

/// A prefix of a numeral is worth no more than the whole numeral.
proof fn lemma_numeral_prefix_le(s: Seq<char>, radix: nat, j: int)
    requires
        radix >= 1,
        is_numeral(s, radix),
        0 <= j <= s.len(),
    ensures
        numeral_value(s.take(j), radix) <= numeral_value(s, radix),
    decreases s.len(),
{
    if j < s.len() {
        let t = s.drop_last();
        assert(t.take(j) =~= s.take(j));
        assert(is_numeral(t, radix)) by {
            assert forall|i: int| 0 <= i < t.len() implies (#[trigger] digit_of(t[i], radix)) is Some by {
                assert(t[i] == s[i]);
            }
        }
        lemma_numeral_prefix_le(t, radix, j);
        let v = numeral_value(t, radix);
        assert(v * radix >= v) by (nonlinear_arith)
            requires
                radix >= 1,
        ;
    } else {
        assert(s.take(j) =~= s);
    }
}

/// The value of `c` as a digit in base `radix`.
fn digit_value(c: char, radix: u32) -> (r: Option<u32>)
    requires
        2 <= radix <= 36,
    ensures
        r matches Some(d) ==> digit_of(c, radix as nat) == Some(d as nat),
        r is None ==> digit_of(c, radix as nat) is None,
{
    let d: u32 = if '0' <= c && c <= '9' {
        (c as u32) - ('0' as u32)
    } else if 'a' <= c && c <= 'z' {
        (c as u32) - ('a' as u32) + 10
    } else if 'A' <= c && c <= 'Z' {
        (c as u32) - ('A' as u32) + 10
    } else {
        radix
    };
    if d < radix {
        Some(d)
    } else {
        None
    }
}

/// Reads `s` as an unsigned 32-bit integer in base `radix`, as
/// `u32::from_str_radix` does; `None` where that returns an error.
pub fn parse_u32_radix(s: &Vec<char>, radix: u32) -> (r: Option<u32>)
    requires
        2 <= radix <= 36,
    ensures
        r == parse_u32_spec(s@, radix as nat),
{
    let n = s.len();
    let st: usize = if n > 0 && s[0] == '+' {
        1
    } else {
        0
    };
    let ghost digits = s@.subrange(st as int, n as int);
    assert(digits =~= (if n > 0 && s@[0] == '+' {
        s@.drop_first()
    } else {
        s@
    }));
    if st == n {
        return None;
    }
    let mut acc: u32 = 0;
    let mut i: usize = st;
    while i < n
        invariant
            st <= i <= n,
            n == s.len(),
            st < n,
            2 <= radix <= 36,
            digits == s@.subrange(st as int, n as int),
            parse_integer(s@, radix as nat, false) == (if is_numeral(digits, radix as nat) {
                Some(numeral_value(digits, radix as nat) as int)
            } else {
                None::<int>
            }),
            digits.take(i - st) == s@.subrange(st as int, i as int),
            is_numeral(s@.subrange(st as int, i as int), radix as nat),
            acc == numeral_value(s@.subrange(st as int, i as int), radix as nat),
        decreases n - i,
    {
        let ghost pre = s@.subrange(st as int, i as int);
        let ghost next = s@.subrange(st as int, i + 1);
        assert(next.drop_last() =~= pre);
        assert(digits.take(i + 1 - st) =~= next);
        match digit_value(s[i], radix) {
            None => {
                assert(!is_numeral(digits, radix as nat)) by {
                    assert(digits[i - st] == s@[i as int]);
                }
                return None;
            },
            Some(d) => {
                assert(is_numeral(next, radix as nat)) by {
                    assert forall|k: int| 0 <= k < next.len() implies (#[trigger] digit_of(
                        next[k],
                        radix as nat,
                    )) is Some by {
                        if k < pre.len() {
                            assert(next[k] == pre[k]);
                        }
                    }
                }
                let step = match acc.checked_mul(radix) {
                    Some(m) => m.checked_add(d),
                    None => None,
                };
                match step {
                    Some(v) => {
                        acc = v;
                    },
                    None => {
                        proof {
                            let pv = numeral_value(pre, radix as nat);
                            assert(pv * radix + d > u32::MAX);
                            if is_numeral(digits, radix as nat) {
                                lemma_numeral_prefix_le(digits, radix as nat, i + 1 - st);
                            }
                        }
                        return None;
                    },
                }
            },
        }
        i += 1;
    }
    assert(digits.take(n - st) =~= digits);
    Some(acc)
}

/// Reads `s` as a signed 64-bit integer, as `str::parse::<i64>` does; `None`
/// where that returns an error.
pub fn parse_i64(s: &Vec<char>) -> (r: Option<i64>)
    ensures
        r == parse_i64_spec(s@),
{
    let n = s.len();
    let negative = n > 0 && s[0] == '-';
    let st: usize = if n > 0 && (s[0] == '+' || negative) {
        1
    } else {
        0
    };
    let ghost digits = s@.subrange(st as int, n as int);
    assert(digits =~= (if n > 0 && (s@[0] == '+' || negative) {
        s@.drop_first()
    } else {
        s@
    }));
    if st == n {
        return None;
    }
    let mut acc: i64 = 0;
    let mut i: usize = st;
    while i < n
        invariant
            st <= i <= n,
            n == s.len(),
            st < n,
            negative == (s@[0] == '-'),
            digits == s@.subrange(st as int, n as int),
            parse_integer(s@, 10, true) == (if is_numeral(digits, 10) {
                if negative {
                    Some(-numeral_value(digits, 10))
                } else {
                    Some(numeral_value(digits, 10) as int)
                }
            } else {
                None::<int>
            }),
            digits.take(i - st) == s@.subrange(st as int, i as int),
            is_numeral(s@.subrange(st as int, i as int), 10),
            negative ==> acc == -numeral_value(s@.subrange(st as int, i as int), 10),
            !negative ==> acc == numeral_value(s@.subrange(st as int, i as int), 10),
        decreases n - i,
    {
        let ghost pre = s@.subrange(st as int, i as int);
        let ghost next = s@.subrange(st as int, i + 1);
        assert(next.drop_last() =~= pre);
        assert(digits.take(i + 1 - st) =~= next);
        match digit_value(s[i], 10) {
            None => {
                assert(!is_numeral(digits, 10)) by {
                    assert(digits[i - st] == s@[i as int]);
                }
                return None;
            },
            Some(d) => {
                assert(is_numeral(next, 10)) by {
                    assert forall|k: int| 0 <= k < next.len() implies (#[trigger] digit_of(
                        next[k],
                        10,
                    )) is Some by {
                        if k < pre.len() {
                            assert(next[k] == pre[k]);
                        }
                    }
                }
                let di = d as i64;
                let step = match acc.checked_mul(10) {
                    Some(m) => if negative {
                        m.checked_sub(di)
                    } else {
                        m.checked_add(di)
                    },
                    None => None,
                };
                match step {
                    Some(v) => {
                        acc = v;
                    },
                    None => {
                        proof {
                            if is_numeral(digits, 10) {
                                lemma_numeral_prefix_le(digits, 10, i + 1 - st);
                            }
                        }
                        return None;
                    },
                }
            },
        }
        i += 1;
    }
    assert(digits.take(n - st) =~= digits);
    Some(acc)
}

// ---------------------------------------------------------------------------
// Decimal rendering (`Display` for unsigned integers)
// ---------------------------------------------------------------------------

/// The character of the decimal digit `d`.
pub open spec fn digit_char(d: nat) -> char {
    ('0' as nat + d) as char
}

/// The decimal representation of `n`, without leading zeros.
pub open spec fn decimal_digits(n: nat) -> Seq<char>
    decreases n,
{
    if n < 10 {
        seq![digit_char(n)]
    } else {
        decimal_digits(n / 10).push(digit_char(n % 10))
    }
}

/// Appends the decimal representation of `n` to `out`.
pub fn push_decimal(n: u64, out: &mut Vec<char>)
    ensures
        final(out)@ == old(out)@ + decimal_digits(n as nat),
    decreases n,
{
    if n >= 10 {
        push_decimal(n / 10, out);
    }
    let d: u8 = (n % 10) as u8;
    let c: char = (d + 48u8) as char;
    assert(c == digit_char((n % 10) as nat));
    out.push(c);
    proof {
        if n >= 10 {
            assert(decimal_digits(n as nat) == decimal_digits((n / 10) as nat).push(
                digit_char((n % 10) as nat),
            ));
        }
    }
    assert(final(out)@ =~= old(out)@ + decimal_digits(n as nat));
}


/// The character of the digit `d` (below 36): `0` to `9`, then letters,
/// capital where `upper` is set.
pub open spec fn radix_digit_char(d: nat, upper: bool) -> char {
    if d < 10 {
        ('0' as nat + d) as char
    } else if upper {
        ('A' as nat + d - 10) as char
    } else {
        ('a' as nat + d - 10) as char
    }
}

/// The representation of `n` in base `radix`, without leading zeros.
pub open spec fn radix_digits(n: nat, radix: nat, upper: bool) -> Seq<char>
    decreases n,
{
    if radix < 2 || n < radix {
        seq![radix_digit_char(n, upper)]
    } else {
        proof {
            lemma_quotient_smaller(n, radix);
        }
        radix_digits(n / radix, radix, upper).push(radix_digit_char(n % radix, upper))
    }
}

/// Dividing by a base of at least 2 makes a number at least as large smaller.
pub proof fn lemma_quotient_smaller(n: nat, radix: nat)
    requires
        2 <= radix <= n,
    ensures
        n / radix < n,
{
    assert(n / radix < n) by (nonlinear_arith)
        requires
            2 <= radix <= n,
    ;
}

/// A digit's character is read back as that digit.
pub proof fn lemma_radix_digit_char(d: nat, radix: nat, upper: bool)
    requires
        d < radix <= 36,
    ensures
        digit_of(radix_digit_char(d, upper), radix) == Some(d),
{
}

/// The representation of `n` in base `radix` is read back as `n`.
pub proof fn lemma_radix_digits(n: nat, radix: nat, upper: bool)
    requires
        2 <= radix <= 36,
    ensures
        radix_digits(n, radix, upper).len() > 0,
        is_numeral(radix_digits(n, radix, upper), radix),
        numeral_value(radix_digits(n, radix, upper), radix) == n,
        parse_integer(radix_digits(n, radix, upper), radix, false) == Some(n as int),
    decreases n,
{
    let s = radix_digits(n, radix, upper);
    if n < radix {
        lemma_radix_digit_char(n, radix, upper);
        assert(s.drop_last() =~= Seq::<char>::empty());
        assert(numeral_value(Seq::<char>::empty(), radix) == 0);
    } else {
        lemma_quotient_smaller(n, radix);
        let p = radix_digits(n / radix, radix, upper);
        lemma_radix_digits(n / radix, radix, upper);
        lemma_radix_digit_char(n % radix, radix, upper);
        assert(s.drop_last() =~= p);
        assert forall|i: int| 0 <= i < s.len() implies (#[trigger] digit_of(s[i], radix)) is Some by {
            if i < p.len() {
                assert(s[i] == p[i]);
            }
        }
        assert((n / radix) * radix + n % radix == n) by (nonlinear_arith)
            requires
                radix >= 2,
        ;
    }
    lemma_digit_chars_are_not_signs(n, radix, upper);
}

proof fn lemma_digit_chars_are_not_signs(n: nat, radix: nat, upper: bool)
    requires
        2 <= radix <= 36,
    ensures
        radix_digits(n, radix, upper)[0] != '+',
        radix_digits(n, radix, upper)[0] != '-',
    decreases n,
{
    if n >= radix {
        lemma_quotient_smaller(n, radix);
        lemma_digit_chars_are_not_signs(n / radix, radix, upper);
        lemma_radix_digits_nonempty(n / radix, radix, upper);
    }
}

proof fn lemma_radix_digits_nonempty(n: nat, radix: nat, upper: bool)
    requires
        2 <= radix <= 36,
    ensures
        radix_digits(n, radix, upper).len() > 0,
    decreases n,
{
    if n >= radix {
        lemma_quotient_smaller(n, radix);
        lemma_radix_digits_nonempty(n / radix, radix, upper);
    }
}

/// Decimal rendering is base-10 rendering.
pub proof fn lemma_decimal_digits_radix(n: nat)
    ensures
        decimal_digits(n) == radix_digits(n, 10, false),
    decreases n,
{
    if n >= 10 {
        lemma_decimal_digits_radix(n / 10);
    }
}

} // verus!
