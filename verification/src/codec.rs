//! The wire codec: requests and replies travel as `<6 hex digits><payload>`,
//! the prefix giving the payload length in characters, zero-padded lowercase
//! hex.

use vstd::prelude::*;
use crate::text::chars_to_string;

verus! {

/// The largest value a six-digit hex prefix can carry, plus one.
pub const FRAME_LIMIT: u32 = 0x1000000;

/// The lowercase hex digit for a value below 16.
pub open spec fn hex_digit_char(d: int) -> char {
    if d == 0 {
        '0'
    } else if d == 1 {
        '1'
    } else if d == 2 {
        '2'
    } else if d == 3 {
        '3'
    } else if d == 4 {
        '4'
    } else if d == 5 {
        '5'
    } else if d == 6 {
        '6'
    } else if d == 7 {
        '7'
    } else if d == 8 {
        '8'
    } else if d == 9 {
        '9'
    } else if d == 10 {
        'a'
    } else if d == 11 {
        'b'
    } else if d == 12 {
        'c'
    } else if d == 13 {
        'd'
    } else if d == 14 {
        'e'
    } else {
        'f'
    }
}

/// The value of a hex digit character, upper or lower case; `-1` where the
/// character is no hex digit.
pub open spec fn hex_char_val(c: char) -> int {
    if c == '0' {
        0
    } else if c == '1' {
        1
    } else if c == '2' {
        2
    } else if c == '3' {
        3
    } else if c == '4' {
        4
    } else if c == '5' {
        5
    } else if c == '6' {
        6
    } else if c == '7' {
        7
    } else if c == '8' {
        8
    } else if c == '9' {
        9
    } else if c == 'a' || c == 'A' {
        10
    } else if c == 'b' || c == 'B' {
        11
    } else if c == 'c' || c == 'C' {
        12
    } else if c == 'd' || c == 'D' {
        13
    } else if c == 'e' || c == 'E' {
        14
    } else if c == 'f' || c == 'F' {
        15
    } else {
        -1
    }
}

/// Whether the character is a hex digit, either case.
pub open spec fn is_hex_digit(c: char) -> bool {
    hex_char_val(c) >= 0
}

/// Whether the character is a canonical (lowercase) hex digit.
pub open spec fn is_lower_hex_digit(c: char) -> bool {
    hex_char_val(c) >= 0 && c != 'A' && c != 'B' && c != 'C' && c != 'D' && c != 'E' && c != 'F'
}

/// The last `k` hex digits of `n`, highest digit first.
pub open spec fn hex_digits_of(n: int, k: nat) -> Seq<char>
    decreases k,
{
    if k == 0 {
        Seq::empty()
    } else {
        hex_digits_of(n / 16, (k - 1) as nat).push(hex_digit_char(n % 16))
    }
}

/// The six-hex-digit frame length prefix for `n`.
pub open spec fn hex6_of(n: int) -> Seq<char> {
    hex_digits_of(n, 6)
}

/// The value of a string of hex digits, highest digit first.
pub open spec fn hex_value(s: Seq<char>) -> int
    decreases s.len(),
{
    if s.len() == 0 {
        0
    } else {
        hex_value(s.drop_last()) * 16 + hex_char_val(s.last())
    }
}

/// Whether every character of `s` is a hex digit.
pub open spec fn all_hex_digits(s: Seq<char>) -> bool {
    forall|i: int| 0 <= i < s.len() ==> is_hex_digit(#[trigger] s[i])
}

/// Sixteen to the `k`-th.
pub open spec fn pow16(k: nat) -> int
    decreases k,
{
    if k == 0 {
        1
    } else {
        16 * pow16((k - 1) as nat)
    }
}

/// Reading back the `k` hex digits of `n` recovers `n` modulo `16^k`.
proof fn lemma_hex_value_of_digits(n: int, k: nat)
    requires
        n >= 0,
    ensures
        hex_value(hex_digits_of(n, k)) == n % pow16(k),
        pow16(k) >= 1,
    decreases k,
{
    if k == 0 {
        assert(n % 1 == 0);
    } else {
        lemma_hex_value_of_digits(n / 16, (k - 1) as nat);
        let s = hex_digits_of(n, k);
        assert(s.drop_last() =~= hex_digits_of(n / 16, (k - 1) as nat));
        assert(hex_char_val(hex_digit_char(n % 16)) == n % 16);
        assert(hex_value(s) == ((n / 16) % pow16((k - 1) as nat)) * 16 + n % 16);
        vstd::arithmetic::div_mod::lemma_mod_breakdown(n, 16, pow16((k - 1) as nat));
    }
}

/// A string of `k` lowercase hex digits is exactly the digit string of its
/// own value.
proof fn lemma_hex_digits_of_value(s: Seq<char>, k: nat)
    requires
        s.len() == k,
        forall|i: int| 0 <= i < s.len() ==> is_lower_hex_digit(#[trigger] s[i]),
    ensures
        hex_value(s) >= 0,
        hex_value(s) < pow16(k),
        hex_digits_of(hex_value(s), k) == s,
    decreases k,
{
    if k == 0 {
        assert(hex_digits_of(0, 0) =~= s);
    } else {
        let front = s.drop_last();
        let c = s.last();
        assert(forall|i: int| 0 <= i < front.len() ==> is_lower_hex_digit(#[trigger] front[i]));
        lemma_hex_digits_of_value(front, (k - 1) as nat);
        let v = hex_value(s);
        let vf = hex_value(front);
        let d = hex_char_val(c);
        assert(0 <= d < 16);
        assert(v == vf * 16 + d);
        assert(v / 16 == vf && v % 16 == d) by (nonlinear_arith)
            requires
                v == vf * 16 + d,
                0 <= d < 16,
                vf >= 0,
        ;
        assert(v < pow16(k)) by (nonlinear_arith)
            requires
                v == vf * 16 + d,
                d < 16,
                vf < pow16((k - 1) as nat),
                pow16(k) == 16 * pow16((k - 1) as nat),
        ;
        assert(hex_digit_char(d) == c);
        assert(hex_digits_of(v, k) =~= s);
    }
}

/// Framing round trip, one direction: the six-digit prefix written for any
/// in-range length reads back as that length.
pub proof fn lemma_frame_length_roundtrip(n: int)
    requires
        0 <= n < FRAME_LIMIT,
    ensures
        hex_value(hex6_of(n)) == n,
{
    lemma_hex_value_of_digits(n, 6);
    assert(pow16(6) == 0x1000000) by {
        reveal_with_fuel(pow16, 7);
    }
    assert(n % 0x1000000 == n);
}

/// Framing round trip, the other direction: re-encoding the length read from
/// a canonical six-digit prefix reproduces the prefix, so
/// `encode(decode(frame)) == frame` on the length prefix.
pub proof fn lemma_frame_header_roundtrip(s: Seq<char>)
    requires
        s.len() == 6,
        forall|i: int| 0 <= i < s.len() ==> is_lower_hex_digit(#[trigger] s[i]),
    ensures
        0 <= hex_value(s) < FRAME_LIMIT,
        hex6_of(hex_value(s)) == s,
{
    lemma_hex_digits_of_value(s, 6);
    assert(pow16(6) == 0x1000000) by {
        reveal_with_fuel(pow16, 7);
    }
}

/// The lowercase hex digit character for a value below 16.
pub(crate) fn hex_digit(d: u32) -> (c: char)
    requires
        d < 16,
    ensures
        c == hex_digit_char(d as int),
{
    if d == 0 {
        '0'
    } else if d == 1 {
        '1'
    } else if d == 2 {
        '2'
    } else if d == 3 {
        '3'
    } else if d == 4 {
        '4'
    } else if d == 5 {
        '5'
    } else if d == 6 {
        '6'
    } else if d == 7 {
        '7'
    } else if d == 8 {
        '8'
    } else if d == 9 {
        '9'
    } else if d == 10 {
        'a'
    } else if d == 11 {
        'b'
    } else if d == 12 {
        'c'
    } else if d == 13 {
        'd'
    } else if d == 14 {
        'e'
    } else {
        'f'
    }
}

/// The value of a hex digit character, or 16 where it is none.
fn hex_val(c: char) -> (d: u32)
    ensures
        is_hex_digit(c) ==> d == hex_char_val(c),
        !is_hex_digit(c) ==> d == 16,
{
    if c == '0' {
        0
    } else if c == '1' {
        1
    } else if c == '2' {
        2
    } else if c == '3' {
        3
    } else if c == '4' {
        4
    } else if c == '5' {
        5
    } else if c == '6' {
        6
    } else if c == '7' {
        7
    } else if c == '8' {
        8
    } else if c == '9' {
        9
    } else if c == 'a' || c == 'A' {
        10
    } else if c == 'b' || c == 'B' {
        11
    } else if c == 'c' || c == 'C' {
        12
    } else if c == 'd' || c == 'D' {
        13
    } else if c == 'e' || c == 'E' {
        14
    } else if c == 'f' || c == 'F' {
        15
    } else {
        16
    }
}

/// The last `k` hex digits of `n`, highest first.
fn hex_digits(n: u32, k: usize) -> (r: Vec<char>)
    ensures
        r@ == hex_digits_of(n as int, k as nat),
    decreases k,
{
    if k == 0 {
        let r: Vec<char> = Vec::new();
        proof {
            assert(r@ =~= hex_digits_of(n as int, 0));
        }
        r
    } else {
        let mut r = hex_digits(n / 16, k - 1);
        r.push(hex_digit(n % 16));
        r
    }
}

/// The six-digit lowercase hex prefix carrying `n`.
pub fn encode_frame_length(n: u32) -> (r: String)
    requires
        n < FRAME_LIMIT,
    ensures
        r@ == hex6_of(n as int),
{
    let v = hex_digits(n, 6);
    chars_to_string(&v)
}

/// Frames a payload: the six-hex-digit character count, then the payload.
pub fn encode_frame(payload: &str) -> (r: String)
    requires
        payload@.len() < FRAME_LIMIT,
    ensures
        r@ == hex6_of(payload@.len() as int) + payload@,
{
    let n = payload.unicode_len();
    let mut r = encode_frame_length(n as u32);
    r.append(payload);
    r
}

/// Reads a six-hex-digit frame length prefix.  Returns the length where the
/// header is exactly six hex digits (either case), `None` otherwise: a short
/// or malformed header is a framing error.
pub fn decode_frame_length(header: &str) -> (r: Option<u32>)
    ensures
        header@.len() == 6 && all_hex_digits(header@) ==> r == Some(
            hex_value(header@) as u32,
        ),
        !(header@.len() == 6 && all_hex_digits(header@)) ==> r is None,
{
    let chars = crate::text::str_chars(header);
    if chars.len() != 6 {
        return None;
    }
    let mut acc: u32 = 0;
    let mut i: usize = 0;
    proof {
        assert(header@.take(0) =~= Seq::<char>::empty());
        assert(pow16(6) == 0x1000000) by {
            reveal_with_fuel(pow16, 7);
        }
    }
    while i < 6
        invariant
            i <= 6,
            chars@ == header@,
            header@.len() == 6,
            forall|j: int| 0 <= j < i ==> is_hex_digit(#[trigger] header@[j]),
            acc == hex_value(header@.take(i as int)),
            acc < pow16(i as nat),
            pow16(6) == 0x1000000,
        decreases 6 - i,
    {
        let d = hex_val(chars[i]);
        if d == 16 {
            return None;
        }
        proof {
            assert(header@.take(i + 1 as int).drop_last() =~= header@.take(i as int));
            assert(header@.take(i + 1 as int).last() == header@[i as int]);
            assert(pow16((i + 1) as nat) == 16 * pow16(i as nat));
            assert(acc * 16 + d < pow16((i + 1) as nat)) by (nonlinear_arith)
                requires
                    acc < pow16(i as nat),
                    d < 16,
                    pow16((i + 1) as nat) == 16 * pow16(i as nat),
            ;
            assert(acc * 16 + d <= 0xFFFFFF) by {
                assert(pow16((i + 1) as nat) <= pow16(6)) by {
                    lemma_pow16_increases((i + 1) as nat, 6);
                }
            }
        }
        acc = acc * 16 + d;
        i += 1;
    }
    proof {
        assert(header@.take(6) =~= header@);
    }
    Some(acc)
}

/// `pow16` grows with its exponent.
proof fn lemma_pow16_increases(a: nat, b: nat)
    requires
        a <= b,
    ensures
        pow16(a) <= pow16(b),
        pow16(a) >= 1,
    decreases b,
{
    if a < b {
        lemma_pow16_increases(a, (b - 1) as nat);
        assert(pow16(b) == 16 * pow16((b - 1) as nat));
    } else {
        if a > 0 {
            lemma_pow16_increases((a - 1) as nat, (b - 1) as nat);
        }
    }
}

} // verus!
