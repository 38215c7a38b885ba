//! Rendering and parsing of the small textual formats the on-disk layout
//! uses: fixed-width upper-case hexadecimal for identifiers, and decimal for
//! version numbers and date bucket names.

use vstd::prelude::*;
use vstd::arithmetic::div_mod::{
    lemma_div_denominator, lemma_div_multiples_vanish, lemma_fundamental_div_mod,
};
use vstd::string::StrSliceExecFns;

verus! {

/// Relies on `String::push`: appends the character to the string.
#[verifier::external_body]
fn push_char(s: &mut String, c: char)
    ensures
        final(s)@ == old(s)@.push(c),
{
    s.push(c);
}

/// The characters of a string, in order.
pub fn chars_of(s: &str) -> (v: Vec<char>)
    ensures
        v@ == s@,
{
    let n = s.unicode_len();
    let mut v: Vec<char> = Vec::new();
    let mut i: usize = 0;
    while i < n
        invariant
            n == s@.len(),
            i <= n,
            v@ =~= s@.take(i as int),
        decreases n - i,
    {
        v.push(s.get_char(i));
        proof {
            assert(v@ =~= s@.take(i + 1));
        }
        i = i + 1;
    }
    proof {
        assert(s@.take(n as int) =~= s@);
    }
    v
}

/// A string holding the given characters, in order.
pub fn string_from_chars(v: &Vec<char>) -> (s: String)
    ensures
        s@ == v@,
{
    let mut s = String::new();
    let mut i: usize = 0;
    while i < v.len()
        invariant
            i <= v@.len(),
            s@ =~= v@.take(i as int),
        decreases v@.len() - i,
    {
        push_char(&mut s, v[i]);
        proof {
            assert(s@ =~= v@.take(i + 1));
        }
        i = i + 1;
    }
    proof {
        assert(v@.take(v@.len() as int) =~= v@);
    }
    s
}

/// The upper-case hexadecimal digit for a value below sixteen.
pub open spec fn hex_char_of(d: int) -> char {
    if d == 0 {
        '0'
    } else if d == 1 {
        '1'
    } else if d == 2 {
        '2'
    } else if d == 3 {
        '3'
    } else if d == 4 {
        '4'
    } else if d == 5 {
        '5'
    } else if d == 6 {
        '6'
    } else if d == 7 {
        '7'
    } else if d == 8 {
        '8'
    } else if d == 9 {
        '9'
    } else if d == 10 {
        'A'
    } else if d == 11 {
        'B'
    } else if d == 12 {
        'C'
    } else if d == 13 {
        'D'
    } else if d == 14 {
        'E'
    } else {
        'F'
    }
}

/// The numeric value of an upper-case hexadecimal digit, or -1 for any
/// other character.
pub open spec fn hex_val_of(c: char) -> int {
    if '0' <= c && c <= '9' {
        c as int - '0' as int
    } else if 'A' <= c && c <= 'F' {
        c as int - 'A' as int + 10
    } else {
        -1
    }
}

pub fn hex_char(d: u8) -> (c: char)
    requires
        d < 16,
    ensures
        c == hex_char_of(d as int),
{
    if d == 0 {
        '0'
    } else if d == 1 {
        '1'
    } else if d == 2 {
        '2'
    } else if d == 3 {
        '3'
    } else if d == 4 {
        '4'
    } else if d == 5 {
        '5'
    } else if d == 6 {
        '6'
    } else if d == 7 {
        '7'
    } else if d == 8 {
        '8'
    } else if d == 9 {
        '9'
    } else if d == 10 {
        'A'
    } else if d == 11 {
        'B'
    } else if d == 12 {
        'C'
    } else if d == 13 {
        'D'
    } else if d == 14 {
        'E'
    } else {
        'F'
    }
}

/// The numeric value of a character as a hexadecimal digit, or `None`.
pub fn hex_val(c: char) -> (r: Option<u8>)
    ensures
        match r {
            Some(d) => d < 16 && hex_val_of(c) == d as int,
            None => hex_val_of(c) == -1,
        },
{
    if '0' <= c && c <= '9' {
        Some((c as u8) - ('0' as u8))
    } else if 'A' <= c && c <= 'F' {
        Some((c as u8) - ('A' as u8) + 10)
    } else {
        None
    }
}

/// Rendering then reading a hexadecimal digit gives the digit back.
pub proof fn lemma_hex_digit_round_trip(d: int)
    requires
        0 <= d < 16,
    ensures
        hex_val_of(hex_char_of(d)) == d,
{
}

/// Powers of sixteen.
pub open spec fn pow16(k: nat) -> nat
    decreases k,
{
    if k == 0 {
        1
    } else {
        16 * pow16((k - 1) as nat)
    }
}

/// The sixteen-digit upper-case hexadecimal rendering of a 64-bit value,
/// most significant digit first, with leading zeros kept.
pub open spec fn hex16_of(v: u64) -> Seq<char> {
    Seq::new(16, |i: int| hex_char_of(hex_digit16(v, i)))
}

/// Digit `i` (0 = most significant) of the sixteen-digit rendering.
pub open spec fn hex_digit16(v: u64, i: int) -> int {
    ((v as int) / (pow16((15 - i) as nat) as int)) % 16
}

/// The value of a sequence of hexadecimal digit characters.
pub open spec fn hex_val_seq(s: Seq<char>) -> int
    decreases s.len(),
{
    if s.len() == 0 {
        0
    } else {
        hex_val_seq(s.drop_last()) * 16 + hex_val_of(s.last())
    }
}

/// Whether every character of a sequence is an upper-case hexadecimal digit.
pub open spec fn all_hex_digits(s: Seq<char>) -> bool {
    forall|i: int| 0 <= i < s.len() ==> hex_val_of(s[i]) >= 0
}

proof fn lemma_pow16_pos(k: nat)
    ensures
        pow16(k) >= 1,
    decreases k,
{
    if k > 0 {
        lemma_pow16_pos((k - 1) as nat);
    }
}

proof fn lemma_pow16_values()
    ensures
        pow16(15) == 0x1000_0000_0000_0000,
        pow16(16) == 0x1_0000_0000_0000_0000,
{
    reveal_with_fuel(pow16, 17);
}

/// The value of a prefix of the rendering of `v` is the corresponding
/// high-order part of `v`.
proof fn lemma_hex16_prefix(v: u64, i: int)
    requires
        0 <= i <= 16,
    ensures
        hex_val_seq(hex16_of(v).take(i)) == (v as int) / (pow16((16 - i) as nat) as int),
    decreases i,
{
    lemma_pow16_pos((16 - i) as nat);
    if i == 0 {
        let p = pow16(16) as int;
        lemma_pow16_values();
        assert((v as int) / p == 0) by {
            vstd::arithmetic::div_mod::lemma_basic_div(v as int, p);
        }
    } else {
        lemma_hex16_prefix(v, i - 1);
        let s = hex16_of(v);
        let p = pow16((16 - i) as nat) as int;
        lemma_pow16_pos((15 - (i - 1)) as nat);
        assert(s.take(i).drop_last() =~= s.take(i - 1));
        assert(s.take(i).last() == s[i - 1]);
        let d = hex_digit16(v, i - 1);
        assert(0 <= d < 16) by {
            assert(((v as int) / (pow16((15 - (i - 1)) as nat) as int)) % 16 == d);
        }
        lemma_hex_digit_round_trip(d);
        assert(hex_val_of(s[i - 1]) == d);
        // pow16(17 - i) == 16 * pow16(16 - i)
        assert(pow16((16 - (i - 1)) as nat) == 16 * pow16((16 - i) as nat));
        // (v / p) / 16 == v / (16 * p)
        lemma_div_denominator(v as int, p, 16);
        assert((v as int) / (16 * p) == ((v as int) / p) / 16) by {
            assert(p * 16 == 16 * p) by (nonlinear_arith);
        }
        lemma_fundamental_div_mod((v as int) / p, 16);
        assert(hex_val_seq(s.take(i)) == hex_val_seq(s.take(i - 1)) * 16 + d);
    }
}

/// Reading the sixteen-digit rendering of a value gives the value back.
pub proof fn lemma_hex16_round_trip(v: u64)
    ensures
        hex_val_seq(hex16_of(v)) == v,
        all_hex_digits(hex16_of(v)),
        hex16_of(v).len() == 16,
{
    lemma_hex16_prefix(v, 16);
    assert(hex16_of(v).take(16) =~= hex16_of(v));
    assert(pow16(0) == 1);
    assert((v as int) / 1 == v as int);
    assert forall|i: int| 0 <= i < 16 implies hex_val_of(hex16_of(v)[i]) >= 0 by {
        let d = hex_digit16(v, i);
        assert(0 <= d < 16);
        lemma_hex_digit_round_trip(d);
    }
}

/// A sequence of hexadecimal digits is worth less than sixteen to the power
/// of its length.
proof fn lemma_hex_val_seq_bound(s: Seq<char>)
    requires
        all_hex_digits(s),
    ensures
        0 <= hex_val_seq(s) < pow16(s.len()),
    decreases s.len(),
{
    if s.len() == 0 {
    } else {
        assert(all_hex_digits(s.drop_last()));
        lemma_hex_val_seq_bound(s.drop_last());
        assert(0 <= hex_val_of(s.last()) < 16);
        assert(pow16(s.len()) == 16 * pow16((s.len() - 1) as nat));
        assert(hex_val_seq(s.drop_last()) * 16 + 16 <= pow16((s.len() - 1) as nat) * 16) by (nonlinear_arith)
            requires
                hex_val_seq(s.drop_last()) < pow16((s.len() - 1) as nat),
        ;
        assert(pow16((s.len() - 1) as nat) * 16 == 16 * pow16((s.len() - 1) as nat)) by (nonlinear_arith);
    }
}

/// Render a 64-bit value as sixteen upper-case hexadecimal digits.
pub fn render_hex16(v: u64) -> (s: Vec<char>)
    ensures
        s@ == hex16_of(v),
{
    let mut s: Vec<char> = Vec::new();
    let mut p: u64 = 0x1000_0000_0000_0000;
    let mut i: usize = 0;
    proof {
        lemma_pow16_values();
    }
    while i < 16
        invariant
            i <= 16,
            s@.len() == i,
            s@ =~= hex16_of(v).take(i as int),
            i < 16 ==> p as int == pow16((15 - i) as nat),
        decreases 16 - i,
    {
        proof {
            lemma_pow16_pos((15 - i) as nat);
        }
        let d: u8 = ((v / p) % 16) as u8;
        proof {
            assert(hex_digit16(v, i as int) == d as int);
        }
        s.push(hex_char(d));
        proof {
            assert(s@ =~= hex16_of(v).take(i + 1));
        }
        if i < 15 {
            proof {
                assert(pow16((15 - i) as nat) == 16 * pow16((14 - i) as nat));
                lemma_div_multiples_vanish(pow16((14 - i) as nat) as int, 16);
            }
            p = p / 16;
        }
        i = i + 1;
    }
    proof {
        assert(s@ =~= hex16_of(v));
    }
    s
}

/// Parse sixteen upper-case hexadecimal digits starting at `start`.
pub fn parse_hex16_at(s: &Vec<char>, start: usize) -> (r: Option<u64>)
    requires
        start + 16 <= s@.len(),
    ensures
        match r {
            Some(v) => all_hex_digits(s@.subrange(start as int, start + 16)) && v
                == hex_val_seq(s@.subrange(start as int, start + 16)),
            None => !all_hex_digits(s@.subrange(start as int, start + 16)),
        },
{
    let ghost digits = s@.subrange(start as int, start + 16);
    let n: usize = s.len();
    let mut acc: u64 = 0;
    let mut i: usize = 0;
    while i < 16
        invariant
            i <= 16,
            n == s@.len(),
            start + 16 <= n,
            digits == s@.subrange(start as int, start + 16),
            all_hex_digits(digits.take(i as int)),
            acc as int == hex_val_seq(digits.take(i as int)),
            (acc as int) < pow16(i as nat),
        decreases 16 - i,
    {
        let c = s[start + i];
        proof {
            assert(digits[i as int] == s@[start + i]);
        }
        match hex_val(c) {
            None => {
                proof {
                    assert(hex_val_of(digits[i as int]) == -1);
                }
                return None;
            },
            Some(d) => {
                proof {
                    lemma_pow16_values();
                    lemma_pow16_mono(i as nat, 15);
                    assert(acc as int * 16 + d < pow16((i + 1) as nat)) by (nonlinear_arith)
                        requires
                            (acc as int) < pow16(i as nat),
                            d < 16,
                            pow16((i + 1) as nat) == 16 * pow16(i as nat),
                    ;
                    assert(pow16((i + 1) as nat) <= pow16(16)) by {
                        lemma_pow16_mono((i + 1) as nat, 16);
                    }
                }
                acc = acc * 16 + (d as u64);
                proof {
                    assert(digits.take(i + 1).drop_last() =~= digits.take(i as int));
                    assert(digits.take(i + 1).last() == digits[i as int]);
                }
                i = i + 1;
            },
        }
    }
    proof {
        assert(digits.take(16) =~= digits);
    }
    Some(acc)
}

proof fn lemma_pow16_mono(a: nat, b: nat)
    requires
        a <= b,
    ensures
        pow16(a) <= pow16(b),
    decreases b,
{
    if a < b {
        lemma_pow16_mono(a, (b - 1) as nat);
        lemma_pow16_pos((b - 1) as nat);
    }
}

/// The decimal rendering of a value, most significant digit first, with no
/// leading zeros.
pub open spec fn dec_of(v: nat) -> Seq<char>
    decreases v,
{
    if v < 10 {
        seq![hex_char_of(v as int)]
    } else {
        dec_of(v / 10).push(hex_char_of((v % 10) as int))
    }
}

/// The value of a sequence of decimal digit characters.
pub open spec fn dec_val_seq(s: Seq<char>) -> int
    decreases s.len(),
{
    if s.len() == 0 {
        0
    } else {
        dec_val_seq(s.drop_last()) * 10 + hex_val_of(s.last())
    }
}

/// Whether every character of a sequence is a decimal digit.
pub open spec fn all_dec_digits(s: Seq<char>) -> bool {
    forall|i: int| 0 <= i < s.len() ==> '0' <= #[trigger] s[i] && s[i] <= '9'
}

/// Reading the decimal rendering of a value gives the value back.
pub proof fn lemma_dec_round_trip(v: nat)
    ensures
        dec_val_seq(dec_of(v)) == v,
        all_dec_digits(dec_of(v)),
        dec_of(v).len() >= 1,
    decreases v,
{
    if v < 10 {
        lemma_hex_digit_round_trip(v as int);
        assert(dec_of(v) == seq![hex_char_of(v as int)]);
        assert(dec_of(v).drop_last() =~= Seq::<char>::empty());
        assert(dec_val_seq(Seq::<char>::empty()) == 0);
        assert(dec_val_seq(dec_of(v)) == 0 * 10 + hex_val_of(dec_of(v).last()));
    } else {
        lemma_dec_round_trip(v / 10);
        let s = dec_of(v);
        assert(s.drop_last() =~= dec_of(v / 10));
        assert(s.last() == hex_char_of((v % 10) as int));
        lemma_hex_digit_round_trip((v % 10) as int);
        lemma_fundamental_div_mod(v as int, 10);
        assert(dec_val_seq(s) == dec_val_seq(s.drop_last()) * 10 + hex_val_of(s.last()));
        assert(dec_val_seq(s.drop_last()) == v / 10);
        assert forall|i: int| 0 <= i < s.len() implies '0' <= #[trigger] s[i] && s[i] <= '9' by {
            if i < s.len() - 1 {
                assert(s[i] == dec_of(v / 10)[i]);
            }
        }
    }
}

/// Render a 32-bit value in decimal.
pub fn render_dec_u32(v: u32) -> (s: Vec<char>)
    ensures
        s@ == dec_of(v as nat),
{
    let mut rev: Vec<char> = Vec::new();
    let mut x: u32 = v;
    loop
        invariant_except_break
            dec_of(v as nat) =~= dec_of(x as nat) + rev@.reverse(),
        ensures
            dec_of(v as nat) =~= rev@.reverse(),
        decreases x,
    {
        let d: u8 = (x % 10) as u8;
        rev.push(hex_char(d));
        proof {
            assert(rev@.reverse() =~= seq![hex_char_of(d as int)] + rev@.drop_last().reverse());
            if x >= 10 {
                assert(dec_of(x as nat) == dec_of((x as nat) / 10).push(hex_char_of(d as int)));
                assert(dec_of((x / 10) as nat) + rev@.reverse() =~= dec_of(x as nat)
                    + rev@.drop_last().reverse());
            } else {
                assert(dec_of(x as nat) =~= seq![hex_char_of(d as int)]);
            }
        }
        if x < 10 {
            break;
        }
        x = x / 10;
    }
    let mut s: Vec<char> = Vec::new();
    let mut i: usize = rev.len();
    while i > 0
        invariant
            i <= rev@.len(),
            s@ =~= rev@.reverse().take(rev@.len() - i),
        decreases i,
    {
        i = i - 1;
        s.push(rev[i]);
        proof {
            assert(rev@.reverse()[rev@.len() - i - 1] == rev@[i as int]);
            assert(s@ =~= rev@.reverse().take(rev@.len() - i));
        }
    }
    proof {
        assert(rev@.reverse().take(rev@.len() as int) =~= rev@.reverse());
    }
    s
}

/// Render a value below one hundred as exactly two decimal digits.
pub fn render_dec2(v: u8) -> (s: Vec<char>)
    requires
        v < 100,
    ensures
        s@ == dec2_of(v as nat),
{
    let mut s: Vec<char> = Vec::new();
    if v < 10 {
        s.push('0');
        s.push(hex_char(v));
    } else {
        s.push(hex_char(v / 10));
        s.push(hex_char(v % 10));
        proof {
            assert(dec_of((v / 10) as nat) =~= seq![hex_char_of((v / 10) as int)]);
            assert(dec_of(v as nat) == dec_of((v / 10) as nat).push(hex_char_of((v % 10) as int)));
            assert(dec_of(v as nat) =~= seq![
                hex_char_of((v / 10) as int),
                hex_char_of((v % 10) as int),
            ]);
        }
    }
    proof {
        assert(s@ =~= dec2_of(v as nat));
    }
    s
}

/// A value below one hundred rendered as exactly two decimal digits.
pub open spec fn dec2_of(v: nat) -> Seq<char> {
    if v < 10 {
        seq!['0'] + dec_of(v)
    } else {
        dec_of(v)
    }
}

/// Parse a decimal number. `None` when the text is empty, holds a character
/// other than a digit, or is worth more than `u32::MAX`.
pub fn parse_dec_u32(s: &Vec<char>) -> (r: Option<u32>)
    ensures
        match r {
            Some(v) => s@.len() >= 1 && all_dec_digits(s@) && v == dec_val_seq(s@),
            None => s@.len() == 0 || !all_dec_digits(s@) || dec_val_seq(s@) > u32::MAX,
        },
{
    if s.len() == 0 {
        return None;
    }
    let mut acc: u64 = 0;
    let mut i: usize = 0;
    while i < s.len()
        invariant
            i <= s@.len(),
            all_dec_digits(s@.take(i as int)),
            acc as int == dec_val_seq(s@.take(i as int)),
            acc <= u32::MAX,
        decreases s@.len() - i,
    {
        let c = s[i];
        if c < '0' || c > '9' {
            return None;
        }
        let d: u8 = (c as u8) - ('0' as u8);
        acc = acc * 10 + (d as u64);
        proof {
            assert(s@.take(i + 1).drop_last() =~= s@.take(i as int));
            assert(s@.take(i + 1).last() == s@[i as int]);
            assert(hex_val_of(s@[i as int]) == d as int);
        }
        if acc > u32::MAX as u64 {
            proof {
                if all_dec_digits(s@) {
                    lemma_dec_val_seq_grows(s@, i + 1);
                }
            }
            return None;
        }
        i = i + 1;
    }
    proof {
        assert(s@.take(s@.len() as int) =~= s@);
    }
    Some(acc as u32)
}

/// The value of a sequence of decimal digits is not negative.
proof fn lemma_dec_val_seq_nonneg(s: Seq<char>)
    requires
        all_dec_digits(s),
    ensures
        dec_val_seq(s) >= 0,
    decreases s.len(),
{
    if s.len() > 0 {
        assert(all_dec_digits(s.drop_last()));
        lemma_dec_val_seq_nonneg(s.drop_last());
        assert(hex_val_of(s.last()) >= 0);
    }
}

/// The value of a sequence of decimal digits is at least the value of any
/// of its prefixes.
proof fn lemma_dec_val_seq_grows(s: Seq<char>, i: int)
    requires
        0 <= i <= s.len(),
        all_dec_digits(s),
    ensures
        dec_val_seq(s) >= dec_val_seq(s.take(i)),
    decreases s.len(),
{
    if i == s.len() {
        assert(s.take(i) =~= s);
    } else {
        assert(all_dec_digits(s.drop_last()));
        lemma_dec_val_seq_grows(s.drop_last(), i);
        assert(s.drop_last().take(i) =~= s.take(i));
        assert(hex_val_of(s.last()) >= 0);
        lemma_dec_val_seq_nonneg(s.drop_last());
    }
}


/// Whether two character lists hold the same characters in the same order.
pub fn chars_equal(a: &Vec<char>, b: &Vec<char>) -> (r: bool)
    ensures
        r == (a@ == b@),
{
    if a.len() != b.len() {
        return false;
    }
    let mut i: usize = 0;
    while i < a.len()
        invariant
            a@.len() == b@.len(),
            i <= a@.len(),
            forall|j: int| 0 <= j < i ==> a@[j] == b@[j],
        decreases a@.len() - i,
    {
        if a[i] != b[i] {
            return false;
        }
        i = i + 1;
    }
    proof {
        assert(a@ =~= b@);
    }
    true
}

/// Whether text is a well-formed number line: an optionally
/// whitespace-wrapped decimal number no larger than `u32::MAX`.
pub open spec fn trimmed_u32_ok(s: Seq<char>) -> bool {
    &&& trimmed(s).len() >= 1
    &&& all_dec_digits(trimmed(s))
    &&& dec_val_seq(trimmed(s)) <= u32::MAX
}

/// The number a well-formed number line holds.
pub open spec fn trimmed_u32_value(s: Seq<char>) -> int {
    dec_val_seq(trimmed(s))
}

/// The text with leading and trailing ASCII whitespace removed.
pub open spec fn trimmed(s: Seq<char>) -> Seq<char> {
    let lo = first_non_ws(s, 0);
    let hi = last_non_ws(s);
    if lo <= hi {
        s.subrange(lo, hi)
    } else {
        Seq::empty()
    }
}

/// Whether a character counts as surrounding whitespace in small text
/// files.
pub open spec fn is_ws_char(c: char) -> bool {
    c == ' ' || c == '\t' || c == '\n' || c == '\u{D}'
}

/// The first index at or after `i` holding a non-whitespace character.
pub open spec fn first_non_ws(s: Seq<char>, i: int) -> int
    decreases s.len() - i,
{
    if 0 <= i < s.len() && is_ws_char(s[i]) {
        first_non_ws(s, i + 1)
    } else {
        i
    }
}

/// One past the last index holding a non-whitespace character.
pub open spec fn last_non_ws(s: Seq<char>) -> int
    decreases s.len(),
{
    if s.len() == 0 {
        0
    } else if is_ws_char(s.last()) {
        last_non_ws(s.drop_last())
    } else {
        s.len() as int
    }
}

/// Read a whitespace-wrapped decimal number, as version files hold one.
pub fn parse_trimmed_u32(s: &Vec<char>) -> (r: Option<u32>)
    ensures
        match r {
            Some(v) => trimmed_u32_ok(s@) && v == trimmed_u32_value(s@),
            None => !trimmed_u32_ok(s@),
        },
{
    let n = s.len();
    let mut lo: usize = 0;
    loop
        invariant
            n == s@.len(),
            lo <= n,
            first_non_ws(s@, 0) == first_non_ws(s@, lo as int),
            forall|j: int| 0 <= j < lo ==> is_ws_char(#[trigger] s@[j]),
        ensures
            lo <= n,
            first_non_ws(s@, 0) == lo as int,
            forall|j: int| 0 <= j < lo ==> is_ws_char(#[trigger] s@[j]),
        decreases n - lo,
    {
        if lo >= n {
            break ;
        }
        if !is_ws(s[lo]) {
            break ;
        }
        lo = lo + 1;
    }
    let mut hi: usize = n;
    proof {
        assert(s@.take(n as int) =~= s@);
    }
    loop
        invariant
            n == s@.len(),
            lo <= hi <= n,
            first_non_ws(s@, 0) == lo as int,
            forall|j: int| 0 <= j < lo ==> is_ws_char(#[trigger] s@[j]),
            last_non_ws(s@) == last_non_ws(s@.take(hi as int)),
        ensures
            lo <= hi <= n,
            n == s@.len(),
            hi > lo ==> last_non_ws(s@) == hi as int,
            hi == lo ==> last_non_ws(s@) <= lo as int,
        decreases hi,
    {
        if hi <= lo {
            proof {
                lemma_last_non_ws_of_ws_prefix(s@, lo as int);
            }
            break ;
        }
        if !is_ws(s[hi - 1]) {
            proof {
                assert(s@.take(hi as int).last() == s@[hi - 1]);
                assert(last_non_ws(s@.take(hi as int)) == hi as int);
            }
            break ;
        }
        proof {
            assert(s@.take(hi as int).drop_last() =~= s@.take(hi - 1));
            assert(s@.take(hi as int).last() == s@[hi - 1]);
        }
        hi = hi - 1;
    }
    let mut digits: Vec<char> = Vec::new();
    let mut i: usize = lo;
    proof {
        assert(digits@ =~= s@.subrange(lo as int, lo as int));
    }
    while i < hi
        invariant
            lo <= i <= hi <= n,
            n == s@.len(),
            digits@ =~= s@.subrange(lo as int, i as int),
        decreases hi - i,
    {
        digits.push(s[i]);
        proof {
            assert(digits@ =~= s@.subrange(lo as int, i + 1));
        }
        i = i + 1;
    }
    proof {
        if hi > lo {
            assert(digits@ =~= trimmed(s@));
        } else {
            assert(digits@ =~= Seq::<char>::empty());
            if first_non_ws(s@, 0) <= last_non_ws(s@) {
                assert(s@.subrange(lo as int, lo as int) =~= Seq::<char>::empty());
                assert(trimmed(s@) =~= Seq::<char>::empty());
            }
            assert(digits@ =~= trimmed(s@));
        }
    }
    parse_dec_u32(&digits)
}

/// Whether the character is surrounding whitespace.
fn is_ws(c: char) -> (r: bool)
    ensures
        r == is_ws_char(c),
{
    c == ' ' || c == '\t' || c == '\n' || c == '\u{D}'
}

/// A whole prefix of whitespace up to `lo` leaves nothing before `lo` for
/// the trailing trim to keep.
proof fn lemma_last_non_ws_of_ws_prefix(s: Seq<char>, lo: int)
    requires
        0 <= lo <= s.len(),
        forall|j: int| 0 <= j < lo ==> is_ws_char(s[j]),
    ensures
        last_non_ws(s.take(lo)) <= lo,
    decreases lo,
{
    if lo > 0 {
        assert(s.take(lo).last() == s[lo - 1]);
        assert(s.take(lo).drop_last() =~= s.take(lo - 1));
        lemma_last_non_ws_of_ws_prefix(s, lo - 1);
    }
}



/// A decimal number followed by a line break is a well-formed number
/// line worth that number.
pub proof fn lemma_number_line(v: u32)
    ensures
        trimmed_u32_ok(dec_of(v as nat) + seq!['\n']),
        trimmed_u32_value(dec_of(v as nat) + seq!['\n']) == v,
{
    let ds = dec_of(v as nat);
    lemma_dec_round_trip(v as nat);
    let s = ds + seq!['\n'];
    assert(s[0] == ds[0]);
    assert('0' <= ds[0] && ds[0] <= '9');
    assert(!is_ws_char(s[0]));
    assert(first_non_ws(s, 0) == 0);
    assert(s.last() == '\n');
    assert(s.drop_last() =~= ds);
    assert(ds.last() == ds[ds.len() - 1]);
    assert('0' <= ds.last() && ds.last() <= '9');
    assert(last_non_ws(ds) == ds.len());
    assert(last_non_ws(s) == ds.len());
    assert(trimmed(s) =~= ds);
}


/// Two decimal digits read back to the value they render.
pub proof fn lemma_dec2_round_trip(v: nat)
    requires
        v < 100,
    ensures
        dec_val_seq(dec2_of(v)) == v,
        dec2_of(v).len() == 2,
{
    lemma_dec_round_trip(v);
    if v < 10 {
        let s = dec2_of(v);
        assert(dec_of(v) =~= seq![hex_char_of(v as int)]);
        assert(s =~= seq!['0', hex_char_of(v as int)]);
        assert(s.drop_last() =~= seq!['0']);
        assert(seq!['0'].drop_last() =~= Seq::<char>::empty());
        assert(dec_val_seq(Seq::<char>::empty()) == 0);
        assert(dec_val_seq(seq!['0']) == 0 * 10 + hex_val_of('0'));
        lemma_hex_digit_round_trip(v as int);
        assert(dec_val_seq(s) == dec_val_seq(s.drop_last()) * 10 + hex_val_of(s.last()));
    } else {
        assert(dec_of((v / 10) as nat) =~= seq![hex_char_of((v / 10) as int)]);
        assert(dec_of(v).len() == 2);
    }
}

} // verus!
