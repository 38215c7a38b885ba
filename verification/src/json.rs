//! JSON text primitives shared by the note and state codecs: string
//! escaping, and a strict reader for quoted strings.
//!
//! The writer emits compact JSON: quotes and backslashes are escaped with a
//! backslash, control characters as `\u00XX`, everything else stands as it
//! is. The reader also accepts the short escapes `\/`, `\b`, `\f`, `\n`,
//! `\r` and `\t`, and lower-case hexadecimal digits in `\u` escapes, as
//! other writers of this format produce them.

use vstd::prelude::*;

use crate::text::{hex_char, hex_char_of};

verus! {

/// The control character with the given code, below 32.
pub open spec fn control_char_of(n: int) -> char {
    if n == 0 {
        '\u{0}'
    } else if n == 1 {
        '\u{1}'
    } else if n == 2 {
        '\u{2}'
    } else if n == 3 {
        '\u{3}'
    } else if n == 4 {
        '\u{4}'
    } else if n == 5 {
        '\u{5}'
    } else if n == 6 {
        '\u{6}'
    } else if n == 7 {
        '\u{7}'
    } else if n == 8 {
        '\u{8}'
    } else if n == 9 {
        '\u{9}'
    } else if n == 10 {
        '\u{A}'
    } else if n == 11 {
        '\u{B}'
    } else if n == 12 {
        '\u{C}'
    } else if n == 13 {
        '\u{D}'
    } else if n == 14 {
        '\u{E}'
    } else if n == 15 {
        '\u{F}'
    } else if n == 16 {
        '\u{10}'
    } else if n == 17 {
        '\u{11}'
    } else if n == 18 {
        '\u{12}'
    } else if n == 19 {
        '\u{13}'
    } else if n == 20 {
        '\u{14}'
    } else if n == 21 {
        '\u{15}'
    } else if n == 22 {
        '\u{16}'
    } else if n == 23 {
        '\u{17}'
    } else if n == 24 {
        '\u{18}'
    } else if n == 25 {
        '\u{19}'
    } else if n == 26 {
        '\u{1A}'
    } else if n == 27 {
        '\u{1B}'
    } else if n == 28 {
        '\u{1C}'
    } else if n == 29 {
        '\u{1D}'
    } else if n == 30 {
        '\u{1E}'
    } else {
        '\u{1F}'
    }
}

fn control_char(n: u8) -> (c: char)
    requires
        n < 32,
    ensures
        c == control_char_of(n as int),
{
    if n == 0 {
        '\u{0}'
    } else if n == 1 {
        '\u{1}'
    } else if n == 2 {
        '\u{2}'
    } else if n == 3 {
        '\u{3}'
    } else if n == 4 {
        '\u{4}'
    } else if n == 5 {
        '\u{5}'
    } else if n == 6 {
        '\u{6}'
    } else if n == 7 {
        '\u{7}'
    } else if n == 8 {
        '\u{8}'
    } else if n == 9 {
        '\u{9}'
    } else if n == 10 {
        '\u{A}'
    } else if n == 11 {
        '\u{B}'
    } else if n == 12 {
        '\u{C}'
    } else if n == 13 {
        '\u{D}'
    } else if n == 14 {
        '\u{E}'
    } else if n == 15 {
        '\u{F}'
    } else if n == 16 {
        '\u{10}'
    } else if n == 17 {
        '\u{11}'
    } else if n == 18 {
        '\u{12}'
    } else if n == 19 {
        '\u{13}'
    } else if n == 20 {
        '\u{14}'
    } else if n == 21 {
        '\u{15}'
    } else if n == 22 {
        '\u{16}'
    } else if n == 23 {
        '\u{17}'
    } else if n == 24 {
        '\u{18}'
    } else if n == 25 {
        '\u{19}'
    } else if n == 26 {
        '\u{1A}'
    } else if n == 27 {
        '\u{1B}'
    } else if n == 28 {
        '\u{1C}'
    } else if n == 29 {
        '\u{1D}'
    } else if n == 30 {
        '\u{1E}'
    } else {
        '\u{1F}'
    }
}

/// The value of a hexadecimal digit of either case, or -1.
pub open spec fn hex_val_any_of(c: char) -> int {
    if '0' <= c && c <= '9' {
        c as int - '0' as int
    } else if 'A' <= c && c <= 'F' {
        c as int - 'A' as int + 10
    } else if 'a' <= c && c <= 'f' {
        c as int - 'a' as int + 10
    } else {
        -1
    }
}

fn hex_val_any(c: char) -> (r: Option<u8>)
    ensures
        match r {
            Some(d) => d < 16 && hex_val_any_of(c) == d as int,
            None => hex_val_any_of(c) == -1,
        },
{
    if '0' <= c && c <= '9' {
        Some((c as u8) - ('0' as u8))
    } else if 'A' <= c && c <= 'F' {
        Some((c as u8) - ('A' as u8) + 10)
    } else if 'a' <= c && c <= 'f' {
        Some((c as u8) - ('a' as u8) + 10)
    } else {
        None
    }
}

/// How a character is written inside a JSON string.
pub open spec fn escape_char(c: char) -> Seq<char> {
    if c == '"' {
        seq!['\\', '"']
    } else if c == '\\' {
        seq!['\\', '\\']
    } else if (c as u32) < 32 {
        seq!['\\', 'u', '0', '0', hex_char_of((c as u32) as int / 16), hex_char_of((c as u32) as int % 16)]
    } else {
        seq![c]
    }
}

/// How a string's characters are written inside a JSON string.
pub open spec fn escape_string(s: Seq<char>) -> Seq<char>
    decreases s.len(),
{
    if s.len() == 0 {
        Seq::empty()
    } else {
        escape_char(s[0]) + escape_string(s.drop_first())
    }
}

/// A string as a JSON value: escaped, between quotes.
pub open spec fn quoted(s: Seq<char>) -> Seq<char> {
    seq!['"'] + escape_string(s) + seq!['"']
}

/// A character that is written as itself inside a JSON string.
pub open spec fn is_plain(c: char) -> bool {
    c != '"' && c != '\\' && (c as u32) >= 32
}

/// Escaping text of plain characters changes nothing.
pub proof fn lemma_escape_plain(t: Seq<char>)
    requires
        forall|i: int| 0 <= i < t.len() ==> is_plain(#[trigger] t[i]),
    ensures
        escape_string(t) == t,
    decreases t.len(),
{
    if t.len() > 0 {
        assert(is_plain(t[0]));
        assert(escape_char(t[0]) == seq![t[0]]);
        assert forall|i: int| 0 <= i < t.drop_first().len() implies is_plain(
            #[trigger] t.drop_first()[i],
        ) by {
            assert(t.drop_first()[i] == t[i + 1]);
        }
        lemma_escape_plain(t.drop_first());
        assert(seq![t[0]] + t.drop_first() =~= t);
    }
}

/// A quoted string of plain characters is the string between two quotes.
pub proof fn lemma_quoted_plain(t: Seq<char>)
    requires
        forall|i: int| 0 <= i < t.len() ==> is_plain(#[trigger] t[i]),
    ensures
        quoted(t) == seq!['"'] + t + seq!['"'],
        quoted(t).len() == t.len() + 2,
{
    lemma_escape_plain(t);
}

/// Splitting knowledge of a text region into its two parts.
pub proof fn lemma_peel(s: Seq<char>, i: int, a: Seq<char>, b: Seq<char>)
    requires
        0 <= i,
        i + a.len() + b.len() <= s.len(),
        s.subrange(i, i + a.len() + b.len()) == a + b,
    ensures
        s.subrange(i, i + a.len()) == a,
        s.subrange(i + a.len(), i + a.len() + b.len()) == b,
{
    assert(s.subrange(i, i + a.len()) =~= a) by {
        assert forall|k: int| 0 <= k < a.len() implies s.subrange(i, i + a.len())[k] == a[k] by {
            assert(s.subrange(i, i + a.len())[k] == s[i + k]);
            assert(s.subrange(i, i + a.len() + b.len())[k] == s[i + k]);
            assert((a + b)[k] == a[k]);
        }
    }
    assert(s.subrange(i + a.len(), i + a.len() + b.len()) =~= b) by {
        assert forall|k: int|
            0 <= k < b.len() implies s.subrange(i + a.len(), i + a.len() + b.len())[k] == b[k] by {
            assert(s.subrange(i + a.len(), i + a.len() + b.len())[k] == s[i + a.len() + k]);
            assert(s.subrange(i, i + a.len() + b.len())[a.len() + k] == s[i + a.len() + k]);
            assert((a + b)[a.len() + k] == b[k]);
        }
    }
}

/// The character a known text region holds at offset `k`.
pub proof fn lemma_char_at(s: Seq<char>, i: int, a: Seq<char>, k: int)
    requires
        0 <= i,
        i + a.len() <= s.len(),
        s.subrange(i, i + a.len()) == a,
        0 <= k < a.len(),
    ensures
        s[i + k] == a[k],
{
    assert(s.subrange(i, i + a.len())[k] == s[i + k]);
}

/// Escaping a concatenation escapes the parts.
pub proof fn lemma_escape_concat(a: Seq<char>, b: Seq<char>)
    ensures
        escape_string(a + b) == escape_string(a) + escape_string(b),
    decreases a.len(),
{
    if a.len() == 0 {
        assert(a + b =~= b);
        assert(escape_string(a) + escape_string(b) =~= escape_string(b));
    } else {
        assert((a + b).len() > 0);
        assert((a + b)[0] == a[0]);
        assert((a + b).drop_first() =~= a.drop_first() + b);
        lemma_escape_concat(a.drop_first(), b);
        assert(escape_char(a[0]) + (escape_string(a.drop_first()) + escape_string(b)) =~= (
        escape_char(a[0]) + escape_string(a.drop_first())) + escape_string(b));
    }
}

/// Write a string's escaped characters onto `out`.
pub fn push_escaped(out: &mut Vec<char>, text: &Vec<char>)
    ensures
        final(out)@ == old(out)@ + escape_string(text@),
{
    let ghost base = old(out)@;
    let mut j: usize = 0;
    proof {
        assert(text@.take(0) =~= Seq::<char>::empty());
        assert(base + escape_string(text@.take(0)) =~= base);
    }
    while j < text.len()
        invariant
            j <= text@.len(),
            out@ == base + escape_string(text@.take(j as int)),
        decreases text@.len() - j,
    {
        let c = text[j];
        if c == '"' {
            out.push('\\');
            out.push('"');
        } else if c == '\\' {
            out.push('\\');
            out.push('\\');
        } else if (c as u32) < 32 {
            out.push('\\');
            out.push('u');
            out.push('0');
            out.push('0');
            let code = c as u32;
            out.push(hex_char((code / 16) as u8));
            out.push(hex_char((code % 16) as u8));
        } else {
            out.push(c);
        }
        proof {
            assert(text@.take(j + 1) =~= text@.take(j as int) + seq![text@[j as int]]);
            lemma_escape_concat(text@.take(j as int), seq![text@[j as int]]);
            assert(escape_string(seq![c]) == escape_char(c) + escape_string(Seq::<char>::empty()))
                by {
                assert(seq![c].drop_first() =~= Seq::<char>::empty());
            }
            assert(escape_char(c) + Seq::<char>::empty() =~= escape_char(c));
            assert(out@ =~= base + escape_string(text@.take(j + 1)));
        }
        j = j + 1;
    }
    proof {
        assert(text@.take(text@.len() as int) =~= text@);
    }
}

/// Write a string as a quoted JSON value onto `out`.
pub fn push_quoted(out: &mut Vec<char>, text: &Vec<char>)
    ensures
        final(out)@ == old(out)@ + quoted(text@),
{
    let ghost base = old(out)@;
    out.push('"');
    proof {
        assert(out@ =~= base + seq!['"']);
    }
    push_escaped(out, text);
    out.push('"');
    proof {
        assert(out@ =~= base + quoted(text@));
    }
}

/// Read the body of a JSON string from index `i` up to its closing quote:
/// the string read so far is `acc`. `None` on a malformed body.
pub open spec fn parse_str_body(s: Seq<char>, i: int, acc: Seq<char>) -> Option<(Seq<char>, int)>
    decreases s.len() - i,
{
    if i < 0 || i >= s.len() {
        None
    } else if s[i] == '"' {
        Some((acc, i + 1))
    } else if s[i] == '\\' {
        if i + 2 > s.len() {
            None
        } else {
            let e = s[i + 1];
            if e == '"' {
                parse_str_body(s, i + 2, acc.push('"'))
            } else if e == '\\' {
                parse_str_body(s, i + 2, acc.push('\\'))
            } else if e == '/' {
                parse_str_body(s, i + 2, acc.push('/'))
            } else if e == 'b' {
                parse_str_body(s, i + 2, acc.push('\u{8}'))
            } else if e == 'f' {
                parse_str_body(s, i + 2, acc.push('\u{C}'))
            } else if e == 'n' {
                parse_str_body(s, i + 2, acc.push('\n'))
            } else if e == 'r' {
                parse_str_body(s, i + 2, acc.push('\u{D}'))
            } else if e == 't' {
                parse_str_body(s, i + 2, acc.push('\t'))
            } else if e == 'u' {
                if i + 6 > s.len() {
                    None
                } else {
                    let h1 = hex_val_any_of(s[i + 2]);
                    let h2 = hex_val_any_of(s[i + 3]);
                    let h3 = hex_val_any_of(s[i + 4]);
                    let h4 = hex_val_any_of(s[i + 5]);
                    if h1 < 0 || h2 < 0 || h3 < 0 || h4 < 0 {
                        None
                    } else {
                        let code = ((h1 * 16 + h2) * 16 + h3) * 16 + h4;
                        if code < 32 {
                            parse_str_body(s, i + 6, acc.push(control_char_of(code)))
                        } else {
                            None
                        }
                    }
                }
            } else {
                None
            }
        }
    } else if (s[i] as u32) < 32 {
        None
    } else {
        parse_str_body(s, i + 1, acc.push(s[i]))
    }
}

/// Read a quoted JSON string starting at `i`.
pub open spec fn parse_qstring(s: Seq<char>, i: int) -> Option<(Seq<char>, int)> {
    if 0 <= i < s.len() && s[i] == '"' {
        parse_str_body(s, i + 1, Seq::empty())
    } else {
        None
    }
}

/// Reading an escaped string body followed by a closing quote yields the
/// original string and stops after the quote.
pub proof fn lemma_parse_str_body_escaped(s: Seq<char>, i: int, acc: Seq<char>, t: Seq<char>)
    requires
        0 <= i,
        i + escape_string(t).len() + 1 <= s.len(),
        s.subrange(i, i + escape_string(t).len() + 1) == escape_string(t) + seq!['"'],
    ensures
        parse_str_body(s, i, acc) == Some((acc + t, i + escape_string(t).len() + 1)),
    decreases t.len(),
{
    let es = escape_string(t);
    let seg = s.subrange(i, i + es.len() + 1);
    if t.len() == 0 {
        assert(es =~= Seq::<char>::empty());
        assert(seg[0] == s[i]);
        assert(s[i] == '"');
        assert(acc + t =~= acc);
    } else {
        let c = t[0];
        let e1 = escape_char(c);
        let rest = t.drop_first();
        assert(es == e1 + escape_string(rest));
        assert forall|k: int| 0 <= k < e1.len() implies s[i + k] == e1[k] by {
            assert(seg[k] == s[i + k]);
            assert((e1 + escape_string(rest))[k] == e1[k]);
            assert((es + seq!['"'])[k] == es[k]);
        }
        let i2 = i + e1.len();
        assert(s.subrange(i2, i2 + escape_string(rest).len() + 1) =~= escape_string(rest)
            + seq!['"']) by {
            assert forall|k: int|
                0 <= k < escape_string(rest).len() + 1 implies s.subrange(
                i2,
                i2 + escape_string(rest).len() + 1,
            )[k] == (escape_string(rest) + seq!['"'])[k] by {
                assert(s.subrange(i2, i2 + escape_string(rest).len() + 1)[k] == s[i2 + k]);
                assert(s[i2 + k] == seg[e1.len() + k]);
                assert(seg[e1.len() + k] == (es + seq!['"'])[e1.len() + k]);
            }
        }
        if c == '"' {
            assert(e1 == seq!['\\', '"']);
            assert(s[i] == '\\' && s[i + 1] == '"');
            lemma_parse_str_body_escaped(s, i + 2, acc.push(c), rest);
            assert(acc.push(c) + rest =~= acc + t);
        } else if c == '\\' {
            assert(e1 == seq!['\\', '\\']);
            assert(s[i] == '\\' && s[i + 1] == '\\');
            lemma_parse_str_body_escaped(s, i + 2, acc.push(c), rest);
            assert(acc.push(c) + rest =~= acc + t);
        } else if (c as u32) < 32 {
            let cv = (c as u32) as int;
            assert(e1 == seq![
                '\\',
                'u',
                '0',
                '0',
                hex_char_of(cv / 16),
                hex_char_of(cv % 16),
            ]);
            assert(s[i] == '\\' && s[i + 1] == 'u' && s[i + 2] == '0' && s[i + 3] == '0');
            assert(s[i + 4] == hex_char_of(cv / 16));
            assert(s[i + 5] == hex_char_of(cv % 16));
            assert(hex_val_any_of('0') == 0);
            lemma_hex_val_any_round_trip(cv / 16);
            lemma_hex_val_any_round_trip(cv % 16);
            let code = ((0 * 16 + 0) * 16 + (cv / 16)) * 16 + (cv % 16);
            assert(code == cv) by {
                vstd::arithmetic::div_mod::lemma_fundamental_div_mod(cv, 16);
            }
            assert(control_char_of(code) == c) by {
                lemma_control_char_code(code);
                vstd::utf8::char_u32_cast(control_char_of(code), control_char_of(code) as u32);
                vstd::utf8::char_u32_cast(c, c as u32);
            }
            lemma_parse_str_body_escaped(s, i + 6, acc.push(c), rest);
            assert(acc.push(c) + rest =~= acc + t);
        } else {
            assert(e1 == seq![c]);
            assert(s[i + 0] == e1[0]);
            assert(s[i] == c);
            lemma_parse_str_body_escaped(s, i + 1, acc.push(c), rest);
            assert(acc.push(c) + rest =~= acc + t);
        }
    }
}

/// An upper-case hexadecimal digit reads back to its value.
proof fn lemma_hex_val_any_round_trip(d: int)
    requires
        0 <= d < 16,
    ensures
        hex_val_any_of(hex_char_of(d)) == d,
{
}

/// The control character for a code casts back to that code.
proof fn lemma_control_char_code(n: int)
    requires
        0 <= n < 32,
    ensures
        control_char_of(n) as u32 == n,
{
}

/// Reading a quoted, escaped string yields the original string.
pub proof fn lemma_parse_quoted(s: Seq<char>, i: int, t: Seq<char>)
    requires
        0 <= i,
        i + quoted(t).len() <= s.len(),
        s.subrange(i, i + quoted(t).len()) == quoted(t),
    ensures
        parse_qstring(s, i) == Some((t, i + quoted(t).len())),
{
    let q = quoted(t);
    assert(s[i] == '"') by {
        assert(s.subrange(i, i + q.len())[0] == s[i]);
    }
    assert(s.subrange(i + 1, i + 1 + escape_string(t).len() + 1) =~= escape_string(t)
        + seq!['"']) by {
        assert forall|k: int|
            0 <= k < escape_string(t).len() + 1 implies s.subrange(
            i + 1,
            i + 1 + escape_string(t).len() + 1,
        )[k] == (escape_string(t) + seq!['"'])[k] by {
            assert(s.subrange(i + 1, i + 1 + escape_string(t).len() + 1)[k] == s[i + 1 + k]);
            assert(s[i + 1 + k] == s.subrange(i, i + q.len())[1 + k]);
            assert(q[1 + k] == (escape_string(t) + seq!['"'])[k]);
        }
    }
    lemma_parse_str_body_escaped(s, i + 1, Seq::empty(), t);
    assert(Seq::empty() + t =~= t);
}

/// Read a quoted object key at `i` and the colon after it; the index
/// after the colon on success.
pub open spec fn expect_key(s: Seq<char>, i: int, key: Seq<char>) -> Option<int> {
    match parse_qstring(s, i) {
        None => None,
        Some((k, j)) => if k == key && j < s.len() && s[j] == ':' {
            Some(j + 1)
        } else {
            None
        },
    }
}

/// Read a quoted JSON string starting at `start`; on success, the string
/// and the index after the closing quote.
pub fn scan_qstring(s: &Vec<char>, start: usize) -> (r: Option<(Vec<char>, usize)>)
    ensures
        match r {
            Some(v) => parse_qstring(s@, start as int) == Some((v.0@, v.1 as int)) && start < v.1
                <= s@.len(),
            None => parse_qstring(s@, start as int) is None,
        },
{
    let n = s.len();
    if start >= n || s[start] != '"' {
        return None;
    }
    let mut acc: Vec<char> = Vec::new();
    let mut i: usize = start + 1;
    while i < n
        invariant
            n == s@.len(),
            start + 1 <= i <= n,
            s@[start as int] == '"',
            parse_str_body(s@, (start + 1) as int, Seq::empty()) == parse_str_body(
                s@,
                i as int,
                acc@,
            ),
        decreases n - i,
    {
        let c = s[i];
        if c == '"' {
            return Some((acc, i + 1));
        } else if c == '\\' {
            if n - i < 2 {
                return None;
            }
            let e = s[i + 1];
            if e == '"' {
                acc.push('"');
            } else if e == '\\' {
                acc.push('\\');
            } else if e == '/' {
                acc.push('/');
            } else if e == 'b' {
                acc.push('\u{8}');
            } else if e == 'f' {
                acc.push('\u{C}');
            } else if e == 'n' {
                acc.push('\n');
            } else if e == 'r' {
                acc.push('\u{D}');
            } else if e == 't' {
                acc.push('\t');
            } else if e == 'u' {
                if n - i < 6 {
                    return None;
                }
                let h1 = match hex_val_any(s[i + 2]) {
                    Some(h) => h,
                    None => {
                        return None;
                    },
                };
                let h2 = match hex_val_any(s[i + 3]) {
                    Some(h) => h,
                    None => {
                        return None;
                    },
                };
                let h3 = match hex_val_any(s[i + 4]) {
                    Some(h) => h,
                    None => {
                        return None;
                    },
                };
                let h4 = match hex_val_any(s[i + 5]) {
                    Some(h) => h,
                    None => {
                        return None;
                    },
                };
                let code: u32 = ((h1 as u32 * 16 + h2 as u32) * 16 + h3 as u32) * 16 + h4 as u32;
                if code >= 32 {
                    return None;
                }
                acc.push(control_char(code as u8));
                i = i + 6;
                continue ;
            } else {
                return None;
            }
            i = i + 2;
            continue ;
        } else if (c as u32) < 32 {
            return None;
        } else {
            acc.push(c);
        }
        i = i + 1;
    }
    None
}

} // verus!
