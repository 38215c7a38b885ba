//! Version 1 of the note repository format: one JSON file per note,
//! grouped into year/month/day directories by the date in the note's
//! identifier, with a `VERSION` file at the tree root.

use vstd::prelude::*;

use crate::ids::{id_text_value, id_values, note_id_text, NoteId};
use crate::json::{expect_key, parse_qstring, push_quoted, quoted, scan_qstring};
use crate::text::{chars_equal, chars_of, string_from_chars};

verus! {

/// The schema version this module writes.
pub const VERSION: u32 = 1;

/// A note as stored on disk: its id, its text, and its ordered children.
pub struct Note {
    pub id: NoteId,
    pub text: String,
    pub children: Vec<NoteId>,
}

/// A loaded or to-be-saved collection of notes.
pub struct Repo {
    pub notes: Vec<Note>,
}

/// A note reduced to plain values: id value, text, child id values.
pub ghost struct NoteData {
    pub id: u64,
    pub text: Seq<char>,
    pub children: Seq<u64>,
}

impl Repo {
    /// Upgrade to the latest in-memory shape: version 1 already is it.
    pub fn migrate(self) -> (r: Repo)
        ensures
            r == self,
    {
        self
    }
}

impl Note {
    /// The plain values of the note.
    pub open spec fn data(&self) -> NoteData {
        NoteData {
            id: self.id.spec_value(),
            text: self.text@,
            children: Seq::new(self.children@.len(), |i: int| self.children@[i].spec_value()),
        }
    }
}

/// The plain values of a sequence of notes.
pub open spec fn notes_data(ns: Seq<Note>) -> Seq<NoteData> {
    Seq::new(ns.len(), |i: int| ns[i].data())
}

/// The JSON text of a note: the id as tagged text, the text escaped, the
/// children as a list of tagged texts, in this order, without spacing.
pub open spec fn note_json(d: NoteData) -> Seq<char> {
    seq!['{', '"', 'i', 'd', '"', ':'] + quoted(note_id_text(d.id)) + seq![
        ',',
        '"',
        't',
        'e',
        'x',
        't',
        '"',
        ':',
    ] + quoted(d.text) + seq![',', '"', 'c', 'h', 'i', 'l', 'd', 'r', 'e', 'n', '"', ':', '[']
        + children_json(d.children) + seq![']', '}']
}

/// The JSON text of a child list.
pub open spec fn children_json(c: Seq<u64>) -> Seq<char> {
    if c.len() == 0 {
        Seq::empty()
    } else {
        quoted(note_id_text(c[0])) + children_tail_json(c.drop_first())
    }
}

/// The JSON text of the child list after its first element.
pub open spec fn children_tail_json(c: Seq<u64>) -> Seq<char>
    decreases c.len(),
{
    if c.len() == 0 {
        Seq::empty()
    } else {
        seq![','] + quoted(note_id_text(c[0])) + children_tail_json(c.drop_first())
    }
}

/// Render a note as JSON.
#[verifier::rlimit(100)]
#[verifier::spinoff_prover]
pub fn render_note(n: &Note) -> (out: Vec<char>)
    ensures
        out@ == note_json(n.data()),
{
    let mut out: Vec<char> = Vec::new();
    out.push('{');
    out.push('"');
    out.push('i');
    out.push('d');
    out.push('"');
    out.push(':');
    let idtext = n.id.to_text();
    push_quoted(&mut out, &idtext);
    out.push(',');
    out.push('"');
    out.push('t');
    out.push('e');
    out.push('x');
    out.push('t');
    out.push('"');
    out.push(':');
    let text = chars_of(n.text.as_str());
    push_quoted(&mut out, &text);
    out.push(',');
    out.push('"');
    out.push('c');
    out.push('h');
    out.push('i');
    out.push('l');
    out.push('d');
    out.push('r');
    out.push('e');
    out.push('n');
    out.push('"');
    out.push(':');
    out.push('[');
    let ghost mid = out@;
    let mut k: usize = 0;
    while k < n.children.len()
        invariant
            k <= n.children@.len(),
            k == 0 ==> out@ == mid,
            k > 0 ==> out@ == mid + quoted(note_id_text(n.children@[0].spec_value()))
                + tail_upto(n.data().children, k as int),
        decreases n.children@.len() - k,
    {
        if k > 0 {
            out.push(',');
        }
        let ct = n.children[k].to_text();
        push_quoted(&mut out, &ct);
        proof {
            let cs = n.data().children;
            assert(cs[k as int] == n.children@[k as int].spec_value());
            if k == 0 {
                assert(cs.drop_first().take(0) =~= Seq::<u64>::empty());
                assert(tail_upto(cs, 1) == children_tail_json(Seq::<u64>::empty()));
                assert(out@ =~= mid + quoted(note_id_text(cs[0])) + tail_upto(cs, 1));
            } else {
                assert(out@ =~= mid + quoted(note_id_text(cs[0])) + (tail_upto(cs, k as int) + (
                seq![','] + quoted(note_id_text(cs[k as int])))));
                lemma_tail_upto_step(cs, k as int);
            }
        }
        k = k + 1;
    }
    proof {
        let cs = n.data().children;
        if n.children@.len() == 0 {
            assert(children_json(cs) =~= Seq::<char>::empty());
            assert(out@ =~= mid + children_json(cs));
        } else {
            lemma_tail_upto_full(cs);
            assert(out@ =~= mid + children_json(cs));
        }
    }
    out.push(']');
    out.push('}');
    proof {
        assert(out@ =~= note_json(n.data()));
    }
    out
}

/// The rendered tail of a child list, up to element `k`.
pub open spec fn tail_upto(c: Seq<u64>, k: int) -> Seq<char> {
    children_tail_json(c.drop_first().take(k - 1))
}

/// Appending one more child extends the rendered tail by a comma and the
/// child's quoted text.
proof fn lemma_tail_upto_step(c: Seq<u64>, k: int)
    requires
        1 <= k < c.len(),
    ensures
        tail_upto(c, k + 1) == tail_upto(c, k) + (seq![','] + quoted(note_id_text(c[k]))),
    decreases k,
{
    let t = c.drop_first();
    if k == 1 {
        assert(t.take(0) =~= Seq::<u64>::empty());
        assert(children_tail_json(t.take(0)) == Seq::<char>::empty());
        assert(t.take(1)[0] == t[0]);
        assert(t.take(1).drop_first() =~= Seq::<u64>::empty());
        assert(children_tail_json(Seq::<u64>::empty()) == Seq::<char>::empty());
        assert(children_tail_json(t.take(1)) =~= Seq::<char>::empty() + (seq![','] + quoted(
            note_id_text(t[0]),
        )));
        assert(tail_upto(c, 2) == children_tail_json(t.take(1)));
        assert(t[0] == c[1]);
        assert(children_tail_json(t.take(1)) =~= tail_upto(c, 1) + (seq![','] + quoted(
            note_id_text(c[1]),
        )));
    } else {
        lemma_tail_upto_tail(t, k);
        assert(t[k - 1] == c[k]);
    }
}

/// The same step, phrased over the tail directly.
proof fn lemma_tail_upto_tail(t: Seq<u64>, k: int)
    requires
        1 <= k <= t.len(),
    ensures
        children_tail_json(t.take(k)) == children_tail_json(t.take(k - 1)) + (seq![','] + quoted(
            note_id_text(t[k - 1]),
        )),
    decreases k,
{
    if k == 1 {
        assert(t.take(0) =~= Seq::<u64>::empty());
        assert(t.take(1)[0] == t[0]);
        assert(t.take(1).drop_first() =~= Seq::<u64>::empty());
        assert(children_tail_json(Seq::<u64>::empty()) == Seq::<char>::empty());
        assert(children_tail_json(t.take(1)) =~= Seq::<char>::empty() + (seq![','] + quoted(
            note_id_text(t[0]),
        )));
    } else {
        assert(t.take(k)[0] == t[0]);
        assert(t.take(k).drop_first() =~= t.drop_first().take(k - 1));
        assert(t.take(k - 1)[0] == t[0]);
        assert(t.take(k - 1).drop_first() =~= t.drop_first().take(k - 2));
        lemma_tail_upto_tail(t.drop_first(), k - 1);
        assert(t.drop_first()[k - 2] == t[k - 1]);
        assert(seq![','] + quoted(note_id_text(t[0])) + (children_tail_json(t.drop_first().take(
            k - 2,
        )) + (seq![','] + quoted(note_id_text(t[k - 1])))) =~= (seq![','] + quoted(
            note_id_text(t[0]),
        ) + children_tail_json(t.drop_first().take(k - 2))) + (seq![','] + quoted(
            note_id_text(t[k - 1]),
        )));
    }
}

/// The full tail is the tail up to the last element.
proof fn lemma_tail_upto_full(c: Seq<u64>)
    requires
        c.len() >= 1,
    ensures
        quoted(note_id_text(c[0])) + tail_upto(c, c.len() as int) == children_json(c),
{
    assert(c.drop_first().take(c.len() - 1) =~= c.drop_first());
}

/// Read the elements of the id list from `i` up to the closing bracket.
pub open spec fn parse_id_items(s: Seq<char>, i: int, acc: Seq<u64>, first: bool) -> Option<
    (Seq<u64>, int),
>
    decreases s.len() - i,
{
    if i < 0 || i >= s.len() {
        None
    } else if s[i] == ']' {
        Some((acc, i + 1))
    } else {
        let start = if first {
            i
        } else if s[i] == ',' {
            i + 1
        } else {
            s.len() as int + 1
        };
        match parse_qstring(s, start) {
            None => None,
            Some((t, j)) => match id_text_value('n', t) {
                None => None,
                Some(v) => if i < j <= s.len() {
                    parse_id_items(s, j, acc.push(v), false)
                } else {
                    None
                },
            },
        }
    }
}

/// Read note JSON: an object holding exactly the keys `id`, `text` and
/// `children`, in this order, with no spacing between tokens — the one
/// rendering [`render_note`] produces (string escapes may vary; see the
/// reader in the JSON primitives). Anything else is not note JSON here
/// and aborts a load.
pub open spec fn parse_note_text(s: Seq<char>) -> Option<NoteData> {
    if s.len() == 0 || s[0] != '{' {
        None
    } else {
        match expect_key(s, 1, seq!['i', 'd']) {
            None => None,
            Some(i1) => match parse_qstring(s, i1) {
                None => None,
                Some((idtext, i2)) => match id_text_value('n', idtext) {
                    None => None,
                    Some(idv) => if i2 < s.len() && s[i2] == ',' {
                        match expect_key(s, i2 + 1, seq!['t', 'e', 'x', 't']) {
                            None => None,
                            Some(i3) => match parse_qstring(s, i3) {
                                None => None,
                                Some((text, i4)) => if i4 < s.len() && s[i4] == ',' {
                                    match expect_key(
                                        s,
                                        i4 + 1,
                                        seq!['c', 'h', 'i', 'l', 'd', 'r', 'e', 'n'],
                                    ) {
                                        None => None,
                                        Some(i5) => if i5 < s.len() && s[i5] == '[' {
                                            match parse_id_items(s, i5 + 1, Seq::empty(), true) {
                                                None => None,
                                                Some((children, i6)) => if i6 + 1 == s.len() && i6
                                                    < s.len() && s[i6] == '}' {
                                                    Some(NoteData { id: idv, text, children })
                                                } else {
                                                    None
                                                },
                                            }
                                        } else {
                                            None
                                        },
                                    }
                                } else {
                                    None
                                },
                            },
                        }
                    } else {
                        None
                    },
                },
            },
        }
    }
}

/// Identifier text consists of plain characters only, so its quoted form
/// is the text between two quotes.
proof fn lemma_id_text_plain(v: u64)
    ensures
        note_id_text(v).len() == 17,
        quoted(note_id_text(v)) == seq!['"'] + note_id_text(v) + seq!['"'],
        quoted(note_id_text(v)).len() == 19,
{
    let t = note_id_text(v);
    assert forall|i: int| 0 <= i < t.len() implies crate::json::is_plain(#[trigger] t[i]) by {
        if i == 0 {
            assert(t[0] == 'n');
        } else {
            assert(t[i] == crate::text::hex16_of(v)[i - 1]);
            let d = crate::text::hex_digit16(v, i - 1);
            assert(0 <= d < 16);
            assert(crate::json::is_plain(crate::text::hex_char_of(d)));
        }
    }
    crate::json::lemma_quoted_plain(t);
}

/// A quoted object key of plain characters.
proof fn lemma_key_quoted(key: Seq<char>)
    requires
        forall|i: int| 0 <= i < key.len() ==> crate::json::is_plain(#[trigger] key[i]),
    ensures
        quoted(key) == seq!['"'] + key + seq!['"'],
        quoted(key).len() == key.len() + 2,
{
    crate::json::lemma_quoted_plain(key);
}

/// Reading the rendered tail of a child list, then the closing bracket,
/// yields the remaining children.
proof fn lemma_items_tail(s: Seq<char>, i: int, acc: Seq<u64>, c: Seq<u64>)
    requires
        0 <= i,
        i + children_tail_json(c).len() + 1 <= s.len(),
        s.subrange(i, i + children_tail_json(c).len() + 1) == children_tail_json(c) + seq![']'],
    ensures
        parse_id_items(s, i, acc, false) == Some(
            (acc + c, i + children_tail_json(c).len() + 1),
        ),
    decreases c.len(),
{
    let ct = children_tail_json(c);
    if c.len() == 0 {
        assert(ct =~= Seq::<char>::empty());
        crate::json::lemma_char_at(s, i, ct + seq![']'], 0);
        assert(s[i] == ']');
        assert(acc + c =~= acc);
    } else {
        lemma_id_text_plain(c[0]);
        let q0 = quoted(note_id_text(c[0]));
        let rest = children_tail_json(c.drop_first());
        assert(ct == seq![','] + q0 + rest);
        assert(ct + seq![']'] =~= seq![','] + ((q0 + (rest + seq![']']))));
        crate::json::lemma_peel(s, i, seq![','], q0 + (rest + seq![']']));
        crate::json::lemma_char_at(s, i, seq![','], 0);
        assert(s[i] == ',');
        assert(s[i] != ']');
        crate::json::lemma_peel(s, i + 1, q0, rest + seq![']']);
        crate::json::lemma_parse_quoted(s, i + 1, note_id_text(c[0]));
        let j: int = i + 1 + q0.len() as int;
        assert(parse_qstring(s, i + 1) == Some((note_id_text(c[0]), j)));
        crate::ids::lemma_id_text_round_trip(c[0]);
        lemma_items_tail(s, j, acc.push(c[0]), c.drop_first());
        assert(acc.push(c[0]) + c.drop_first() =~= acc + c);
        assert(j + rest.len() + 1 == i + ct.len() + 1);
    }
}

/// Reading a rendered child list, then the closing bracket, yields the
/// children.
proof fn lemma_items_first(s: Seq<char>, i: int, c: Seq<u64>)
    requires
        0 <= i,
        i + children_json(c).len() + 1 <= s.len(),
        s.subrange(i, i + children_json(c).len() + 1) == children_json(c) + seq![']'],
    ensures
        parse_id_items(s, i, Seq::empty(), true) == Some(
            (c, i + children_json(c).len() + 1),
        ),
{
    let cj = children_json(c);
    if c.len() == 0 {
        assert(cj =~= Seq::<char>::empty());
        crate::json::lemma_char_at(s, i, cj + seq![']'], 0);
        assert(s[i] == ']');
        assert(Seq::<u64>::empty() =~= c);
    } else {
        lemma_id_text_plain(c[0]);
        let q0 = quoted(note_id_text(c[0]));
        let rest = children_tail_json(c.drop_first());
        assert(cj == q0 + rest);
        assert(cj + seq![']'] =~= q0 + (rest + seq![']']));
        crate::json::lemma_peel(s, i, q0, rest + seq![']']);
        crate::json::lemma_char_at(s, i, q0, 0);
        assert(s[i] == '"');
        assert(s[i] != ']');
        crate::json::lemma_parse_quoted(s, i, note_id_text(c[0]));
        let j: int = i + q0.len() as int;
        crate::ids::lemma_id_text_round_trip(c[0]);
        lemma_items_tail(s, j, Seq::<u64>::empty().push(c[0]), c.drop_first());
        assert(Seq::<u64>::empty().push(c[0]) + c.drop_first() =~= c);
        assert(j + rest.len() + 1 == i + cj.len() + 1);
    }
}

/// Where each part of a rendered note stands in the text.
#[verifier::rlimit(100)]
proof fn lemma_note_json_shape(d: NoteData)
    ensures
        note_json(d).len() == 48 + quoted(d.text).len() + children_json(d.children).len(),
        note_json(d).subrange(0, 6) == seq!['{', '"', 'i', 'd', '"', ':'],
        note_json(d).subrange(6, 25) == quoted(note_id_text(d.id)),
        note_json(d).subrange(25, 33) == seq![',', '"', 't', 'e', 'x', 't', '"', ':'],
        note_json(d).subrange(33, 33 + quoted(d.text).len() as int) == quoted(d.text),
        note_json(d).subrange(
            33 + quoted(d.text).len() as int,
            46 + quoted(d.text).len() as int,
        ) == seq![',', '"', 'c', 'h', 'i', 'l', 'd', 'r', 'e', 'n', '"', ':', '['],
        note_json(d).subrange(
            46 + quoted(d.text).len() as int,
            47 + quoted(d.text).len() as int + children_json(d.children).len() as int,
        ) == children_json(d.children) + seq![']'],
        note_json(d)[47 + quoted(d.text).len() as int + children_json(d.children).len() as int]
            == '}',
{
    lemma_id_text_plain(d.id);
    let s = note_json(d);
    let l2 = quoted(d.text).len() as int;
    let lc = children_json(d.children).len() as int;
    assert(s.len() == 48 + l2 + lc);
    assert(s.subrange(0, 6) =~= seq!['{', '"', 'i', 'd', '"', ':']);
    assert(s.subrange(6, 25) =~= quoted(note_id_text(d.id)));
    assert(s.subrange(25, 33) =~= seq![',', '"', 't', 'e', 'x', 't', '"', ':']);
    assert(s.subrange(33, 33 + l2) =~= quoted(d.text));
    assert(s.subrange(33 + l2, 46 + l2) =~= seq![
        ',',
        '"',
        'c',
        'h',
        'i',
        'l',
        'd',
        'r',
        'e',
        'n',
        '"',
        ':',
        '[',
    ]);
    assert(s.subrange(46 + l2, 47 + l2 + lc) =~= children_json(d.children) + seq![']']);
    assert(s.subrange(47 + l2 + lc, 48 + l2 + lc) =~= seq!['}']);
    crate::json::lemma_char_at(s, 47 + l2 + lc, seq!['}'], 0);
}

/// Reading the rendered JSON of a note yields the note's data back.
#[verifier::rlimit(100)]
pub proof fn lemma_note_json_round_trip(d: NoteData)
    ensures
        parse_note_text(note_json(d)) == Some(d),
{
    let s = note_json(d);
    let l2 = quoted(d.text).len() as int;
    let lc = children_json(d.children).len() as int;
    let kid = seq!['i', 'd'];
    let ktext = seq!['t', 'e', 'x', 't'];
    let kchildren = seq!['c', 'h', 'i', 'l', 'd', 'r', 'e', 'n'];
    assert forall|i: int| 0 <= i < kid.len() implies crate::json::is_plain(#[trigger] kid[i]) by {}
    assert forall|i: int|
        0 <= i < ktext.len() implies crate::json::is_plain(#[trigger] ktext[i]) by {}
    assert forall|i: int|
        0 <= i < kchildren.len() implies crate::json::is_plain(#[trigger] kchildren[i]) by {}
    lemma_key_quoted(kid);
    lemma_key_quoted(ktext);
    lemma_key_quoted(kchildren);
    lemma_id_text_plain(d.id);
    lemma_note_json_shape(d);

    let blockA = seq!['{', '"', 'i', 'd', '"', ':'];
    let blockB = seq![',', '"', 't', 'e', 'x', 't', '"', ':'];
    let blockC = seq![',', '"', 'c', 'h', 'i', 'l', 'd', 'r', 'e', 'n', '"', ':', '['];

    // the id key
    crate::json::lemma_char_at(s, 0, blockA, 0);
    assert(s[0] == '{');
    assert(s.subrange(1, 5) =~= quoted(kid)) by {
        assert forall|k: int| 0 <= k < 4 implies s.subrange(1, 5)[k] == quoted(kid)[k] by {
            crate::json::lemma_char_at(s, 0, blockA, k + 1);
        }
    }
    crate::json::lemma_parse_quoted(s, 1, kid);
    crate::json::lemma_char_at(s, 0, blockA, 5);
    assert(s[5] == ':');
    assert(expect_key(s, 1, kid) == Some(6int));

    // the id value
    crate::json::lemma_parse_quoted(s, 6, note_id_text(d.id));
    crate::ids::lemma_id_text_round_trip(d.id);
    crate::json::lemma_char_at(s, 25, blockB, 0);
    assert(s[25] == ',');

    // the text key and value
    assert(s.subrange(26, 32) =~= quoted(ktext)) by {
        assert forall|k: int| 0 <= k < 6 implies s.subrange(26, 32)[k] == quoted(ktext)[k] by {
            crate::json::lemma_char_at(s, 25, blockB, k + 1);
        }
    }
    crate::json::lemma_parse_quoted(s, 26, ktext);
    crate::json::lemma_char_at(s, 25, blockB, 7);
    assert(s[32] == ':');
    assert(expect_key(s, 26, ktext) == Some(33int));
    crate::json::lemma_parse_quoted(s, 33, d.text);
    crate::json::lemma_char_at(s, 33 + l2, blockC, 0);
    assert(s[33 + l2] == ',');

    // the children key and list
    assert(s.subrange(34 + l2, 44 + l2) =~= quoted(kchildren)) by {
        assert forall|k: int|
            0 <= k < 10 implies s.subrange(34 + l2, 44 + l2)[k] == quoted(kchildren)[k] by {
            crate::json::lemma_char_at(s, 33 + l2, blockC, k + 1);
        }
    }
    crate::json::lemma_parse_quoted(s, 34 + l2, kchildren);
    crate::json::lemma_char_at(s, 33 + l2, blockC, 11);
    assert(s[44 + l2] == ':');
    assert(expect_key(s, 34 + l2, kchildren) == Some(45 + l2));
    crate::json::lemma_char_at(s, 33 + l2, blockC, 12);
    assert(s[45 + l2] == '[');
    lemma_items_first(s, 46 + l2, d.children);
    assert(parse_id_items(s, 46 + l2, Seq::empty(), true) == Some((d.children, 47 + l2 + lc)));
    assert(s[47 + l2 + lc] == '}');
    assert(47 + l2 + lc + 1 == s.len());
    assert(parse_note_text(s) == Some(NoteData { id: d.id, text: d.text, children: d.children }));
    assert(NoteData { id: d.id, text: d.text, children: d.children } == d);
}

/// A blob met while walking a stored tree: its file name and its text.
pub struct WalkedBlob {
    pub name: Vec<char>,
    pub data: Vec<char>,
}

/// Whether a file name ends in the note-file suffix `.json`.
pub open spec fn ends_json(name: Seq<char>) -> bool {
    name.len() >= 5 && name.subrange(name.len() - 5, name.len() as int) == seq![
        '.',
        'j',
        's',
        'o',
        'n',
    ]
}

/// The names and texts of walked blobs.
pub open spec fn blob_views(bs: Seq<WalkedBlob>) -> Seq<(Seq<char>, Seq<char>)> {
    Seq::new(bs.len(), |i: int| (bs[i].name@, bs[i].data@))
}

/// The notes encoded by walked blobs, in walk order: every blob whose name
/// ends in the note-file suffix, parsed; `None` as soon as one of them is
/// not valid note JSON.
pub open spec fn decode_blobs(bs: Seq<(Seq<char>, Seq<char>)>) -> Option<Seq<NoteData>>
    decreases bs.len(),
{
    if bs.len() == 0 {
        Some(Seq::empty())
    } else {
        match decode_blobs(bs.drop_last()) {
            None => None,
            Some(ns) => if ends_json(bs.last().0) {
                match parse_note_text(bs.last().1) {
                    None => None,
                    Some(d) => Some(ns.push(d)),
                }
            } else {
                Some(ns)
            },
        }
    }
}

/// The stored name of a note and its stored text.
pub open spec fn note_blob(d: NoteData) -> (Seq<char>, Seq<char>) {
    (note_id_text(d.id) + seq!['.', 'j', 's', 'o', 'n'], note_json(d))
}

/// The stored blobs of a sequence of notes, in order.
pub open spec fn note_blobs_of(ds: Seq<NoteData>) -> Seq<(Seq<char>, Seq<char>)> {
    Seq::new(ds.len(), |i: int| note_blob(ds[i]))
}

/// Decoding the stored blobs of any sequence of notes yields exactly those
/// notes: the save format loses nothing.
#[verifier::rlimit(100)]
#[verifier::spinoff_prover]
pub proof fn lemma_decode_note_blobs(ds: Seq<NoteData>)
    ensures
        decode_blobs(note_blobs_of(ds)) == Some(ds),
    decreases ds.len(),
{
    let bs = note_blobs_of(ds);
    if ds.len() == 0 {
        assert(decode_blobs(bs) == Some(Seq::<NoteData>::empty()));
        assert(Seq::<NoteData>::empty() =~= ds);
    } else {
        assert(bs.drop_last() =~= note_blobs_of(ds.drop_last()));
        lemma_decode_note_blobs(ds.drop_last());
        let d = ds.last();
        assert(bs.last() == note_blob(d));
        let name = note_id_text(d.id) + seq!['.', 'j', 's', 'o', 'n'];
        assert(ends_json(name)) by {
            assert(name.subrange(name.len() - 5, name.len() as int) =~= seq![
                '.',
                'j',
                's',
                'o',
                'n',
            ]);
        }
        lemma_note_json_round_trip(d);
        assert(ds.drop_last().push(d) =~= ds);
    }
}

/// Once a prefix of the blobs fails to decode, the whole walk fails.
proof fn lemma_decode_prefix_none(bs: Seq<(Seq<char>, Seq<char>)>, i: int)
    requires
        0 <= i <= bs.len(),
        decode_blobs(bs.take(i)) is None,
    ensures
        decode_blobs(bs) is None,
    decreases bs.len() - i,
{
    if i < bs.len() {
        assert(bs.take(i + 1).drop_last() =~= bs.take(i));
        lemma_decode_prefix_none(bs, i + 1);
    } else {
        assert(bs.take(i) =~= bs);
    }
}

impl Repo {
    /// Rebuild the notes from the blobs of a walked tree. Every blob whose
    /// name ends in the note-file suffix is parsed; one bad note file
    /// aborts the whole load.
    pub fn load_from_tree(blobs: &Vec<WalkedBlob>) -> (r: Result<Repo, super::RepoError>)
        ensures
            match r {
                Ok(repo) => decode_blobs(blob_views(blobs@)) == Some(notes_data(repo.notes@)),
                Err(e) => decode_blobs(blob_views(blobs@)) is None && (e
                    matches super::RepoError::InvalidNote),
            },
    {
        let mut notes: Vec<Note> = Vec::new();
        let mut i: usize = 0;
        proof {
            assert(blob_views(blobs@).take(0) =~= Seq::<(Seq<char>, Seq<char>)>::empty());
            assert(notes_data(notes@) =~= Seq::<NoteData>::empty());
        }
        while i < blobs.len()
            invariant
                i <= blobs@.len(),
                decode_blobs(blob_views(blobs@).take(i as int)) == Some(notes_data(notes@)),
            decreases blobs@.len() - i,
        {
            let ghost views = blob_views(blobs@);
            proof {
                assert(views.take(i + 1).drop_last() =~= views.take(i as int));
                assert(views.take(i + 1).last() == views[i as int]);
            }
            if is_json_name(&blobs[i].name) {
                match parse_note(&blobs[i].data) {
                    Some(n) => {
                        let ghost prev = notes@;
                        notes.push(n);
                        proof {
                            assert(notes_data(notes@) =~= notes_data(prev).push(n.data()));
                        }
                    },
                    None => {
                        proof {
                            assert(decode_blobs(views.take(i + 1)) is None);
                            lemma_decode_prefix_none(views, i + 1);
                        }
                        return Err(super::RepoError::InvalidNote);
                    },
                }
            }
            i = i + 1;
        }
        proof {
            assert(blob_views(blobs@).take(blobs@.len() as int) =~= blob_views(blobs@));
        }
        Ok(Repo { notes })
    }
}

/// Whether a file name ends in the note-file suffix.
fn is_json_name(name: &Vec<char>) -> (r: bool)
    ensures
        r == ends_json(name@),
{
    let n = name.len();
    if n < 5 {
        return false;
    }
    let r = name[n - 5] == '.' && name[n - 4] == 'j' && name[n - 3] == 's' && name[n - 2] == 'o'
        && name[n - 1] == 'n';
    proof {
        let suffix = name@.subrange(n - 5, n as int);
        assert(suffix[0] == name@[n - 5]);
        assert(suffix[1] == name@[n - 4]);
        assert(suffix[2] == name@[n - 3]);
        assert(suffix[3] == name@[n - 2]);
        assert(suffix[4] == name@[n - 1]);
        if r {
            assert(suffix =~= seq!['.', 'j', 's', 'o', 'n']);
        } else {
            assert(suffix != seq!['.', 'j', 's', 'o', 'n']);
        }
    }
    r
}

/// Notes in non-decreasing identifier order.
pub open spec fn sorted_by_id(s: Seq<Note>) -> bool {
    forall|i: int, j: int|
        0 <= i < j < s.len() ==> (#[trigger] s[i]).id.spec_value() <= (#[trigger] s[j]).id.spec_value()
}

/// A note placed into an already sorted sequence, after any notes with
/// the same identifier.
pub open spec fn insert_sorted(n: Note, s: Seq<Note>) -> Seq<Note>
    decreases s.len(),
{
    if s.len() == 0 {
        seq![n]
    } else if s.last().id.spec_value() <= n.id.spec_value() {
        s.push(n)
    } else {
        insert_sorted(n, s.drop_last()).push(s.last())
    }
}

/// The notes in identifier order, by repeated insertion.
pub open spec fn sort_spec(s: Seq<Note>) -> Seq<Note>
    decreases s.len(),
{
    if s.len() == 0 {
        Seq::empty()
    } else {
        insert_sorted(s.last(), sort_spec(s.drop_last()))
    }
}

/// Inserting into a sorted prefix at the position the scan found is
/// exactly [`insert_sorted`].
proof fn lemma_insert_sorted_at(s: Seq<Note>, n: Note, j: int)
    requires
        0 <= j <= s.len(),
        j > 0 ==> s[j - 1].id.spec_value() <= n.id.spec_value(),
        forall|k: int| j <= k < s.len() ==> (#[trigger] s[k]).id.spec_value() > n.id.spec_value(),
    ensures
        insert_sorted(n, s) == s.take(j) + seq![n] + s.skip(j),
    decreases s.len(),
{
    if s.len() == 0 {
        assert(s.take(j) =~= Seq::<Note>::empty());
        assert(s.skip(j) =~= Seq::<Note>::empty());
        assert(Seq::<Note>::empty() + seq![n] + Seq::<Note>::empty() =~= seq![n]);
    } else if s.last().id.spec_value() <= n.id.spec_value() {
        assert(j == s.len());
        assert(s.take(j) =~= s);
        assert(s.skip(j) =~= Seq::<Note>::empty());
        assert(s + seq![n] + Seq::<Note>::empty() =~= s.push(n));
    } else {
        assert(j < s.len());
        assert forall|k: int|
            j <= k < s.drop_last().len() implies (#[trigger] s.drop_last()[k]).id.spec_value()
            > n.id.spec_value() by {
            assert(s.drop_last()[k] == s[k]);
        }
        if j > 0 {
            assert(s.drop_last()[j - 1] == s[j - 1]);
        }
        lemma_insert_sorted_at(s.drop_last(), n, j);
        assert(s.drop_last().take(j) =~= s.take(j));
        assert((s.take(j) + seq![n] + s.drop_last().skip(j)).push(s.last()) =~= s.take(j)
            + seq![n] + s.skip(j));
    }
}

/// Insertion keeps a sorted sequence sorted, adds exactly the new note,
/// and keeps every element.
proof fn lemma_insert_sorted_props(n: Note, s: Seq<Note>)
    requires
        sorted_by_id(s),
    ensures
        sorted_by_id(insert_sorted(n, s)),
        insert_sorted(n, s).to_multiset() == s.to_multiset().insert(n),
        insert_sorted(n, s).len() == s.len() + 1,
    decreases s.len(),
{
    broadcast use vstd::seq_lib::group_to_multiset_ensures;

    if s.len() == 0 {
        assert(seq![n].drop_last() =~= Seq::<Note>::empty());
        assert(seq![n] =~= Seq::<Note>::empty().push(n));
    } else if s.last().id.spec_value() <= n.id.spec_value() {
        assert(sorted_by_id(s.push(n))) by {
            assert forall|i: int, j: int|
                0 <= i < j < s.push(n).len() implies (#[trigger] s.push(n)[i]).id.spec_value()
                <= (#[trigger] s.push(n)[j]).id.spec_value() by {
                if j < s.len() {
                    assert(s.push(n)[i] == s[i] && s.push(n)[j] == s[j]);
                } else {
                    assert(s.push(n)[j] == n);
                    if i < s.len() - 1 {
                        assert(s[i].id.spec_value() <= s[s.len() - 1].id.spec_value());
                    }
                    assert(s.push(n)[i] == s[i]);
                }
            }
        }
    } else {
        assert(sorted_by_id(s.drop_last())) by {
            assert forall|i: int, j: int|
                0 <= i < j < s.drop_last().len() implies (#[trigger] s.drop_last()[i]).id.spec_value()
                <= (#[trigger] s.drop_last()[j]).id.spec_value() by {
                assert(s.drop_last()[i] == s[i] && s.drop_last()[j] == s[j]);
            }
        }
        lemma_insert_sorted_props(n, s.drop_last());
        let t = insert_sorted(n, s.drop_last());
        assert(sorted_by_id(t.push(s.last()))) by {
            assert forall|i: int, j: int|
                0 <= i < j < t.push(s.last()).len() implies (#[trigger] t.push(
                s.last(),
            )[i]).id.spec_value() <= (#[trigger] t.push(s.last())[j]).id.spec_value() by {
                if j < t.len() {
                    assert(t.push(s.last())[i] == t[i] && t.push(s.last())[j] == t[j]);
                } else {
                    assert(t.push(s.last())[i] == t[i]);
                    assert(t.to_multiset() == s.drop_last().to_multiset().insert(n));
                    assert(t.to_multiset().contains(t[i]));
                    if t[i] == n {
                        assert(t[i].id.spec_value() <= s.last().id.spec_value());
                    } else {
                        assert(s.drop_last().to_multiset().contains(t[i]));
                        assert(s.drop_last().contains(t[i]));
                        let w = choose|w: int|
                            0 <= w < s.drop_last().len() && s.drop_last()[w] == t[i];
                        assert(s[w] == t[i]);
                        assert(s[w].id.spec_value() <= s.last().id.spec_value());
                    }
                }
            }
        }
        assert(s.drop_last().push(s.last()) =~= s);
        assert(t.push(s.last()).to_multiset() == s.to_multiset().insert(n)) by {
            assert(t.push(s.last()).to_multiset() == t.to_multiset().insert(s.last()));
            assert(t.to_multiset() == s.drop_last().to_multiset().insert(n));
            assert(s.to_multiset() == s.drop_last().to_multiset().insert(s.last()));
            assert(s.drop_last().to_multiset().insert(n).insert(s.last())
                == s.drop_last().to_multiset().insert(s.last()).insert(n));
        }
    }
}

/// Sorting keeps exactly the original notes.
pub proof fn lemma_sort_spec_props(s: Seq<Note>)
    ensures
        sorted_by_id(sort_spec(s)),
        sort_spec(s).to_multiset() == s.to_multiset(),
        sort_spec(s).len() == s.len(),
    decreases s.len(),
{
    broadcast use vstd::seq_lib::group_to_multiset_ensures;

    if s.len() > 0 {
        lemma_sort_spec_props(s.drop_last());
        lemma_insert_sorted_props(s.last(), sort_spec(s.drop_last()));
        assert(s.drop_last().push(s.last()) =~= s);
        assert(s.to_multiset() == s.drop_last().to_multiset().insert(s.last()));
    }
}

/// No identifier is repeated among the notes.
pub open spec fn distinct_ids(s: Seq<Note>) -> bool {
    forall|i: int, j: int|
        0 <= i < j < s.len() ==> (#[trigger] s[i]).id.spec_value() != (#[trigger] s[j]).id.spec_value()
}

/// Two sorted sequences of notes holding the same notes, none of whose
/// identifiers repeats, are the same sequence.
proof fn lemma_sorted_unique(a: Seq<Note>, b: Seq<Note>)
    requires
        sorted_by_id(a),
        sorted_by_id(b),
        a.to_multiset() == b.to_multiset(),
        distinct_ids(a),
    ensures
        a == b,
    decreases a.len(),
{
    broadcast use vstd::seq_lib::group_to_multiset_ensures;

    assert(a.to_multiset().len() == a.len());
    assert(b.to_multiset().len() == b.len());
    if a.len() == 0 {
        assert(a =~= b);
    } else {
        let x = a.last();
        assert(a[a.len() - 1] == x);
        assert(a.contains(x));
        assert(b.to_multiset().contains(x));
        assert(b.contains(x));
        let j = choose|j: int| 0 <= j < b.len() && b[j] == x;
        let y = b.last();
        assert(b.contains(y));
        assert(a.to_multiset().contains(y));
        assert(a.contains(y));
        let i = choose|i: int| 0 <= i < a.len() && a[i] == y;
        assert(x.id.spec_value() <= y.id.spec_value()) by {
            assert(b[j] == x && b[b.len() - 1] == y);
        }
        if i < a.len() - 1 {
            assert(y.id.spec_value() < x.id.spec_value()) by {
                assert(a[i].id.spec_value() <= a[a.len() - 1].id.spec_value());
                assert(a[i].id.spec_value() != a[a.len() - 1].id.spec_value());
            }
            assert(false);
        }
        assert(y == x);
        assert(a.drop_last().push(x) =~= a);
        assert(b.drop_last().push(x) =~= b);
        assert(a.drop_last().to_multiset().insert(x) == a.to_multiset());
        assert(b.drop_last().to_multiset().insert(x) == b.to_multiset());
        assert(a.drop_last().to_multiset() == b.drop_last().to_multiset()) by {
            broadcast use vstd::multiset::group_multiset_axioms;

            assert(a.drop_last().to_multiset() =~= a.drop_last().to_multiset().insert(x).remove(
                x,
            ));
            assert(b.drop_last().to_multiset() =~= b.drop_last().to_multiset().insert(x).remove(
                x,
            ));
        }
        assert(sorted_by_id(a.drop_last()) && distinct_ids(a.drop_last())) by {
            assert forall|p: int, q: int|
                0 <= p < q < a.drop_last().len() implies (#[trigger] a.drop_last()[p]).id.spec_value()
                <= (#[trigger] a.drop_last()[q]).id.spec_value() && a.drop_last()[p].id.spec_value()
                != a.drop_last()[q].id.spec_value() by {
                assert(a.drop_last()[p] == a[p] && a.drop_last()[q] == a[q]);
            }
        }
        assert(sorted_by_id(b.drop_last())) by {
            assert forall|p: int, q: int|
                0 <= p < q < b.drop_last().len() implies (#[trigger] b.drop_last()[p]).id.spec_value()
                <= (#[trigger] b.drop_last()[q]).id.spec_value() by {
                assert(b.drop_last()[p] == b[p] && b.drop_last()[q] == b[q]);
            }
        }
        lemma_sorted_unique(a.drop_last(), b.drop_last());
        assert(a =~= b);
    }
}

/// Sequences holding the same notes, none of whose identifiers repeats,
/// sort to the same sequence: the order the notes arrive in does not
/// matter.
pub proof fn lemma_sort_spec_canonical(a: Seq<Note>, b: Seq<Note>)
    requires
        a.to_multiset() == b.to_multiset(),
        distinct_ids(a),
    ensures
        sort_spec(a) == sort_spec(b),
{
    broadcast use vstd::seq_lib::group_to_multiset_ensures;
    broadcast use vstd::multiset::group_multiset_axioms;

    lemma_sort_spec_props(a);
    lemma_sort_spec_props(b);
    let sa = sort_spec(a);
    let sb = sort_spec(b);
    assert(a.no_duplicates()) by {
        assert forall|i: int, j: int|
            0 <= i < a.len() && 0 <= j < a.len() && i != j implies a[i] != a[j] by {
            if i < j {
                assert(a[i].id.spec_value() != a[j].id.spec_value());
            } else {
                assert(a[j].id.spec_value() != a[i].id.spec_value());
            }
        }
    }
    a.lemma_multiset_has_no_duplicates();
    assert(distinct_ids(sa)) by {
        assert forall|i: int, j: int|
            0 <= i < j < sa.len() implies (#[trigger] sa[i]).id.spec_value()
            != (#[trigger] sa[j]).id.spec_value() by {
            if sa[i].id.spec_value() == sa[j].id.spec_value() {
                if sa[i] == sa[j] {
                    let s0 = sa.subrange(0, j);
                    let s1 = sa.subrange(j, sa.len() as int);
                    assert(sa =~= s0 + s1);
                    vstd::seq_lib::lemma_multiset_commutative(s0, s1);
                    assert(s0[i] == sa[i]);
                    assert(s0.contains(sa[i]));
                    assert(s1[0] == sa[j]);
                    assert(s1.contains(sa[j]));
                    assert(s0.to_multiset().count(sa[i]) >= 1);
                    assert(s1.to_multiset().count(sa[i]) >= 1);
                    assert(sa.to_multiset().count(sa[i]) >= 2);
                    assert(a.to_multiset().count(sa[i]) >= 2);
                    assert(a.to_multiset().contains(sa[i]));
                    assert(false);
                } else {
                    assert(sa.contains(sa[i]));
                    assert(a.to_multiset().contains(sa[i]));
                    assert(a.contains(sa[i]));
                    let p = choose|p: int| 0 <= p < a.len() && a[p] == sa[i];
                    assert(sa.contains(sa[j]));
                    assert(a.to_multiset().contains(sa[j]));
                    assert(a.contains(sa[j]));
                    let q = choose|q: int| 0 <= q < a.len() && a[q] == sa[j];
                    assert(p != q);
                    if p < q {
                        assert(a[p].id.spec_value() != a[q].id.spec_value());
                    } else {
                        assert(a[q].id.spec_value() != a[p].id.spec_value());
                    }
                    assert(false);
                }
            }
        }
    }
    assert(sa.to_multiset() == sb.to_multiset());
    lemma_sorted_unique(sa, sb);
}

/// One note set, one tree: note sequences holding the same notes, none of
/// whose identifiers repeats, are bucketed into the same tree value, so
/// equal graphs always store as equal content-addressed trees.
pub proof fn lemma_save_deterministic(a: Seq<Note>, b: Seq<Note>)
    requires
        a.to_multiset() == b.to_multiset(),
        distinct_ids(a),
    ensures
        bucket_tree(notes_data(sort_spec(a))) == bucket_tree(notes_data(sort_spec(b))),
{
    lemma_sort_spec_canonical(a, b);
}

/// Sort the notes by identifier.
pub fn sort_notes(notes: &mut Vec<Note>)
    ensures
        final(notes)@ == sort_spec(old(notes)@),
{
    let ghost orig = notes@;
    let mut i: usize = 0;
    proof {
        assert(orig.take(0) =~= Seq::<Note>::empty());
        assert(notes@.take(0) =~= Seq::<Note>::empty());
    }
    while i < notes.len()
        invariant
            i <= notes@.len(),
            notes@.len() == orig.len(),
            notes@.skip(i as int) =~= orig.skip(i as int),
            notes@.take(i as int) == sort_spec(orig.take(i as int)),
            sorted_by_id(notes@.take(i as int)),
        decreases notes@.len() - i,
    {
        let ghost pre = notes@;
        let key = notes[i].id.value();
        let mut j: usize = i;
        loop
            invariant
                j <= i < pre.len(),
                notes@ == pre,
                forall|k: int| j <= k < i ==> (#[trigger] pre[k]).id.spec_value() > key,
            ensures
                j <= i,
                notes@ == pre,
                j > 0 ==> pre[j - 1].id.spec_value() <= key,
                forall|k: int| j <= k < i ==> (#[trigger] pre[k]).id.spec_value() > key,
            decreases j,
        {
            if j == 0 {
                break ;
            }
            if notes[j - 1].id.value() <= key {
                break ;
            }
            j = j - 1;
        }
        let n = notes.remove(i);
        notes.insert(j, n);
        proof {
            let sp = pre.take(i as int);
            assert(pre[i as int] == orig[i as int]) by {
                assert(pre.skip(i as int)[0] == pre[i as int]);
                assert(orig.skip(i as int)[0] == orig[i as int]);
            }
            assert forall|k: int|
                j <= k < sp.len() implies (#[trigger] sp[k]).id.spec_value() > key by {
                assert(sp[k] == pre[k]);
            }
            if j > 0 {
                assert(sp[j - 1] == pre[j - 1]);
            }
            lemma_insert_sorted_at(sp, n, j as int);
            lemma_insert_sorted_props(n, sp);
            assert(notes@ =~= pre.remove(i as int).insert(j as int, n));
            assert(notes@.take(i + 1) =~= sp.take(j as int) + seq![n] + sp.skip(j as int)) by {
                assert forall|k: int|
                    0 <= k < i + 1 implies notes@.take(i + 1)[k] == (sp.take(j as int) + seq![n]
                    + sp.skip(j as int))[k] by {
                    if k < j {
                        assert(notes@[k] == pre[k]);
                    } else if k == j {
                        assert(notes@[k] == n);
                    } else {
                        assert(notes@[k] == pre[k - 1]);
                    }
                }
            }
            assert(notes@.take(i + 1) == insert_sorted(n, sp));
            assert(orig.take(i + 1).drop_last() =~= orig.take(i as int));
            assert(orig.take(i + 1).last() == orig[i as int]);
            assert(sort_spec(orig.take(i + 1)) == insert_sorted(orig[i as int], sort_spec(
                orig.take(i as int),
            )));
            assert(notes@.skip(i + 1) =~= orig.skip(i + 1)) by {
                assert forall|k: int|
                    0 <= k < notes@.len() - i - 1 implies #[trigger] notes@.skip(i + 1)[k]
                    == orig.skip(i + 1)[k] by {
                    assert(notes@.skip(i + 1)[k] == notes@[i + 1 + k]);
                    assert(notes@[i + 1 + k] == pre[i + 1 + k]);
                    assert(pre.skip(i as int)[1 + k] == pre[i + 1 + k]);
                    assert(orig.skip(i as int)[1 + k] == orig[i + 1 + k]);
                }
            }
        }
        i = i + 1;
    }
    proof {
        assert(notes@.take(notes@.len() as int) =~= notes@);
        assert(orig.take(orig.len() as int) =~= orig);
    }
}

/// One stored note file inside a day directory.
pub struct NoteFile {
    pub name: Vec<char>,
    pub data: Vec<char>,
}

/// A day directory: note files of one calendar day.
pub struct DayDir {
    pub name: Vec<char>,
    pub files: Vec<NoteFile>,
}

/// A month directory: its day directories.
pub struct MonthDir {
    pub name: Vec<char>,
    pub days: Vec<DayDir>,
}

/// A year directory: its month directories.
pub struct YearDir {
    pub name: Vec<char>,
    pub months: Vec<MonthDir>,
}

/// The tree a save produces: a version file at the root and the year
/// directories. Empty intermediate directories are never written.
pub struct RepoTree {
    pub version_data: Vec<char>,
    pub years: Vec<YearDir>,
}

/// The note blobs of a day, in file order.
pub open spec fn day_blobs(fs: Seq<NoteFile>) -> Seq<(Seq<char>, Seq<char>)>
    decreases fs.len(),
{
    if fs.len() == 0 {
        Seq::empty()
    } else {
        day_blobs(fs.drop_last()).push((fs.last().name@, fs.last().data@))
    }
}

/// The note blobs of a month, day by day.
pub open spec fn month_blobs(ds: Seq<DayDir>) -> Seq<(Seq<char>, Seq<char>)>
    decreases ds.len(),
{
    if ds.len() == 0 {
        Seq::empty()
    } else {
        month_blobs(ds.drop_last()) + day_blobs(ds.last().files@)
    }
}

/// The note blobs of a year, month by month.
pub open spec fn year_blobs(ms: Seq<MonthDir>) -> Seq<(Seq<char>, Seq<char>)>
    decreases ms.len(),
{
    if ms.len() == 0 {
        Seq::empty()
    } else {
        year_blobs(ms.drop_last()) + month_blobs(ms.last().days@)
    }
}

/// The note blobs of the whole tree, year by year.
pub open spec fn forest_blobs(ys: Seq<YearDir>) -> Seq<(Seq<char>, Seq<char>)>
    decreases ys.len(),
{
    if ys.len() == 0 {
        Seq::empty()
    } else {
        forest_blobs(ys.drop_last()) + year_blobs(ys.last().months@)
    }
}

/// A stored file reduced to plain values.
pub ghost struct FileRec {
    pub name: Seq<char>,
    pub data: Seq<char>,
}

/// A day directory reduced to plain values.
pub ghost struct DayRec {
    pub name: Seq<char>,
    pub files: Seq<FileRec>,
}

/// A month directory reduced to plain values.
pub ghost struct MonthRec {
    pub name: Seq<char>,
    pub days: Seq<DayRec>,
}

/// A year directory reduced to plain values.
pub ghost struct YearRec {
    pub name: Seq<char>,
    pub months: Seq<MonthRec>,
}

pub open spec fn files_rec(fs: Seq<NoteFile>) -> Seq<FileRec> {
    Seq::new(fs.len(), |i: int| FileRec { name: fs[i].name@, data: fs[i].data@ })
}

pub open spec fn days_rec(ds: Seq<DayDir>) -> Seq<DayRec> {
    Seq::new(ds.len(), |i: int| DayRec { name: ds[i].name@, files: files_rec(ds[i].files@) })
}

pub open spec fn months_rec(ms: Seq<MonthDir>) -> Seq<MonthRec> {
    Seq::new(ms.len(), |i: int| MonthRec { name: ms[i].name@, days: days_rec(ms[i].days@) })
}

pub open spec fn years_rec(ys: Seq<YearDir>) -> Seq<YearRec> {
    Seq::new(ys.len(), |i: int| YearRec { name: ys[i].name@, months: months_rec(ys[i].months@) })
}

/// The bucketing state while sorted notes stream through: the finished
/// years, the open year, month and day buckets, and the current date.
pub ghost struct BucketState {
    pub years: Seq<YearRec>,
    pub months: Seq<MonthRec>,
    pub days: Seq<DayRec>,
    pub files: Seq<FileRec>,
    pub y: int,
    pub m: int,
    pub d: int,
}

/// Before the first note: everything empty, the date all zero.
pub open spec fn bucket_start() -> BucketState {
    BucketState {
        years: Seq::empty(),
        months: Seq::empty(),
        days: Seq::empty(),
        files: Seq::empty(),
        y: 0,
        m: 0,
        d: 0,
    }
}

/// Close the open day bucket into its month, unless it is empty.
pub open spec fn flush_day(st: BucketState) -> BucketState {
    if st.files.len() > 0 {
        BucketState {
            days: st.days.push(
                DayRec { name: crate::text::dec2_of(st.d as nat), files: st.files },
            ),
            files: Seq::empty(),
            ..st
        }
    } else {
        st
    }
}

/// Close the open month bucket into its year, unless it is empty.
pub open spec fn flush_month(st: BucketState) -> BucketState {
    if st.days.len() > 0 {
        BucketState {
            months: st.months.push(
                MonthRec { name: crate::text::dec2_of(st.m as nat), days: st.days },
            ),
            days: Seq::empty(),
            ..st
        }
    } else {
        st
    }
}

/// Close the open year bucket into the root, unless it is empty.
pub open spec fn flush_year(st: BucketState) -> BucketState {
    if st.months.len() > 0 {
        BucketState {
            years: st.years.push(
                YearRec { name: crate::text::dec_of(st.y as nat), months: st.months },
            ),
            months: Seq::empty(),
            ..st
        }
    } else {
        st
    }
}

/// Flush the day bucket and turn to the note's day when the date changed.
pub open spec fn step_day(st: BucketState, date: (int, int, int)) -> BucketState {
    if date.2 != st.d || date.1 != st.m || date.0 != st.y {
        BucketState { d: date.2, ..flush_day(st) }
    } else {
        st
    }
}

/// Flush the month bucket and turn to the note's month when it changed.
pub open spec fn step_month(st: BucketState, date: (int, int, int)) -> BucketState {
    if date.1 != st.m || date.0 != st.y {
        BucketState { m: date.1, ..flush_month(st) }
    } else {
        st
    }
}

/// Flush the year bucket and turn to the note's year when it changed.
pub open spec fn step_year(st: BucketState, date: (int, int, int)) -> BucketState {
    if date.0 != st.y {
        BucketState { y: date.0, ..flush_year(st) }
    } else {
        st
    }
}

/// Put the note's file into the open day bucket.
pub open spec fn bucket_file(st: BucketState, d: NoteData) -> BucketState {
    BucketState {
        files: st.files.push(
            FileRec { name: note_id_text(d.id) + seq!['.', 'j', 's', 'o', 'n'], data: note_json(d) },
        ),
        ..st
    }
}

/// One note passes through: close the buckets its date leaves behind,
/// then store its file.
pub open spec fn bucket_note(st: BucketState, d: NoteData) -> BucketState {
    let date = crate::ids::civil_date_of(d.id >> 24);
    bucket_file(step_year(step_month(step_day(st, date), date), date), d)
}

/// The bucketing state after the first `i` notes.
pub open spec fn bucket_fold(ds: Seq<NoteData>, i: int) -> BucketState
    decreases i,
{
    if i <= 0 {
        bucket_start()
    } else {
        bucket_note(bucket_fold(ds, i - 1), ds[i - 1])
    }
}

/// The year directories a save of these notes builds, in this order: all
/// notes pass through, then the last buckets are closed.
pub open spec fn bucket_tree(ds: Seq<NoteData>) -> Seq<YearRec> {
    flush_year(flush_month(flush_day(bucket_fold(ds, ds.len() as int)))).years
}

/// No day directory is empty.
pub open spec fn days_nonempty(ds: Seq<DayDir>) -> bool {
    forall|i: int| 0 <= i < ds.len() ==> (#[trigger] ds[i]).files@.len() > 0
}

/// No month or day directory under these months is empty.
pub open spec fn months_nonempty(ms: Seq<MonthDir>) -> bool {
    forall|i: int|
        0 <= i < ms.len() ==> (#[trigger] ms[i]).days@.len() > 0 && days_nonempty(ms[i].days@)
}

/// No directory of the tree is empty: empty buckets are never written.
pub open spec fn years_nonempty(ys: Seq<YearDir>) -> bool {
    forall|i: int|
        0 <= i < ys.len() ==> (#[trigger] ys[i]).months@.len() > 0 && months_nonempty(
            ys[i].months@,
        )
}

/// Neighbouring day directories never share a name.
pub open spec fn days_adjacent_distinct(ds: Seq<DayDir>) -> bool {
    forall|i: int| 0 <= i < ds.len() - 1 ==> (#[trigger] ds[i]).name@ != ds[i + 1].name@
}

/// Within these months, neighbouring directories never share a name.
pub open spec fn months_adjacent_distinct(ms: Seq<MonthDir>) -> bool {
    &&& forall|i: int| 0 <= i < ms.len() - 1 ==> (#[trigger] ms[i]).name@ != ms[i + 1].name@
    &&& forall|i: int| 0 <= i < ms.len() ==> days_adjacent_distinct((#[trigger] ms[i]).days@)
}

/// Nowhere under these years do two neighbouring directories share a
/// name: a bucket is never reopened right after it was closed.
pub open spec fn years_adjacent_distinct(ys: Seq<YearDir>) -> bool {
    &&& forall|i: int| 0 <= i < ys.len() - 1 ==> (#[trigger] ys[i]).name@ != ys[i + 1].name@
    &&& forall|i: int| 0 <= i < ys.len() ==> months_adjacent_distinct((#[trigger] ys[i]).months@)
}

/// A note file named for an identifier whose calendar date is the given
/// year, month and day.
pub open spec fn file_dated(f: NoteFile, y: int, m: int, d: int) -> bool {
    exists|v: u64|
        #![trigger note_id_text(v)]
        f.name@ == note_id_text(v) + seq!['.', 'j', 's', 'o', 'n'] && crate::ids::civil_date_of(
            v >> 24,
        ) == (y, m, d)
}

/// A day directory named for its day, holding only files of that date.
pub open spec fn day_dated(day: DayDir, y: int, m: int, d: int) -> bool {
    &&& day.name@ == crate::text::dec2_of(d as nat)
    &&& forall|i: int| 0 <= i < day.files@.len() ==> file_dated(#[trigger] day.files@[i], y, m, d)
}

/// A day directory dated to some day of the given month.
pub open spec fn day_some_dated(day: DayDir, y: int, m: int) -> bool {
    exists|d: int| day_dated(day, y, m, d)
}

/// A month directory named for its month, holding only days of that month.
pub open spec fn month_dated(mon: MonthDir, y: int, m: int) -> bool {
    &&& mon.name@ == crate::text::dec2_of(m as nat)
    &&& forall|i: int| 0 <= i < mon.days@.len() ==> day_some_dated(#[trigger] mon.days@[i], y, m)
}

/// A month directory dated to some month of the given year.
pub open spec fn month_some_dated(mon: MonthDir, y: int) -> bool {
    exists|m: int| month_dated(mon, y, m)
}

/// A year directory named for its year, holding only months of that year.
pub open spec fn year_dated(yr: YearDir, y: int) -> bool {
    &&& yr.name@ == crate::text::dec_of(y as nat)
    &&& forall|i: int| 0 <= i < yr.months@.len() ==> month_some_dated(#[trigger] yr.months@[i], y)
}

/// A year directory dated to some year.
pub open spec fn year_some_dated(yr: YearDir) -> bool {
    exists|y: int| year_dated(yr, y)
}

/// Every file of the tree sits in year, month and day directories named
/// for the date its own identifier encodes.
pub open spec fn tree_dated(ys: Seq<YearDir>) -> bool {
    forall|i: int| 0 <= i < ys.len() ==> year_some_dated(#[trigger] ys[i])
}

impl Repo {
    /// Render the notes into a date-bucketed tree: sort them by
    /// identifier, walk them once, group runs of equal dates into day,
    /// month and year directories, flushing each completed bucket into its
    /// parent, and put the schema version at the root. The result is
    /// exactly the tree [`bucket_tree`] assigns to the sorted notes — one
    /// value per note set — with no empty directory and no two
    /// neighbouring directories sharing a name.
    #[verifier::rlimit(100)]
    #[verifier::spinoff_prover]
    pub fn save_to_tree(self) -> (r: RepoTree)
        requires
            forall|i: int|
                0 <= i < self.notes@.len() ==> (#[trigger] self.notes@[i]).id.spec_second()
                    <= crate::ids::MAX_DATE_SECOND,
        ensures
            r.version_data@ == crate::text::dec_of(VERSION as nat) + seq!['\n'],
            forest_blobs(r.years@) == note_blobs_of(notes_data(sort_spec(self.notes@))),
            years_rec(r.years@) == bucket_tree(notes_data(sort_spec(self.notes@))),
            years_nonempty(r.years@),
            years_adjacent_distinct(r.years@),
            tree_dated(r.years@),
    {
        let ghost orig = self.notes@;
        let mut notes = self.notes;
        sort_notes(&mut notes);
        let ghost sorted = notes@;
        let ghost nds = notes_data(sorted);
        let ghost target = note_blobs_of(nds);
        proof {
            broadcast use vstd::seq_lib::group_to_multiset_ensures;

            lemma_sort_spec_props(orig);
            assert forall|i: int|
                0 <= i < sorted.len() implies (#[trigger] sorted[i]).id.spec_second()
                <= crate::ids::MAX_DATE_SECOND by {
                assert(sorted.to_multiset().contains(sorted[i]));
                assert(orig.to_multiset().contains(sorted[i]));
                assert(orig.contains(sorted[i]));
                let w = choose|w: int| 0 <= w < orig.len() && orig[w] == sorted[i];
                assert(orig[w].id.spec_second() <= crate::ids::MAX_DATE_SECOND);
            }
        }

        let mut years: Vec<YearDir> = Vec::new();
        let mut months: Vec<MonthDir> = Vec::new();
        let mut days: Vec<DayDir> = Vec::new();
        let mut files: Vec<NoteFile> = Vec::new();
        let mut year: u16 = 0;
        let mut month: u8 = 0;
        let mut day: u8 = 0;
        let mut i: usize = 0;
        proof {
            assert(forest_blobs(years@) + year_blobs(months@) + month_blobs(days@) + day_blobs(
                files@,
            ) =~= target.take(0));
            assert(years_rec(years@) =~= bucket_start().years);
            assert(months_rec(months@) =~= bucket_start().months);
            assert(days_rec(days@) =~= bucket_start().days);
            assert(files_rec(files@) =~= bucket_start().files);
        }
        while i < notes.len()
            invariant
                notes@ == sorted,
                target == note_blobs_of(notes_data(sorted)),
                i <= sorted.len(),
                forall|k: int|
                    0 <= k < sorted.len() ==> (#[trigger] sorted[k]).id.spec_second()
                        <= crate::ids::MAX_DATE_SECOND,
                month < 100,
                day < 100,
                forall|k: int|
                    0 <= k < files@.len() ==> file_dated(
                        #[trigger] files@[k],
                        year as int,
                        month as int,
                        day as int,
                    ),
                forall|k: int|
                    0 <= k < days@.len() ==> day_some_dated(
                        #[trigger] days@[k],
                        year as int,
                        month as int,
                    ),
                forall|k: int|
                    0 <= k < months@.len() ==> month_some_dated(#[trigger] months@[k], year as int),
                tree_dated(years@),
                days_nonempty(days@),
                months_nonempty(months@),
                years_nonempty(years@),
                i == 0 ==> days@.len() == 0 && months@.len() == 0 && years@.len() == 0,
                i > 0 ==> files@.len() > 0,
                days_adjacent_distinct(days@),
                months_adjacent_distinct(months@),
                years_adjacent_distinct(years@),
                days@.len() > 0 ==> days@.last().name@ != crate::text::dec2_of(day as nat),
                months@.len() > 0 ==> months@.last().name@ != crate::text::dec2_of(month as nat),
                years@.len() > 0 ==> years@.last().name@ != crate::text::dec_of(year as nat),
                nds == notes_data(sorted),
                years_rec(years@) == bucket_fold(nds, i as int).years,
                months_rec(months@) == bucket_fold(nds, i as int).months,
                days_rec(days@) == bucket_fold(nds, i as int).days,
                files_rec(files@) == bucket_fold(nds, i as int).files,
                year as int == bucket_fold(nds, i as int).y,
                month as int == bucket_fold(nds, i as int).m,
                day as int == bucket_fold(nds, i as int).d,
                forest_blobs(years@) + year_blobs(months@) + month_blobs(days@) + day_blobs(files@)
                    == target.take(i as int),
            decreases sorted.len() - i,
        {
            let note = &notes[i];
            let date = note.id.date_utc();
            let ghost day0 = day;
            let ghost month0 = month;
            let ghost year0 = year;
            let ghost st0 = bucket_fold(nds, i as int);
            let ghost dt = crate::ids::civil_date_of(sorted[i as int].id.spec_second());
            let ghost s1 = step_day(st0, dt);
            let ghost s2 = step_month(s1, dt);
            let ghost s3 = step_year(s2, dt);
            proof {
                assert(nds[i as int].id == sorted[i as int].id.spec_value());
                assert((date.year as int, date.month as int, date.day as int) == dt);
            }
            if day != date.day || month != date.month || year != date.year {
                if files.len() > 0 {
                    let name = crate::text::render_dec2(day);
                    let flushed = files;
                    files = Vec::new();
                    let ghost old_days = days@;
                    days.push(DayDir { name, files: flushed });
                    proof {
                        assert(days@.drop_last() =~= old_days);
                        assert(month_blobs(days@) == month_blobs(old_days) + day_blobs(
                            days@.last().files@,
                        ));
                        assert(day_blobs(files@) =~= Seq::<(Seq<char>, Seq<char>)>::empty());
                        assert(forest_blobs(years@) + year_blobs(months@) + month_blobs(days@)
                            + day_blobs(files@) =~= target.take(i as int));
                        assert(day_dated(days@.last(), year as int, month as int, day as int));
                        assert forall|k: int|
                            0 <= k < days@.len() implies day_some_dated(
                            #[trigger] days@[k],
                            year as int,
                            month as int,
                        ) by {
                            if k == days@.len() - 1 {
                                assert(day_dated(days@[k], year as int, month as int, day as int));
                            } else {
                                assert(days@[k] == old_days[k]);
                            }
                        }
                        assert(days_nonempty(days@)) by {
                            assert forall|k: int|
                                0 <= k < days@.len() implies (#[trigger] days@[k]).files@.len()
                                > 0 by {
                                if k < days@.len() - 1 {
                                    assert(days@[k] == old_days[k]);
                                }
                            }
                        }
                        assert(days_adjacent_distinct(days@)) by {
                            assert forall|k: int|
                                0 <= k < days@.len() - 1 implies (#[trigger] days@[k]).name@
                                != days@[k + 1].name@ by {
                                assert(days@[k] == old_days[k]);
                                if k + 1 < days@.len() - 1 {
                                    assert(days@[k + 1] == old_days[k + 1]);
                                } else {
                                    assert(days@[k] == old_days.last());
                                }
                            }
                        }
                        assert(st0.files.len() > 0);
                        assert(days_rec(days@) =~= flush_day(st0).days);
                        assert(files_rec(files@) =~= flush_day(st0).files);
                    }
                }
                day = date.day;
            }
            proof {
                assert(days_rec(days@) == s1.days);
                assert(files_rec(files@) == s1.files);
                assert(months_rec(months@) == s1.months);
                assert(years_rec(years@) == s1.years);
                assert(year as int == s1.y && month as int == s1.m && day as int == s1.d);
            }
            if month != date.month || year != date.year {
                if days.len() > 0 {
                    let name = crate::text::render_dec2(month);
                    let ghost flushed_days = days@;
                    let flushed = days;
                    days = Vec::new();
                    let ghost old_months = months@;
                    months.push(MonthDir { name, days: flushed });
                    proof {
                        assert(months@.drop_last() =~= old_months);
                        assert(year_blobs(months@) == year_blobs(old_months) + month_blobs(
                            months@.last().days@,
                        ));
                        assert(month_blobs(days@) =~= Seq::<(Seq<char>, Seq<char>)>::empty());
                        assert(forest_blobs(years@) + year_blobs(months@) + month_blobs(days@)
                            + day_blobs(files@) =~= target.take(i as int));
                        assert(month_dated(months@.last(), year as int, month as int)) by {
                            assert(months@.last().days@ == flushed_days);
                            assert forall|k: int|
                                0 <= k < months@.last().days@.len() implies day_some_dated(
                                #[trigger] months@.last().days@[k],
                                year as int,
                                month as int,
                            ) by {
                                assert(months@.last().days@[k] == flushed_days[k]);
                            }
                        }
                        assert forall|k: int|
                            0 <= k < months@.len() implies month_some_dated(
                            #[trigger] months@[k],
                            year as int,
                        ) by {
                            if k == months@.len() - 1 {
                                assert(month_dated(months@[k], year as int, month as int));
                            } else {
                                assert(months@[k] == old_months[k]);
                            }
                        }
                        assert(months_nonempty(months@)) by {
                            assert forall|k: int|
                                0 <= k < months@.len() implies (#[trigger] months@[k]).days@.len()
                                > 0 && days_nonempty(months@[k].days@) by {
                                if k < months@.len() - 1 {
                                    assert(months@[k] == old_months[k]);
                                } else {
                                    assert(months@[k].days@ == flushed_days);
                                }
                            }
                        }
                        assert(months_adjacent_distinct(months@)) by {
                            assert forall|k: int|
                                0 <= k < months@.len() - 1 implies (#[trigger] months@[k]).name@
                                != months@[k + 1].name@ by {
                                assert(months@[k] == old_months[k]);
                                if k + 1 < months@.len() - 1 {
                                    assert(months@[k + 1] == old_months[k + 1]);
                                } else {
                                    assert(months@[k] == old_months.last());
                                }
                            }
                            assert forall|k: int|
                                0 <= k < months@.len() implies days_adjacent_distinct(
                                (#[trigger] months@[k]).days@,
                            ) by {
                                if k < months@.len() - 1 {
                                    assert(months@[k] == old_months[k]);
                                } else {
                                    assert(months@[k].days@ == flushed_days);
                                }
                            }
                        }
                        assert(s1.days.len() > 0);
                        assert(months_rec(months@) =~= flush_month(s1).months);
                        assert(days_rec(days@) =~= flush_month(s1).days);
                    }
                }
                month = date.month;
            }
            proof {
                assert(days_rec(days@) == s2.days);
                assert(files_rec(files@) == s2.files);
                assert(months_rec(months@) == s2.months);
                assert(years_rec(years@) == s2.years);
                assert(year as int == s2.y && month as int == s2.m && day as int == s2.d);
            }
            if year != date.year {
                if months.len() > 0 {
                    let name = crate::text::render_dec_u32(year as u32);
                    let ghost flushed_months = months@;
                    let flushed = months;
                    months = Vec::new();
                    let ghost old_years = years@;
                    years.push(YearDir { name, months: flushed });
                    proof {
                        assert(years@.drop_last() =~= old_years);
                        assert(forest_blobs(years@) == forest_blobs(old_years) + year_blobs(
                            years@.last().months@,
                        ));
                        assert(year_blobs(months@) =~= Seq::<(Seq<char>, Seq<char>)>::empty());
                        assert(forest_blobs(years@) + year_blobs(months@) + month_blobs(days@)
                            + day_blobs(files@) =~= target.take(i as int));
                        assert(year_dated(years@.last(), year as int)) by {
                            assert(years@.last().months@ == flushed_months);
                            assert forall|k: int|
                                0 <= k < years@.last().months@.len() implies month_some_dated(
                                #[trigger] years@.last().months@[k],
                                year as int,
                            ) by {
                                assert(years@.last().months@[k] == flushed_months[k]);
                            }
                        }
                        assert forall|k: int|
                            0 <= k < years@.len() implies year_some_dated(
                            #[trigger] years@[k],
                        ) by {
                            if k == years@.len() - 1 {
                                assert(year_dated(years@[k], year as int));
                            } else {
                                assert(years@[k] == old_years[k]);
                            }
                        }
                        assert(years_nonempty(years@)) by {
                            assert forall|k: int|
                                0 <= k < years@.len() implies (#[trigger] years@[k]).months@.len()
                                > 0 && months_nonempty(years@[k].months@) by {
                                if k < years@.len() - 1 {
                                    assert(years@[k] == old_years[k]);
                                } else {
                                    assert(years@[k].months@ == flushed_months);
                                }
                            }
                        }
                        assert(years_adjacent_distinct(years@)) by {
                            assert forall|k: int|
                                0 <= k < years@.len() - 1 implies (#[trigger] years@[k]).name@
                                != years@[k + 1].name@ by {
                                assert(years@[k] == old_years[k]);
                                if k + 1 < years@.len() - 1 {
                                    assert(years@[k + 1] == old_years[k + 1]);
                                } else {
                                    assert(years@[k] == old_years.last());
                                }
                            }
                            assert forall|k: int|
                                0 <= k < years@.len() implies months_adjacent_distinct(
                                (#[trigger] years@[k]).months@,
                            ) by {
                                if k < years@.len() - 1 {
                                    assert(years@[k] == old_years[k]);
                                } else {
                                    assert(years@[k].months@ == flushed_months);
                                }
                            }
                        }
                        assert(s2.months.len() > 0);
                        assert(years_rec(years@) =~= flush_year(s2).years);
                        assert(months_rec(months@) =~= flush_year(s2).months);
                    }
                }
                year = date.year;
            }
            proof {
                assert(days_rec(days@) == s3.days);
                assert(files_rec(files@) == s3.files);
                assert(months_rec(months@) == s3.months);
                assert(years_rec(years@) == s3.years);
                assert(year as int == s3.y && month as int == s3.m && day as int == s3.d);
            }
            let mut name = note.id.to_text();
            name.push('.');
            name.push('j');
            name.push('s');
            name.push('o');
            name.push('n');
            let data = render_note(note);
            let ghost old_files = files@;
            files.push(NoteFile { name, data });
            proof {
                assert(files@.drop_last() =~= old_files);
                assert(day_blobs(files@) == day_blobs(old_files).push(
                    (files@.last().name@, files@.last().data@),
                ));
                assert(files@.last().name@ =~= note_id_text(sorted[i as int].id.spec_value())
                    + seq!['.', 'j', 's', 'o', 'n']);
                assert(file_dated(files@.last(), year as int, month as int, day as int)) by {
                    let v = sorted[i as int].id.spec_value();
                    assert(crate::ids::civil_date_of(v >> 24) == (
                        year as int,
                        month as int,
                        day as int,
                    ));
                    assert(files@.last().name@ == note_id_text(v) + seq!['.', 'j', 's', 'o', 'n']);
                }
                assert forall|k: int|
                    0 <= k < files@.len() implies file_dated(
                    #[trigger] files@[k],
                    year as int,
                    month as int,
                    day as int,
                ) by {
                    if k < files@.len() - 1 {
                        assert(files@[k] == old_files[k]);
                    }
                }
                assert(notes_data(sorted)[i as int] == sorted[i as int].data());
                assert((files@.last().name@, files@.last().data@) == note_blob(
                    notes_data(sorted)[i as int],
                ));
                assert(target[i as int] == note_blob(notes_data(sorted)[i as int]));
                assert(target.take(i + 1) =~= target.take(i as int).push(target[i as int]));
                assert(forest_blobs(years@) + year_blobs(months@) + month_blobs(days@)
                    + day_blobs(files@) =~= target.take(i + 1));
                assert(files_rec(files@) =~= bucket_file(s3, nds[i as int]).files);
                assert(bucket_fold(nds, i + 1) == bucket_note(st0, nds[i as int]));
                assert(bucket_note(st0, nds[i as int]) == bucket_file(s3, nds[i as int])) by {
                    assert(nds[i as int].id >> 24 == sorted[i as int].id.spec_second());
                }
                assert(years_rec(years@) == bucket_fold(nds, i + 1).years);
                assert(months_rec(months@) == bucket_fold(nds, i + 1).months);
                assert(days_rec(days@) == bucket_fold(nds, i + 1).days);
                assert(files_rec(files@) == bucket_fold(nds, i + 1).files);
                assert(year as int == bucket_fold(nds, i + 1).y);
                assert(month as int == bucket_fold(nds, i + 1).m);
                assert(day as int == bucket_fold(nds, i + 1).d);
                crate::text::lemma_dec2_round_trip(day as nat);
                crate::text::lemma_dec2_round_trip(day0 as nat);
                crate::text::lemma_dec2_round_trip(month as nat);
                crate::text::lemma_dec2_round_trip(month0 as nat);
                crate::text::lemma_dec_round_trip(year as nat);
                crate::text::lemma_dec_round_trip(year0 as nat);
                assert(days@.len() > 0 ==> days@.last().name@ != crate::text::dec2_of(
                    day as nat,
                ));
                assert(months@.len() > 0 ==> months@.last().name@ != crate::text::dec2_of(
                    month as nat,
                ));
                assert(years@.len() > 0 ==> years@.last().name@ != crate::text::dec_of(
                    year as nat,
                ));
            }
            i = i + 1;
        }
        let ghost f1 = flush_day(bucket_fold(nds, sorted.len() as int));
        let ghost f2 = flush_month(f1);
        let ghost f3 = flush_year(f2);
        proof {
            assert(target.take(sorted.len() as int) =~= target);
        }
        if files.len() > 0 {
            let name = crate::text::render_dec2(day);
            let flushed = files;
            let ghost old_days = days@;
            days.push(DayDir { name, files: flushed });
            proof {
                assert(days@.drop_last() =~= old_days);
                assert(forest_blobs(years@) + year_blobs(months@) + month_blobs(days@)
                    =~= target);
                assert(day_dated(days@.last(), year as int, month as int, day as int));
                assert forall|k: int|
                    0 <= k < days@.len() implies day_some_dated(
                    #[trigger] days@[k],
                    year as int,
                    month as int,
                ) by {
                    if k == days@.len() - 1 {
                        assert(day_dated(days@[k], year as int, month as int, day as int));
                    } else {
                        assert(days@[k] == old_days[k]);
                    }
                }
                assert(days_nonempty(days@)) by {
                    assert forall|k: int|
                        0 <= k < days@.len() implies (#[trigger] days@[k]).files@.len() > 0 by {
                        if k < days@.len() - 1 {
                            assert(days@[k] == old_days[k]);
                        }
                    }
                }
                assert(days_adjacent_distinct(days@)) by {
                    assert forall|k: int|
                        0 <= k < days@.len() - 1 implies (#[trigger] days@[k]).name@ != days@[k
                        + 1].name@ by {
                        assert(days@[k] == old_days[k]);
                        if k + 1 < days@.len() - 1 {
                            assert(days@[k + 1] == old_days[k + 1]);
                        } else {
                            assert(days@[k] == old_days.last());
                        }
                    }
                }
                assert(days_rec(days@) =~= f1.days);
            }
        } else {
            proof {
                assert(forest_blobs(years@) + year_blobs(months@) + month_blobs(days@)
                    =~= target);
                assert(days_rec(days@) == f1.days);
            }
        }
        if days.len() > 0 {
            let name = crate::text::render_dec2(month);
            let ghost flushed_days = days@;
            let flushed = days;
            let ghost old_months = months@;
            months.push(MonthDir { name, days: flushed });
            proof {
                assert(months@.drop_last() =~= old_months);
                assert(forest_blobs(years@) + year_blobs(months@) =~= target);
                assert(month_dated(months@.last(), year as int, month as int)) by {
                    assert(months@.last().days@ == flushed_days);
                    assert forall|k: int|
                        0 <= k < months@.last().days@.len() implies day_some_dated(
                        #[trigger] months@.last().days@[k],
                        year as int,
                        month as int,
                    ) by {
                        assert(months@.last().days@[k] == flushed_days[k]);
                    }
                }
                assert forall|k: int|
                    0 <= k < months@.len() implies month_some_dated(
                    #[trigger] months@[k],
                    year as int,
                ) by {
                    if k == months@.len() - 1 {
                        assert(month_dated(months@[k], year as int, month as int));
                    } else {
                        assert(months@[k] == old_months[k]);
                    }
                }
                assert(months_nonempty(months@)) by {
                    assert forall|k: int|
                        0 <= k < months@.len() implies (#[trigger] months@[k]).days@.len() > 0
                        && days_nonempty(months@[k].days@) by {
                        if k < months@.len() - 1 {
                            assert(months@[k] == old_months[k]);
                        } else {
                            assert(months@[k].days@ == flushed_days);
                        }
                    }
                }
                assert(months_adjacent_distinct(months@)) by {
                    assert forall|k: int|
                        0 <= k < months@.len() - 1 implies (#[trigger] months@[k]).name@
                        != months@[k + 1].name@ by {
                        assert(months@[k] == old_months[k]);
                        if k + 1 < months@.len() - 1 {
                            assert(months@[k + 1] == old_months[k + 1]);
                        } else {
                            assert(months@[k] == old_months.last());
                        }
                    }
                    assert forall|k: int|
                        0 <= k < months@.len() implies days_adjacent_distinct(
                        (#[trigger] months@[k]).days@,
                    ) by {
                        if k < months@.len() - 1 {
                            assert(months@[k] == old_months[k]);
                        } else {
                            assert(months@[k].days@ == flushed_days);
                        }
                    }
                }
                assert(f1.days.len() > 0);
                assert(months_rec(months@) =~= f2.months);
            }
        } else {
            proof {
                assert(forest_blobs(years@) + year_blobs(months@) =~= target);
                assert(months_rec(months@) == f2.months);
            }
        }
        if months.len() > 0 {
            let name = crate::text::render_dec_u32(year as u32);
            let ghost flushed_months = months@;
            let flushed = months;
            let ghost old_years = years@;
            years.push(YearDir { name, months: flushed });
            proof {
                assert(years@.drop_last() =~= old_years);
                assert(forest_blobs(years@) =~= target);
                assert(year_dated(years@.last(), year as int)) by {
                    assert(years@.last().months@ == flushed_months);
                    assert forall|k: int|
                        0 <= k < years@.last().months@.len() implies month_some_dated(
                        #[trigger] years@.last().months@[k],
                        year as int,
                    ) by {
                        assert(years@.last().months@[k] == flushed_months[k]);
                    }
                }
                assert forall|k: int|
                    0 <= k < years@.len() implies year_some_dated(#[trigger] years@[k]) by {
                    if k == years@.len() - 1 {
                        assert(year_dated(years@[k], year as int));
                    } else {
                        assert(years@[k] == old_years[k]);
                    }
                }
                assert(years_nonempty(years@)) by {
                    assert forall|k: int|
                        0 <= k < years@.len() implies (#[trigger] years@[k]).months@.len() > 0
                        && months_nonempty(years@[k].months@) by {
                        if k < years@.len() - 1 {
                            assert(years@[k] == old_years[k]);
                        } else {
                            assert(years@[k].months@ == flushed_months);
                        }
                    }
                }
                assert(years_adjacent_distinct(years@)) by {
                    assert forall|k: int|
                        0 <= k < years@.len() - 1 implies (#[trigger] years@[k]).name@ != years@[k
                        + 1].name@ by {
                        assert(years@[k] == old_years[k]);
                        if k + 1 < years@.len() - 1 {
                            assert(years@[k + 1] == old_years[k + 1]);
                        } else {
                            assert(years@[k] == old_years.last());
                        }
                    }
                    assert forall|k: int|
                        0 <= k < years@.len() implies months_adjacent_distinct(
                        (#[trigger] years@[k]).months@,
                    ) by {
                        if k < years@.len() - 1 {
                            assert(years@[k] == old_years[k]);
                        } else {
                            assert(years@[k].months@ == flushed_months);
                        }
                    }
                }
                assert(f2.months.len() > 0);
                assert(years_rec(years@) =~= f3.years);
            }
        } else {
            proof {
                assert(forest_blobs(years@) =~= target);
                assert(years_rec(years@) == f3.years);
            }
        }
        let mut version_data = crate::text::render_dec_u32(VERSION);
        version_data.push('\n');
        proof {
            assert(version_data@ =~= crate::text::dec_of(VERSION as nat) + seq!['\n']);
        }
        RepoTree { version_data, years }
    }
}

/// Serializing a collection of notes and decoding the walked tree yields
/// the collection's notes back, reordered by identifier and otherwise
/// untouched: the round trip through the stored format loses nothing.
pub proof fn lemma_tree_round_trip(notes: Seq<Note>)
    ensures
        decode_blobs(note_blobs_of(notes_data(sort_spec(notes)))) == Some(
            notes_data(sort_spec(notes)),
        ),
        sort_spec(notes).to_multiset() == notes.to_multiset(),
        sorted_by_id(sort_spec(notes)),
{
    lemma_decode_note_blobs(notes_data(sort_spec(notes)));
    lemma_sort_spec_props(notes);
}

/// Read a quoted key and its colon.
fn scan_key(s: &Vec<char>, i: usize, key: &Vec<char>) -> (r: Option<usize>)
    ensures
        match r {
            Some(j) => expect_key(s@, i as int, key@) == Some(j as int) && i < j <= s@.len(),
            None => expect_key(s@, i as int, key@) is None,
        },
{
    let (k, j) = match scan_qstring(s, i) {
        Some(p) => p,
        None => {
            return None;
        },
    };
    if !chars_equal(&k, key) {
        return None;
    }
    if j >= s.len() {
        return None;
    }
    if s[j] != ':' {
        return None;
    }
    Some(j + 1)
}

/// Read the id list's elements up to the closing bracket.
fn scan_id_items(s: &Vec<char>, start: usize) -> (r: Option<(Vec<NoteId>, usize)>)
    ensures
        match r {
            Some(v) => parse_id_items(s@, start as int, Seq::empty(), true) == Some(
                (id_values(v.0@), v.1 as int),
            ) && v.1 <= s@.len(),
            None => parse_id_items(s@, start as int, Seq::empty(), true) is None,
        },
{
    let n = s.len();
    if start > n {
        return None;
    }
    let mut acc: Vec<NoteId> = Vec::new();
    let mut i: usize = start;
    let mut first: bool = true;
    proof {
        assert(id_values(acc@) =~= Seq::<u64>::empty());
    }
    loop
        invariant
            n == s@.len(),
            i <= n,
            parse_id_items(s@, start as int, Seq::empty(), true) == parse_id_items(
                s@,
                i as int,
                id_values(acc@),
                first,
            ),
        ensures
            parse_id_items(s@, start as int, Seq::empty(), true) is None,
        decreases n - i,
    {
        if i >= n {
            break ;
        }
        if s[i] == ']' {
            proof {
                assert(parse_id_items(s@, i as int, id_values(acc@), first) == Some(
                    (id_values(acc@), i + 1),
                ));
            }
            return Some((acc, i + 1));
        }
        let start2 = if first {
            i
        } else {
            if s[i] != ',' {
                return None;
            }
            i + 1
        };
        let (t, j) = match scan_qstring(s, start2) {
            Some(p) => p,
            None => {
                return None;
            },
        };
        let id = match crate::ids::NoteId::from_text(&t) {
            Some(id) => id,
            None => {
                return None;
            },
        };
        let ghost prev = acc@;
        acc.push(id);
        proof {
            assert(id_values(acc@) =~= id_values(prev).push(id.spec_value()));
        }
        i = j;
        first = false;
    }
    None
}

/// Read a note from JSON text.
pub fn parse_note(s: &Vec<char>) -> (r: Option<Note>)
    ensures
        match r {
            Some(n) => parse_note_text(s@) == Some(n.data()),
            None => parse_note_text(s@) is None,
        },
{
    let n = s.len();
    if n == 0 {
        return None;
    }
    if s[0] != '{' {
        return None;
    }
    let mut key_id: Vec<char> = Vec::new();
    key_id.push('i');
    key_id.push('d');
    proof {
        assert(key_id@ =~= seq!['i', 'd']);
    }
    let i1 = match scan_key(s, 1, &key_id) {
        Some(i) => i,
        None => {
            return None;
        },
    };
    let (idtext, i2) = match scan_qstring(s, i1) {
        Some(p) => p,
        None => {
            return None;
        },
    };
    let id = match crate::ids::NoteId::from_text(&idtext) {
        Some(id) => id,
        None => {
            return None;
        },
    };
    if i2 >= n {
        return None;
    }
    if s[i2] != ',' {
        return None;
    }
    let mut key_text: Vec<char> = Vec::new();
    key_text.push('t');
    key_text.push('e');
    key_text.push('x');
    key_text.push('t');
    proof {
        assert(key_text@ =~= seq!['t', 'e', 'x', 't']);
    }
    let i3 = match scan_key(s, i2 + 1, &key_text) {
        Some(i) => i,
        None => {
            return None;
        },
    };
    let (text, i4) = match scan_qstring(s, i3) {
        Some(p) => p,
        None => {
            return None;
        },
    };
    if i4 >= n {
        return None;
    }
    if s[i4] != ',' {
        return None;
    }
    let mut key_children: Vec<char> = Vec::new();
    key_children.push('c');
    key_children.push('h');
    key_children.push('i');
    key_children.push('l');
    key_children.push('d');
    key_children.push('r');
    key_children.push('e');
    key_children.push('n');
    proof {
        assert(key_children@ =~= seq!['c', 'h', 'i', 'l', 'd', 'r', 'e', 'n']);
    }
    let i5 = match scan_key(s, i4 + 1, &key_children) {
        Some(i) => i,
        None => {
            return None;
        },
    };
    if i5 >= n {
        return None;
    }
    if s[i5] != '[' {
        return None;
    }
    let (children, i6) = match scan_id_items(s, i5 + 1) {
        Some(p) => p,
        None => {
            return None;
        },
    };
    if i6 >= n {
        return None;
    }
    if s[i6] != '}' {
        return None;
    }
    if i6 + 1 != n {
        return None;
    }
    let note = Note { id, text: string_from_chars(&text), children };
    proof {
        assert(note.data().children =~= id_values(note.children@));
    }
    Some(note)
}

} // verus!
