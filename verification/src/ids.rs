//! Timestamp- and randomness-based identifiers.
//!
//! An identifier holds 8 bytes: the first 5 bytes are an epoch timestamp in
//! seconds, the remaining 3 bytes a random number meant to avoid collisions
//! when two identifiers are created during the same second. The text form is
//! 16 upper-case hexadecimal digits behind a one-letter type tag: `n` for
//! notes, `r` for note repositories.

use vstd::prelude::*;

use crate::text::{all_hex_digits, hex16_of, hex_val_seq, parse_hex16_at, render_hex16};

verus! {

/// A second count that every identifier timestamp stays below.
pub const SECOND_LIMIT: u64 = 0x100_0000_0000;

/// The largest epoch second that can still be placed on a calendar date:
/// the upper bound of the supported instant range, late in year 9999.
pub const MAX_DATE_SECOND: u64 = 253402207200;

/// Relies on `jiff::Timestamp::now` and `jiff::Timestamp::as_second`: the
/// current whole second relative to the Unix epoch, within the bounds of
/// `jiff::Timestamp::MIN` and `jiff::Timestamp::MAX`.
#[verifier::external_body]
fn now_second() -> (r: i64)
    ensures
        -377705116800 <= r <= 253402207200,
{
    jiff::Timestamp::now().as_second()
}

/// Relies on `rand::random`: a uniformly random value. Nothing is promised
/// of the result.
#[verifier::external_body]
fn random_u64() -> u64 {
    rand::random::<u64>()
}

/// The 64-bit identifier value composed from an epoch second and a random
/// draw: the second in the five high bytes, the low 24 bits random.
pub open spec fn id_value_of(second: u64, random: u64) -> u64 {
    (second << 24) | (random & 0x00FF_FFFF)
}

/// Identifier values order chronologically: a later clock second gives a
/// larger value whatever the random draws; within one second the 24
/// random bits break the tie.
pub proof fn lemma_id_values_time_ordered(s1: u64, r1: u64, s2: u64, r2: u64)
    requires
        s1 < SECOND_LIMIT,
        s2 < SECOND_LIMIT,
    ensures
        s1 < s2 ==> id_value_of(s1, r1) < id_value_of(s2, r2),
        s1 == s2 ==> (id_value_of(s1, r1) <= id_value_of(s2, r2) <==> (r1 & 0x00FF_FFFF) <= (r2
            & 0x00FF_FFFF)),
{
    assert(s1 < s2 && s1 < 0x100_0000_0000 && s2 < 0x100_0000_0000 ==> ((s1 << 24) | (r1
        & 0x00FF_FFFF)) < ((s2 << 24) | (r2 & 0x00FF_FFFF))) by (bit_vector);
    assert(s1 == s2 && s1 < 0x100_0000_0000 ==> (((s1 << 24) | (r1 & 0x00FF_FFFF)) <= ((s2 << 24)
        | (r2 & 0x00FF_FFFF)) <==> (r1 & 0x00FF_FFFF) <= (r2 & 0x00FF_FFFF))) by (bit_vector);
}

/// The calendar date, in UTC, of an epoch second: year, month and day.
pub uninterp spec fn civil_date_of(second: u64) -> (int, int, int);

/// Relies on `jiff::Timestamp::from_second`, `Timestamp::to_zoned` and the
/// date accessors of `jiff::Zoned`: the UTC calendar date of an epoch
/// second, which depends on the second alone. Years of non-negative epoch
/// seconds start at 1970 and stay within jiff's documented year range;
/// months and days are one-based.
#[verifier::external_body]
fn civil_date_utc(second: u64) -> (r: (u16, u8, u8))
    requires
        second <= MAX_DATE_SECOND,
    ensures
        (r.0 as int, r.1 as int, r.2 as int) == civil_date_of(second),
        1970 <= r.0 <= 9999,
        1 <= r.1 <= 12,
        1 <= r.2 <= 31,
{
    let zoned = jiff::Timestamp::from_second(second as i64)
        .expect("second is within the supported range")
        .to_zoned(jiff::tz::TimeZone::UTC);
    (zoned.year() as u16, zoned.month() as u8, zoned.day() as u8)
}

/// A timestamp- and randomness-based id.
#[derive(Debug, Clone, Copy, PartialEq, Eq, PartialOrd, Ord, Hash, Structural)]
struct TimestampId(u64);

impl TimestampId {
    spec fn spec_second(&self) -> u64 {
        self.0 >> 24
    }

    proof fn lemma_second_bound(&self)
        ensures
            self.spec_second() < SECOND_LIMIT,
    {
        let v = self.0;
        assert(v >> 24 < 0x100_0000_0000) by (bit_vector);
    }

    /// Compose an identifier from its two parts: the second in the five
    /// high bytes, the low 24 bits of the random draw below.
    fn compose(second: u64, random: u64) -> (r: TimestampId)
        requires
            second < SECOND_LIMIT,
        ensures
            r.0 == id_value_of(second, random),
            r.spec_second() == second,
    {
        let value = (second << 24) | (random & 0x00FF_FFFF);
        proof {
            assert(second < 0x100_0000_0000 ==> ((second << 24) | (random & 0x00FF_FFFF)) >> 24
                == second) by (bit_vector);
        }
        TimestampId(value)
    }

    fn fresh() -> (r: Option<TimestampId>)
        ensures
            match r {
                Some(id) => id.spec_second() <= MAX_DATE_SECOND,
                None => true,
            },
    {
        let now = now_second();
        if now < 0 {
            return None;
        }
        Some(TimestampId::compose(now as u64, random_u64()))
    }

    fn second(self) -> (r: u64)
        ensures
            r == self.spec_second(),
    {
        self.0 >> 24
    }
}

/// The calendar date encoded by an identifier's timestamp.
#[derive(Debug, Clone, Copy, PartialEq, Eq, Structural)]
pub struct CivilDate {
    pub year: u16,
    pub month: u8,
    pub day: u8,
}

impl CivilDate {
    /// The date is one that the identifier timestamps can produce.
    pub open spec fn wf(&self) -> bool {
        &&& 1970 <= self.year <= 9999
        &&& 1 <= self.month <= 12
        &&& 1 <= self.day <= 31
    }
}

/// The text of a note identifier with the given value.
pub open spec fn note_id_text(v: u64) -> Seq<char> {
    seq!['n'] + hex16_of(v)
}

/// The text of a repository identifier with the given value.
pub open spec fn repo_id_text(v: u64) -> Seq<char> {
    seq!['r'] + hex16_of(v)
}

/// The value of identifier text with the given tag, if it is well-formed:
/// the tag, then exactly sixteen upper-case hexadecimal digits.
pub open spec fn id_text_value(tag: char, s: Seq<char>) -> Option<u64> {
    if s.len() == 17 && s[0] == tag && all_hex_digits(s.subrange(1, 17)) {
        Some(hex_val_seq(s.subrange(1, 17)) as u64)
    } else {
        None
    }
}

/// The id for a single note.
#[derive(Debug, Clone, Copy, PartialEq, Eq, PartialOrd, Ord, Hash, Structural)]
pub struct NoteId(TimestampId);

/// The id for a note repository.
#[derive(Debug, Clone, Copy, PartialEq, Eq, PartialOrd, Ord, Hash, Structural)]
pub struct RepoId(TimestampId);

impl NoteId {
    /// The 64-bit value of the identifier.
    pub closed spec fn spec_value(&self) -> u64 {
        self.0.0
    }

    /// The epoch second held in the identifier's first five bytes.
    pub open spec fn spec_second(&self) -> u64 {
        self.spec_value() >> 24
    }

    /// Allocate a fresh identifier from the clock and a random number.
    /// `None` only when the clock reports a second before the Unix epoch.
    pub fn new() -> (r: Option<NoteId>)
        ensures
            match r {
                Some(id) => id.spec_second() <= MAX_DATE_SECOND,
                None => true,
            },
    {
        match TimestampId::fresh() {
            Some(inner) => Some(NoteId(inner)),
            None => None,
        }
    }

    pub fn value(&self) -> (v: u64)
        ensures
            v == self.spec_value(),
    {
        self.0.0
    }

    /// Rebuild an identifier from its 64-bit value.
    pub fn from_value(v: u64) -> (r: NoteId)
        ensures
            r.spec_value() == v,
    {
        NoteId(TimestampId(v))
    }

    /// Compose an identifier from an epoch second and a random draw, as
    /// the allocator does: the second in the five high bytes, the low 24
    /// bits of the draw below.
    pub fn from_parts(second: u64, random: u64) -> (r: NoteId)
        requires
            second < SECOND_LIMIT,
        ensures
            r.spec_value() == id_value_of(second, random),
            r.spec_second() == second,
    {
        NoteId(TimestampId::compose(second, random))
    }

    /// The epoch second held in the identifier.
    pub fn second(&self) -> (r: u64)
        ensures
            r == self.spec_second(),
            r < SECOND_LIMIT,
    {
        proof {
            self.0.lemma_second_bound();
        }
        self.0.second()
    }

    /// The UTC calendar date encoded in the identifier's timestamp.
    pub fn date_utc(&self) -> (r: CivilDate)
        requires
            self.spec_second() <= MAX_DATE_SECOND,
        ensures
            (r.year as int, r.month as int, r.day as int) == civil_date_of(self.spec_second()),
            r.wf(),
    {
        let (year, month, day) = civil_date_utc(self.second());
        CivilDate { year, month, day }
    }

    /// The identifier's text: `n` and sixteen upper-case hexadecimal digits.
    pub fn to_text(&self) -> (s: Vec<char>)
        ensures
            s@ == note_id_text(self.spec_value()),
    {
        let mut s: Vec<char> = Vec::new();
        s.push('n');
        let mut hex = render_hex16(self.0.0);
        s.append(&mut hex);
        proof {
            assert(s@ =~= note_id_text(self.spec_value()));
        }
        s
    }

    /// Read an identifier from its text form.
    pub fn from_text(s: &Vec<char>) -> (r: Option<NoteId>)
        ensures
            match r {
                Some(id) => id_text_value('n', s@) == Some(id.spec_value()),
                None => id_text_value('n', s@) is None,
            },
    {
        match parse_id_text('n', s) {
            Some(v) => Some(NoteId(TimestampId(v))),
            None => None,
        }
    }
}

impl RepoId {
    /// The 64-bit value of the identifier.
    pub closed spec fn spec_value(&self) -> u64 {
        self.0.0
    }

    /// The epoch second held in the identifier's first five bytes.
    pub open spec fn spec_second(&self) -> u64 {
        self.spec_value() >> 24
    }

    /// Allocate a fresh identifier from the clock and a random number.
    /// `None` only when the clock reports a second before the Unix epoch.
    pub fn new() -> (r: Option<RepoId>)
        ensures
            match r {
                Some(id) => id.spec_second() <= MAX_DATE_SECOND,
                None => true,
            },
    {
        match TimestampId::fresh() {
            Some(inner) => Some(RepoId(inner)),
            None => None,
        }
    }

    /// Compose an identifier from an epoch second and a random draw, as
    /// the allocator does: the second in the five high bytes, the low 24
    /// bits of the draw below.
    pub fn from_parts(second: u64, random: u64) -> (r: RepoId)
        requires
            second < SECOND_LIMIT,
        ensures
            r.spec_value() == id_value_of(second, random),
            r.spec_second() == second,
    {
        RepoId(TimestampId::compose(second, random))
    }

    pub fn value(&self) -> (v: u64)
        ensures
            v == self.spec_value(),
    {
        self.0.0
    }

    /// Rebuild an identifier from its 64-bit value.
    pub fn from_value(v: u64) -> (r: RepoId)
        ensures
            r.spec_value() == v,
    {
        RepoId(TimestampId(v))
    }

    /// The identifier's text: `r` and sixteen upper-case hexadecimal digits.
    pub fn to_text(&self) -> (s: Vec<char>)
        ensures
            s@ == repo_id_text(self.spec_value()),
    {
        let mut s: Vec<char> = Vec::new();
        s.push('r');
        let mut hex = render_hex16(self.0.0);
        s.append(&mut hex);
        proof {
            assert(s@ =~= repo_id_text(self.spec_value()));
        }
        s
    }

    /// Read an identifier from its text form.
    pub fn from_text(s: &Vec<char>) -> (r: Option<RepoId>)
        ensures
            match r {
                Some(id) => id_text_value('r', s@) == Some(id.spec_value()),
                None => id_text_value('r', s@) is None,
            },
    {
        match parse_id_text('r', s) {
            Some(v) => Some(RepoId(TimestampId(v))),
            None => None,
        }
    }
}

/// Read tagged identifier text: the tag, then sixteen hexadecimal digits.
fn parse_id_text(tag: char, s: &Vec<char>) -> (r: Option<u64>)
    ensures
        r == id_text_value(tag, s@),
{
    if s.len() != 17 {
        return None;
    }
    if s[0] != tag {
        return None;
    }
    let parsed = parse_hex16_at(s, 1);
    proof {
        assert(s@.subrange(1, 17) =~= s@.subrange(1, (1 + 16) as int));
    }
    parsed
}

/// The 64-bit values of a sequence of note identifiers.
pub open spec fn id_values(s: Seq<NoteId>) -> Seq<u64> {
    Seq::new(s.len(), |i: int| s[i].spec_value())
}

/// Identifier text reads back to the identifier it was rendered from.
pub proof fn lemma_id_text_round_trip(v: u64)
    ensures
        id_text_value('n', note_id_text(v)) == Some(v),
        id_text_value('r', repo_id_text(v)) == Some(v),
{
    crate::text::lemma_hex16_round_trip(v);
    assert(note_id_text(v).subrange(1, 17) =~= hex16_of(v));
    assert(repo_id_text(v).subrange(1, 17) =~= hex16_of(v));
}

} // verus!
