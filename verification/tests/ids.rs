use gdn::ids::{NoteId, RepoId, MAX_DATE_SECOND, SECOND_LIMIT};

fn chars(s: &str) -> Vec<char> {
    s.chars().collect()
}

fn text(v: Vec<char>) -> String {
    v.into_iter().collect()
}

#[test]
fn note_id_text_is_tagged_hex() {
    let id = NoteId::from_value(0x0123_4567_89AB_CDEF);
    assert_eq!(text(id.to_text()), "n0123456789ABCDEF");
}

#[test]
fn note_id_text_keeps_leading_zeros() {
    let id = NoteId::from_value(1);
    assert_eq!(text(id.to_text()), "n0000000000000001");
}

#[test]
fn note_id_text_of_largest_value() {
    let id = NoteId::from_value(u64::MAX);
    assert_eq!(text(id.to_text()), "nFFFFFFFFFFFFFFFF");
}

#[test]
fn repo_id_text_is_tagged_hex() {
    let id = RepoId::from_value(0x00FF_0000_0000_0001);
    assert_eq!(text(id.to_text()), "r00FF000000000001");
}

#[test]
fn note_id_round_trips_through_text() {
    let id = NoteId::from_value(0xDEAD_BEEF_0102_0304);
    let t = id.to_text();
    let back = NoteId::from_text(&t).expect("own text must parse");
    assert_eq!(back.value(), id.value());
}

#[test]
fn repo_id_round_trips_through_text() {
    let id = RepoId::from_value(42);
    let t = id.to_text();
    let back = RepoId::from_text(&t).expect("own text must parse");
    assert_eq!(back.value(), id.value());
}

#[test]
fn note_id_text_rejects_malformed_text() {
    assert!(NoteId::from_text(&chars("n0123456789abcdef")).is_none());
    assert!(NoteId::from_text(&chars("r0123456789ABCDEF")).is_none());
    assert!(NoteId::from_text(&chars("n0123456789ABCDE")).is_none());
    assert!(NoteId::from_text(&chars("n0123456789ABCDEF0")).is_none());
    assert!(NoteId::from_text(&chars("n+123456789ABCDEF")).is_none());
    assert!(NoteId::from_text(&chars("")).is_none());
}

#[test]
fn fresh_note_id_is_time_ordered() {
    let id = NoteId::new().expect("the clock is after the epoch");
    let second = id.second();
    assert!(second < SECOND_LIMIT);
    assert!(second <= MAX_DATE_SECOND);
    // any clock this test runs under is well past 2000-01-01
    assert!(second > 946_684_800);
}

#[test]
fn fresh_ids_rarely_collide() {
    let a = NoteId::new().unwrap();
    let b = NoteId::new().unwrap();
    let c = NoteId::new().unwrap();
    assert!(a.value() != b.value() || b.value() != c.value());
}

#[test]
fn date_of_the_epoch_second() {
    let id = NoteId::from_value(0);
    let date = id.date_utc();
    assert_eq!(date.year, 1970);
    assert_eq!(date.month, 1);
    assert_eq!(date.day, 1);
}

#[test]
fn date_of_a_known_second() {
    // 2001-09-09T01:46:40Z
    let id = NoteId::from_value(1_000_000_000u64 << 24);
    let date = id.date_utc();
    assert_eq!(date.year, 2001);
    assert_eq!(date.month, 9);
    assert_eq!(date.day, 9);
}

#[test]
fn id_second_is_the_high_bits() {
    let id = NoteId::from_value((123u64 << 24) | 0x00AB_CDEF);
    assert_eq!(id.second(), 123);
}

#[test]
fn ids_compose_from_second_and_random() {
    let id = NoteId::from_parts(5, 0xAB_CD_EF99);
    assert_eq!(id.value(), (5u64 << 24) | 0xCDEF99);
    assert_eq!(id.second(), 5);
    let r = RepoId::from_parts(123, 7);
    assert_eq!(r.value(), (123u64 << 24) | 7);
    assert_eq!(text(r.to_text()), "r000000007B000007");
}

#[test]
fn composed_ids_order_chronologically() {
    let early = NoteId::from_parts(10, u64::MAX);
    let late = NoteId::from_parts(11, 0);
    assert!(early.value() < late.value());
    let tie_low = NoteId::from_parts(10, 1);
    let tie_high = NoteId::from_parts(10, 2);
    assert!(tie_low.value() < tie_high.value());
}
