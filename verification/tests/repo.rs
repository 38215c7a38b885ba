use gdn::ids::NoteId;
use gdn::repo::v1::{parse_note, render_note, RepoTree, WalkedBlob};
use gdn::repo::{load, load_version, parse_version_text, Note, Repo, RepoError, VERSION};

fn chars(s: &str) -> Vec<char> {
    s.chars().collect()
}

fn text(v: &[char]) -> String {
    v.iter().collect()
}

fn note(id: u64, body: &str, children: &[u64]) -> Note {
    Note {
        id: NoteId::from_value(id),
        text: String::from(body),
        children: children.iter().map(|v| NoteId::from_value(*v)).collect(),
    }
}

/// The blobs a walk of the tree visits, with the version file first, as a
/// stored repository holds it at the root.
fn walk(tree: &RepoTree) -> Vec<WalkedBlob> {
    let mut blobs = Vec::new();
    blobs.push(WalkedBlob { name: chars("VERSION"), data: tree.version_data.clone() });
    for year in &tree.years {
        for month in &year.months {
            for day in &month.days {
                for file in &day.files {
                    blobs.push(WalkedBlob { name: file.name.clone(), data: file.data.clone() });
                }
            }
        }
    }
    blobs
}

#[test]
fn note_json_has_the_documented_shape() {
    let n = note(1, "hello", &[2]);
    let rendered = render_note(&n);
    assert_eq!(
        text(&rendered),
        "{\"id\":\"n0000000000000001\",\"text\":\"hello\",\"children\":[\"n0000000000000002\"]}"
    );
}

#[test]
fn note_json_without_children() {
    let n = note(0xAB, "", &[]);
    assert_eq!(
        text(&render_note(&n)),
        "{\"id\":\"n00000000000000AB\",\"text\":\"\",\"children\":[]}"
    );
}

#[test]
fn note_json_escapes_special_characters() {
    let n = note(1, "a\"b\\c\nd", &[]);
    assert_eq!(
        text(&render_note(&n)),
        "{\"id\":\"n0000000000000001\",\"text\":\"a\\\"b\\\\c\\u000Ad\",\"children\":[]}"
    );
}

#[test]
fn note_json_round_trips() {
    let n = note(0x0102030405060708, "some text, with punctuation: \"quotes\"\\\t", &[7, 7, 9]);
    let rendered = render_note(&n);
    let back = parse_note(&rendered).expect("own text must parse");
    assert_eq!(back.id.value(), n.id.value());
    assert_eq!(back.text, n.text);
    let values: Vec<u64> = back.children.iter().map(|c| c.value()).collect();
    assert_eq!(values, vec![7, 7, 9]);
}

#[test]
fn parse_note_accepts_short_escapes() {
    let s = chars("{\"id\":\"n0000000000000001\",\"text\":\"a\\n\\tb\\/\",\"children\":[]}");
    let n = parse_note(&s).expect("short escapes are valid");
    assert_eq!(n.text, "a\n\tb/");
}

#[test]
fn parse_note_rejects_malformed_text() {
    assert!(parse_note(&chars("")).is_none());
    assert!(parse_note(&chars("{}")).is_none());
    assert!(parse_note(&chars("{\"id\":\"x\",\"text\":\"\",\"children\":[]}")).is_none());
    assert!(parse_note(&chars("{\"id\":\"n0000000000000001\",\"text\":\"\"}")).is_none());
    assert!(
        parse_note(&chars("{\"id\":\"n0000000000000001\",\"text\":\"\",\"children\":[]} ")).is_none()
    );
}

#[test]
fn save_groups_notes_by_date() {
    // seconds chosen on three calendar days across two years
    let day1 = 0u64; // 1970-01-01
    let day2 = 86_400u64; // 1970-01-02
    let day3 = 1_000_000_000u64; // 2001-09-09
    let repo = Repo {
        notes: vec![
            note(day3 << 24, "late", &[]),
            note(day1 << 24, "first", &[]),
            note((day1 << 24) | 1, "second", &[]),
            note(day2 << 24, "third", &[]),
        ],
    };
    let tree = repo.save_to_tree();
    assert_eq!(text(&tree.version_data), "1\n");
    assert_eq!(tree.years.len(), 2);
    assert_eq!(text(&tree.years[0].name), "1970");
    assert_eq!(text(&tree.years[1].name), "2001");
    assert_eq!(tree.years[0].months.len(), 1);
    assert_eq!(text(&tree.years[0].months[0].name), "01");
    assert_eq!(tree.years[0].months[0].days.len(), 2);
    assert_eq!(text(&tree.years[0].months[0].days[0].name), "01");
    assert_eq!(text(&tree.years[0].months[0].days[1].name), "02");
    assert_eq!(tree.years[0].months[0].days[0].files.len(), 2);
    assert_eq!(text(&tree.years[1].name), "2001");
    assert_eq!(text(&tree.years[1].months[0].name), "09");
    assert_eq!(text(&tree.years[1].months[0].days[0].name), "09");
    let first_file = &tree.years[0].months[0].days[0].files[0];
    assert_eq!(text(&first_file.name), "n0000000000000000.json");
}

#[test]
fn saved_trees_load_back_to_the_same_notes() {
    let repo = Repo {
        notes: vec![
            note((1_000_000_000u64 << 24) | 5, "b", &[1, 2]),
            note(1, "a", &[]),
            note((86_400u64 << 24) | 9, "c\nwith lines", &[(86_400 << 24) | 9]),
        ],
    };
    let mut expected: Vec<(u64, String, Vec<u64>)> = repo
        .notes
        .iter()
        .map(|n| {
            (
                n.id.value(),
                n.text.clone(),
                n.children.iter().map(|c| c.value()).collect(),
            )
        })
        .collect();
    expected.sort_by_key(|t| t.0);

    let tree = repo.save_to_tree();
    let blobs = walk(&tree);
    let loaded = Repo::load_from_tree(&blobs).expect("own tree must load");
    let actual: Vec<(u64, String, Vec<u64>)> = loaded
        .notes
        .iter()
        .map(|n| {
            (
                n.id.value(),
                n.text.clone(),
                n.children.iter().map(|c| c.value()).collect(),
            )
        })
        .collect();
    assert_eq!(actual, expected);
}

#[test]
fn a_bad_note_file_aborts_the_load() {
    let blobs = vec![
        WalkedBlob { name: chars("VERSION"), data: chars("1\n") },
        WalkedBlob { name: chars("broken.json"), data: chars("{nope") },
    ];
    match Repo::load_from_tree(&blobs) {
        Err(RepoError::InvalidNote) => {},
        _ => panic!("a bad note file must abort the load"),
    }
}

#[test]
fn files_without_the_note_suffix_are_skipped() {
    let blobs = vec![WalkedBlob { name: chars("VERSION"), data: chars("1\n") }];
    let loaded = Repo::load_from_tree(&blobs).unwrap();
    assert!(loaded.notes.is_empty());
}

#[test]
fn version_text_parses_with_surrounding_space() {
    assert_eq!(parse_version_text(&chars("1\n")).unwrap(), 1);
    assert_eq!(parse_version_text(&chars(" 42 \n")).unwrap(), 42);
    assert_eq!(parse_version_text(&chars("007")).unwrap(), 7);
    assert!(parse_version_text(&chars("")).is_err());
    assert!(parse_version_text(&chars("abc")).is_err());
    assert!(parse_version_text(&chars("4294967296")).is_err());
}

#[test]
fn a_repository_without_history_is_version_zero_and_empty() {
    assert_eq!(load_version(None).unwrap(), 0);
    let repo = load(None).unwrap();
    assert!(repo.notes.is_empty());
}

#[test]
fn load_dispatches_on_the_version() {
    let vtext = chars("1\n");
    let blobs: Vec<WalkedBlob> = Vec::new();
    assert!(load(Some((&vtext, &blobs))).is_ok());
    assert_eq!(load_version(Some(&vtext)).unwrap(), VERSION);

    let unknown = chars("2\n");
    match load(Some((&unknown, &blobs))) {
        Err(RepoError::InvalidVersion(2)) => {},
        _ => panic!("an unknown version must be refused"),
    }
    let junk = chars("eleven");
    match load(Some((&junk, &blobs))) {
        Err(RepoError::InvalidVersionText) => {},
        _ => panic!("a malformed version must be refused"),
    }
}

#[test]
fn parse_note_accepts_unicode_escapes_of_either_case() {
    let s = chars("{\"id\":\"n0000000000000001\",\"text\":\"a\\u001fb\\u001Fc\",\"children\":[]}");
    let n = parse_note(&s).expect("unicode escapes of controls are valid");
    assert_eq!(n.text, "a\u{1f}b\u{1f}c");
}

#[test]
fn sorting_notes_orders_by_identifier() {
    let mut notes = vec![note(3, "c", &[]), note(1, "a", &[]), note(2, "b", &[])];
    gdn::repo::v1::sort_notes(&mut notes);
    let ids: Vec<u64> = notes.iter().map(|n| n.id.value()).collect();
    assert_eq!(ids, vec![1, 2, 3]);
}
