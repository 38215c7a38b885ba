use gdn::data::v0;
use gdn::data::v1::{parse_state, render_state, repo_dir, repos_dir, state_file, State};
use gdn::data::{
    migrate, open, read_version, require_version, DataError, DirContents, UnlockedDataDir, VERSION,
};
use gdn::ids::RepoId;

fn chars(s: &str) -> Vec<char> {
    s.chars().collect()
}

fn text(v: &[char]) -> String {
    v.iter().collect()
}

fn rid(v: u64) -> RepoId {
    RepoId::from_value(v)
}

#[test]
fn default_state_renders_to_the_documented_shape() {
    let state = State::default();
    assert_eq!(text(&render_state(&state)), "{\"repos\":{},\"selectedRepo\":null}");
}

#[test]
fn state_with_repos_renders_and_parses() {
    let state = State {
        repos: vec![(rid(1), String::from("work")), (rid(2), String::from("home"))],
        selected_repo: Some(rid(2)),
    };
    let rendered = render_state(&state);
    assert_eq!(
        text(&rendered),
        "{\"repos\":{\"r0000000000000001\":\"work\",\"r0000000000000002\":\"home\"},\
         \"selectedRepo\":\"r0000000000000002\"}"
    );
    let back = parse_state(&rendered).expect("own text must parse");
    assert_eq!(back.repos.len(), 2);
    assert_eq!(back.repos[0].0.value(), 1);
    assert_eq!(back.repos[0].1, "work");
    assert_eq!(back.repos[1].0.value(), 2);
    assert_eq!(back.repos[1].1, "home");
    assert_eq!(back.selected_repo.unwrap().value(), 2);
}

#[test]
fn state_with_null_selection_parses() {
    let s = chars("{\"repos\":{},\"selectedRepo\":null}");
    let state = parse_state(&s).unwrap();
    assert!(state.repos.is_empty());
    assert!(state.selected_repo.is_none());
}

#[test]
fn malformed_state_is_refused() {
    assert!(parse_state(&chars("")).is_none());
    assert!(parse_state(&chars("{}")).is_none());
    assert!(parse_state(&chars("{\"repos\":{}}")).is_none());
    assert!(parse_state(&chars("{\"repos\":{},\"selectedRepo\":\"x\"}")).is_none());
    assert!(parse_state(&chars("{\"repos\":{},\"selectedRepo\":null} ")).is_none());
}

#[test]
fn normalize_clears_a_dangling_selection() {
    let mut state = State { repos: vec![(rid(1), String::from("a"))], selected_repo: Some(rid(9)) };
    state.normalize();
    assert!(state.selected_repo.is_none());
}

#[test]
fn normalize_keeps_a_valid_selection() {
    let mut state = State { repos: vec![(rid(1), String::from("a"))], selected_repo: Some(rid(1)) };
    state.normalize();
    assert_eq!(state.selected_repo.unwrap().value(), 1);
}

#[test]
fn identifiers_resolve_by_id_first() {
    let state = State {
        repos: vec![(rid(1), String::from("r0000000000000002")), (rid(2), String::from("two"))],
        selected_repo: None,
    };
    // valid id text of an installed collection wins over the equal name
    let by_id = state.resolve_repo_identifier("r0000000000000002").unwrap();
    assert_eq!(by_id.value(), 2);
}

#[test]
fn identifiers_resolve_by_name() {
    let state = State {
        repos: vec![(rid(1), String::from("work")), (rid(2), String::from("work"))],
        selected_repo: None,
    };
    let by_name = state.resolve_repo_identifier("work").unwrap();
    assert_eq!(by_name.value(), 1);
    assert!(state.resolve_repo_identifier("play").is_none());
}

#[test]
fn id_text_of_an_absent_collection_falls_back_to_names() {
    let state = State {
        repos: vec![(rid(1), String::from("r0000000000000009"))],
        selected_repo: None,
    };
    let r = state.resolve_repo_identifier("r0000000000000009").unwrap();
    assert_eq!(r.value(), 1);
}

#[test]
fn missing_version_marker_means_version_zero() {
    let d = DirContents { version_text: None, state_text: None };
    assert_eq!(read_version(&d).unwrap(), 0);
}

#[test]
fn version_marker_text_is_read_back() {
    let d = DirContents { version_text: Some(chars("1\n")), state_text: None };
    assert_eq!(read_version(&d).unwrap(), 1);
    let bad = DirContents { version_text: Some(chars("soon")), state_text: None };
    match read_version(&bad) {
        Err(DataError::InvalidVersionText) => {},
        _ => panic!("junk in the version marker must be refused"),
    }
}

#[test]
fn require_version_reports_the_mismatch() {
    let d = DirContents { version_text: Some(chars("1\n")), state_text: None };
    assert!(require_version(&d, 1).is_ok());
    match require_version(&d, 7) {
        Err(DataError::VersionMismatch(7, 1)) => {},
        _ => panic!("a version mismatch must name both versions"),
    }
}

#[test]
fn migration_of_an_empty_directory_reaches_the_latest_version() {
    let mut dir = DirContents { version_text: None, state_text: None };
    migrate(&mut dir).expect("an empty directory migrates");
    assert_eq!(read_version(&dir).unwrap(), VERSION);
    assert_eq!(text(dir.version_text.as_ref().unwrap()), "1\n");
    let state = parse_state(dir.state_text.as_ref().unwrap()).expect("the new state must load");
    assert!(state.repos.is_empty());
    assert!(state.selected_repo.is_none());
}

#[test]
fn migration_of_a_current_directory_is_a_no_op() {
    let mut dir = DirContents {
        version_text: Some(chars("1\n")),
        state_text: Some(chars("{\"repos\":{},\"selectedRepo\":null}")),
    };
    let before_version = text(dir.version_text.as_ref().unwrap());
    let before_state = text(dir.state_text.as_ref().unwrap());
    migrate(&mut dir).expect("a current directory passes through");
    assert_eq!(text(dir.version_text.as_ref().unwrap()), before_version);
    assert_eq!(text(dir.state_text.as_ref().unwrap()), before_state);
}

#[test]
fn repeated_migration_is_stable() {
    let mut dir = DirContents { version_text: None, state_text: None };
    migrate(&mut dir).unwrap();
    let first = text(dir.state_text.as_ref().unwrap());
    migrate(&mut dir).unwrap();
    assert_eq!(text(dir.state_text.as_ref().unwrap()), first);
    assert_eq!(read_version(&dir).unwrap(), VERSION);
}

#[test]
fn the_first_upgrader_requires_version_zero() {
    let mut dir = DirContents { version_text: Some(chars("1\n")), state_text: None };
    assert!(v0::migrate(&mut dir).is_err());
    assert!(dir.state_text.is_none());
}

#[test]
fn unreadable_version_markers_stop_migration() {
    let mut dir = DirContents { version_text: Some(chars("soon")), state_text: None };
    assert!(migrate(&mut dir).is_err());
    assert!(dir.state_text.is_none());
}

#[test]
fn open_needs_the_current_version() {
    let current = DirContents { version_text: Some(chars("1\n")), state_text: None };
    let d = open(String::from("/tmp/notes"), &current).expect("current directory opens");
    assert_eq!(d.path(), "/tmp/notes");
    assert_eq!(d.version_file(), "/tmp/notes/VERSION");
    assert_eq!(d.lock_file(), "/tmp/notes/LOCK");

    let stale = DirContents { version_text: None, state_text: None };
    assert!(open(String::from("/tmp/notes"), &stale).is_err());
}

#[test]
fn data_dir_paths_derive_from_the_root() {
    let d = UnlockedDataDir::new(String::from("/data"));
    assert_eq!(d.version_file(), "/data/VERSION");
    assert_eq!(d.lock_file(), "/data/LOCK");
    assert_eq!(state_file(&d), "/data/state.json");
    assert_eq!(repos_dir(&d), "/data/repos");
    assert_eq!(repo_dir(&d, rid(1)), "/data/repos/r0000000000000001");
}

#[test]
fn state_edits_install_select_and_remove() {
    let mut state = State::default();
    state.add_repo_entry(rid(1), String::from("one"));
    state.add_repo_entry(rid(2), String::from("two"));
    state.select_repo(Some(rid(2)));
    assert_eq!(state.repos.len(), 2);
    assert_eq!(state.selected_repo.unwrap().value(), 2);
    state.remove_repo_entry(rid(1));
    assert_eq!(state.repos.len(), 1);
    assert_eq!(state.repos[0].0.value(), 2);
    state.add_repo_entry(rid(2), String::from("again"));
    state.remove_repo_entry(rid(2));
    assert!(state.repos.is_empty());
    state.normalize();
    assert!(state.selected_repo.is_none());
}

#[test]
fn renaming_takes_the_first_entry_with_the_id() {
    let mut state = State::default();
    state.add_repo_entry(rid(1), String::from("one"));
    state.add_repo_entry(rid(2), String::from("two"));
    assert!(state.set_repo_name(rid(2), String::from("zwei")));
    assert_eq!(state.repos[1].1, "zwei");
    assert_eq!(state.repos[0].1, "one");
    assert!(!state.set_repo_name(rid(9), String::from("none")));
    assert_eq!(state.repos.len(), 2);
}
