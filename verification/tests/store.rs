use gdn::ids::NoteId;
use gdn::shell::{pending_update, AppState};
use gdn::store::Store;

fn id(v: u64) -> NoteId {
    NoteId::from_value(v)
}

#[test]
fn create_and_get() {
    let mut store = Store::new();
    let a = store.create(String::from("hello")).unwrap();
    let note = store.get(a).expect("created note must exist");
    assert_eq!(note.id, a);
    assert_eq!(note.text, "hello");
    assert!(note.children.is_empty());
    assert!(note.parents.is_empty());
}

#[test]
fn get_of_missing_note() {
    let store = Store::new();
    assert!(store.get(id(7)).is_none());
}

#[test]
fn delete_returns_the_note() {
    let mut store = Store::new();
    let a = store.create(String::from("gone")).unwrap();
    let info = store.delete(a).expect("note existed");
    assert_eq!(info.text, "gone");
    assert!(store.get(a).is_none());
    assert!(store.delete(a).is_none());
}

#[test]
fn set_text_same_value_is_a_no_op() {
    let mut store = Store::new();
    let a = store.create(String::from("t")).unwrap();
    store.update();
    assert!(store.needs_update().is_none());
    assert!(store.set_text(a, String::from("t")).is_none());
    assert!(store.needs_update().is_none());
}

#[test]
fn set_text_new_value_bumps_the_revision() {
    let mut store = Store::new();
    let a = store.create(String::from("t")).unwrap();
    store.update();
    assert!(store.set_text(a, String::from("u")).is_some());
    assert!(store.needs_update().is_some());
    assert_eq!(store.get(a).unwrap().text, "u");
}

#[test]
fn set_children_same_value_is_a_no_op() {
    let mut store = Store::new();
    let a = store.create(String::from("a")).unwrap();
    let b = store.create(String::from("b")).unwrap();
    assert!(store.set_children(a, vec![b]).is_some());
    store.update();
    assert!(store.set_children(a, vec![b]).is_none());
    assert!(store.needs_update().is_none());
    assert!(store.set_children(a, vec![b, b]).is_some());
    assert!(store.needs_update().is_some());
}

#[test]
fn consistency_pass_prunes_unknown_children() {
    let mut store = Store::new();
    let a = store.create(String::from("a")).unwrap();
    let ghostly = id(0x1234);
    assert!(store.set_children(a, vec![ghostly]).is_some());
    let note = store.get(a).unwrap();
    assert!(note.children.is_empty());
}

#[test]
fn parents_follow_children() {
    let mut store = Store::new();
    let a = store.create(String::from("a")).unwrap();
    let b = store.create(String::from("b")).unwrap();
    store.set_children(a, vec![b, b]).unwrap();
    let nb = store.get(b).unwrap();
    assert_eq!(nb.parents, vec![a]);
    let na = store.get(a).unwrap();
    assert_eq!(na.children, vec![b, b]);
    assert!(na.parents.is_empty());
}

fn three_children() -> (Store, NoteId) {
    let mut store = Store::new();
    let n = store.create(String::from("n")).unwrap();
    let a = store.create(String::from("a")).unwrap();
    let b = store.create(String::from("b")).unwrap();
    let c = store.create(String::from("c")).unwrap();
    store.set_children(n, vec![a, b, c]).unwrap();
    (store, n)
}

fn position_lands_at(position: isize, expected_index: usize) {
    let (mut store, n) = three_children();
    let d = store.create(String::from("d")).unwrap();
    store.add_child_at_position(n, d, position).unwrap();
    let children = store.get(n).unwrap().children;
    assert_eq!(children.len(), 4);
    assert_eq!(children[expected_index], d);
}

#[test]
fn position_zero_is_the_front() {
    position_lands_at(0, 0);
}

#[test]
fn position_three_appends() {
    position_lands_at(3, 3);
}

#[test]
fn position_minus_one_appends() {
    position_lands_at(-1, 3);
}

#[test]
fn position_minus_four_is_the_front() {
    position_lands_at(-4, 0);
}

#[test]
fn position_clamps_at_the_end() {
    position_lands_at(100, 3);
}

#[test]
fn position_clamps_at_the_front() {
    position_lands_at(-100, 0);
}

fn duplicated_children() -> (Store, NoteId, NoteId, NoteId) {
    let mut store = Store::new();
    let n = store.create(String::from("n")).unwrap();
    let x = store.create(String::from("x")).unwrap();
    let y = store.create(String::from("y")).unwrap();
    store.set_children(n, vec![x, y, x, x]).unwrap();
    (store, n, x, y)
}

#[test]
fn iteration_zero_selects_the_first_occurrence() {
    let (mut store, n, x, y) = duplicated_children();
    store.remove_child_by_id(n, x, 0).unwrap();
    assert_eq!(store.get(n).unwrap().children, vec![y, x, x]);
}

#[test]
fn iteration_one_selects_the_second_occurrence() {
    let (mut store, n, x, y) = duplicated_children();
    store.remove_child_by_id(n, x, 1).unwrap();
    assert_eq!(store.get(n).unwrap().children, vec![x, y, x]);
}

#[test]
fn iteration_two_selects_the_third_occurrence() {
    let (mut store, n, x, y) = duplicated_children();
    store.remove_child_by_id(n, x, 2).unwrap();
    assert_eq!(store.get(n).unwrap().children, vec![x, y, x]);
}

#[test]
fn iteration_past_the_occurrences_fails() {
    let (mut store, n, x, _y) = duplicated_children();
    assert!(store.remove_child_by_id(n, x, 3).is_none());
    assert_eq!(store.get(n).unwrap().children.len(), 4);
}

#[test]
fn move_within_a_note_shifts_the_target_index() {
    let mut store = Store::new();
    let a = store.create(String::from("a")).unwrap();
    let p = store.create(String::from("p")).unwrap();
    let q = store.create(String::from("q")).unwrap();
    let r = store.create(String::from("r")).unwrap();
    store.set_children(a, vec![p, q, r]).unwrap();
    store.move_child_by_id_to_position(q, a, 0, a, 2).unwrap();
    assert_eq!(store.get(a).unwrap().children, vec![p, r, q]);
}

#[test]
fn move_between_notes() {
    let mut store = Store::new();
    let a = store.create(String::from("a")).unwrap();
    let b = store.create(String::from("b")).unwrap();
    let x = store.create(String::from("x")).unwrap();
    store.set_children(a, vec![x]).unwrap();
    store.move_child_by_id_to_position(x, a, 0, b, 0).unwrap();
    assert!(store.get(a).unwrap().children.is_empty());
    assert_eq!(store.get(b).unwrap().children, vec![x]);
}

#[test]
fn move_of_a_missing_occurrence_fails() {
    let mut store = Store::new();
    let a = store.create(String::from("a")).unwrap();
    let b = store.create(String::from("b")).unwrap();
    assert!(store.move_child_by_id_to_position(b, a, 0, a, 0).is_none());
}

#[test]
fn deleting_a_sole_child_prunes_the_reference() {
    let mut store = Store::new();
    let a = store.create(String::from("a")).unwrap();
    let b = store.create(String::from("b")).unwrap();
    store.set_children(a, vec![b]).unwrap();
    assert_eq!(store.get(a).unwrap().children, vec![b]);
    store.delete(b).unwrap();
    assert!(store.get(a).unwrap().children.is_empty());
}

#[test]
fn clear_removes_every_note() {
    let mut store = Store::new();
    let a = store.create(String::from("a")).unwrap();
    store.update();
    store.clear();
    assert!(store.get(a).is_none());
    assert!(store.needs_update().is_some());
}

#[test]
fn observers_see_each_new_revision_once() {
    let mut store = Store::new();
    assert!(store.needs_update().is_none());
    let _a = store.create(String::from("a")).unwrap();
    let first = store.needs_update().expect("a mutation must be visible");
    store.update();
    assert!(store.needs_update().is_none());
    let _b = store.create(String::from("b")).unwrap();
    let second = store.needs_update().expect("a mutation must be visible");
    assert!(second > first);
}

#[test]
fn shell_notifications_collapse_until_sent() {
    let mut state = AppState::new();
    let _a = state.store.create(String::from("a")).unwrap();
    let event = pending_update(&state).expect("a change is pending");
    state.store_last_id = Some(event.store_id);
    assert!(pending_update(&state).is_none());
    let _b = state.store.create(String::from("b")).unwrap();
    assert!(pending_update(&state).is_some());
}

#[test]
fn adding_an_unknown_child_still_mutates() {
    let mut store = Store::new();
    let a = store.create(String::from("a")).unwrap();
    store.update();
    let ghostly = id(0x99);
    assert!(store.add_child_at_position(a, ghostly, 0).is_some());
    assert!(store.needs_update().is_some());
    assert!(store.get(a).unwrap().children.is_empty());
}

#[test]
fn moving_to_a_negative_position_counts_from_the_end() {
    let mut store = Store::new();
    let a = store.create(String::from("a")).unwrap();
    let b = store.create(String::from("b")).unwrap();
    let x = store.create(String::from("x")).unwrap();
    let y = store.create(String::from("y")).unwrap();
    store.set_children(a, vec![x]).unwrap();
    store.set_children(b, vec![y]).unwrap();
    store.move_child_by_id_to_position(x, a, 0, b, -1).unwrap();
    assert_eq!(store.get(b).unwrap().children, vec![y, x]);
}
