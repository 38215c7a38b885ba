//! State shared with a user-interface shell: the note store and the last
//! revision the shell was told about.

use vstd::prelude::*;

use crate::store::Store;

verus! {

/// What a shell holds while it runs: the store, and the revision of the
/// last change notification it sent.
pub struct AppState {
    pub store: Store,
    pub store_last_id: Option<u64>,
}

impl AppState {
    pub fn new() -> (r: AppState)
        ensures
            r.store.wf(),
            r.store@ == Map::<crate::ids::NoteId, crate::store::NoteRec>::empty(),
            r.store.revision() == 0,
            r.store_last_id is None,
    {
        AppState { store: Store::new(), store_last_id: None }
    }
}

/// The change notification sent to a shell: the revision it stands for.
pub struct EventNotesStoreUpdate {
    pub store_id: u64,
}

/// The notification to send after a mutation, if any: one is due exactly
/// when the current revision differs from the last one sent.
pub fn pending_update(state: &AppState) -> (r: Option<EventNotesStoreUpdate>)
    ensures
        match r {
            Some(e) => state.store_last_id != Some(state.store.revision()) && e.store_id
                == state.store.revision(),
            None => state.store_last_id == Some(state.store.revision()),
        },
{
    let current = state.store.revision_number();
    match &state.store_last_id {
        Some(last) => {
            if *last == current {
                return None;
            }
        },
        None => {},
    }
    Some(EventNotesStoreUpdate { store_id: current })
}

} // verus!
