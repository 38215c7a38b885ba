//! Version 0 of the note repository format: a repository with no history
//! at all, holding no notes.

use vstd::prelude::*;

verus! {

/// The schema version this module stands for.
pub const VERSION: u32 = 0;

/// A version-0 repository: always empty.
pub struct Repo;

impl Repo {
    /// Load the empty repository.
    pub fn load() -> (r: Repo) {
        Repo
    }

    /// Upgrade to the current in-memory shape: no notes.
    pub fn migrate(self) -> (r: super::v1::Repo)
        ensures
            r.notes@.len() == 0,
    {
        super::v1::Repo { notes: Vec::new() }.migrate()
    }
}

} // verus!
