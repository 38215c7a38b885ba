//! The data directory's fixed layout: where its version marker and its
//! lock sentinel live.

use vstd::prelude::*;
use vstd::string::StringExecFns;

verus! {

/// A data directory that is not locked: its location, and the names of
/// the files every data directory holds.
pub struct UnlockedDataDir {
    path: String,
}

impl UnlockedDataDir {
    /// The directory's path.
    pub closed spec fn spec_path(&self) -> Seq<char> {
        self.path@
    }

    pub fn new(path: String) -> (r: UnlockedDataDir)
        ensures
            r.spec_path() == path@,
    {
        UnlockedDataDir { path }
    }

    pub fn path(&self) -> (r: &String)
        ensures
            r@ == self.spec_path(),
    {
        &self.path
    }

    /// The file holding the directory's schema version.
    pub fn version_file(&self) -> (r: String)
        ensures
            r@ == self.spec_path() + "/VERSION"@,
    {
        self.path.clone().concat("/VERSION")
    }

    /// The exclusive lock sentinel, present while the directory is locked.
    pub fn lock_file(&self) -> (r: String)
        ensures
            r@ == self.spec_path() + "/LOCK"@,
    {
        self.path.clone().concat("/LOCK")
    }
}

} // verus!
