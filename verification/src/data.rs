//! The top-level data directory: its schema version marker, the state
//! file naming the installed note collections, and the migration chain
//! that brings an old or empty directory to the current layout.
//!
//! File reading, writing and locking are collaborators outside this
//! crate; this module works on the files' contents. Migration applies the
//! upgrader registered for the current version until none is registered,
//! and an upgrader writes its data before the version marker, so an
//! interrupted run can be repeated.

pub mod datadir;
pub mod v0;
pub mod v1;

use vstd::prelude::*;

use crate::text::{dec_of, trimmed_u32_ok, trimmed_u32_value, parse_trimmed_u32};

pub use crate::repo::VERSION as REPO_VERSION;
pub use self::datadir::UnlockedDataDir;
pub use self::v1::{State, VERSION};

verus! {

/// Why a data directory could not be used.
#[derive(Debug)]
pub enum DataError {
    /// The version marker does not hold a decimal number.
    InvalidVersionText,
    /// The directory's version is not the one the caller needs:
    /// the expected version, then the one found.
    VersionMismatch(u32, u32),
}

impl DataError {
    /// A short description of the failure.
    pub fn describe(&self) -> (r: &'static str) {
        match self {
            DataError::InvalidVersionText => "the version marker does not hold a version number",
            DataError::VersionMismatch(_, _) => "the data directory has an unexpected version",
        }
    }
}

/// What the data directory's own files hold: the version marker and the
/// state file, each absent or with its text.
pub struct DirContents {
    pub version_text: Option<Vec<char>>,
    pub state_text: Option<Vec<char>>,
}

/// The directory's schema version: a directory without a version marker
/// is at version 0; an unreadable marker has no version at all.
pub open spec fn spec_version(d: &DirContents) -> Option<int> {
    match d.version_text {
        None => Some(0int),
        Some(t) => if trimmed_u32_ok(t@) {
            Some(trimmed_u32_value(t@))
        } else {
            None
        },
    }
}

/// Read the directory's schema version; a missing marker means version 0.
pub fn read_version(d: &DirContents) -> (r: Result<u32, DataError>)
    ensures
        match r {
            Ok(v) => spec_version(d) == Some(v as int),
            Err(e) => spec_version(d) is None && (e matches DataError::InvalidVersionText),
        },
{
    match &d.version_text {
        None => Ok(0),
        Some(text) => match parse_trimmed_u32(text) {
            Some(v) => Ok(v),
            None => Err(DataError::InvalidVersionText),
        },
    }
}

/// Check that the directory is at the expected version; a mismatch names
/// both the expected and the found version.
pub fn require_version(d: &DirContents, expected: u32) -> (r: Result<(), DataError>)
    ensures
        match r {
            Ok(_) => spec_version(d) == Some(expected as int),
            Err(e) => (spec_version(d) is None && (e matches DataError::InvalidVersionText)) || (
            spec_version(d) matches Some(found) && found != expected && (e
                matches DataError::VersionMismatch(e2, f2) && e2 == expected && f2 == found)),
        },
{
    let found = match read_version(d) {
        Ok(v) => v,
        Err(e) => {
            return Err(e);
        },
    };
    if found != expected {
        return Err(DataError::VersionMismatch(expected, found));
    }
    Ok(())
}

/// The contents an upgraded empty directory holds: the default state and
/// the current version marker.
pub open spec fn migrated_contents(d: &DirContents) -> bool {
    &&& d.version_text matches Some(t) && t@ == dec_of(VERSION as nat) + seq!['\n']
    &&& d.state_text matches Some(t) && t@ == v1::state_json(v1::empty_state_data())
}

/// Bring the directory to the current version: apply the upgrader
/// registered for the current version until none is registered. A
/// directory already at the current version is left untouched.
pub fn migrate(dir: &mut DirContents) -> (r: Result<(), DataError>)
    ensures
        match r {
            Ok(_) => spec_version(&*old(dir)) matches Some(v) && (if v == 0 {
                migrated_contents(&*final(dir))
            } else {
                *final(dir) == *old(dir)
            }),
            Err(_) => spec_version(&*old(dir)) is None && *final(dir) == *old(dir),
        },
{
    let ghost mut fuel: int = 2;
    loop
        invariant
            0 <= fuel <= 2,
            fuel == 2 ==> *dir == *old(dir),
            fuel < 2 ==> (spec_version(&*old(dir)) == Some(0int) && migrated_contents(&*dir)),
        decreases fuel,
    {
        proof {
            if fuel < 2 {
                crate::text::lemma_number_line(VERSION);
            }
        }
        let version = match read_version(dir) {
            Ok(v) => v,
            Err(e) => {
                return Err(e);
            },
        };
        match version {
            0u32 => {
                proof {
                    crate::text::lemma_number_line(VERSION);
                    assert(fuel == 2);
                    fuel = fuel - 1;
                }
                match v0::migrate(dir) {
                    Ok(_) => {},
                    Err(e) => {
                        return Err(e);
                    },
                }
            },
            _ => {
                return Ok(());
            },
        }
    }
}

/// Use a directory that is already at the current version; a stale or
/// newer directory is refused with both versions named.
pub fn open(path: String, contents: &DirContents) -> (r: Result<UnlockedDataDir, DataError>)
    ensures
        match r {
            Ok(d) => spec_version(contents) == Some(VERSION as int) && d.spec_path() == path@,
            Err(e) => (spec_version(contents) is None && (e
                matches DataError::InvalidVersionText)) || (spec_version(contents) matches Some(
                found,
            ) && found != VERSION as int && (e matches DataError::VersionMismatch(e2, f2) && e2
                == VERSION && f2 == found)),
        },
{
    match require_version(contents, VERSION) {
        Ok(_) => Ok(UnlockedDataDir::new(path)),
        Err(e) => Err(e),
    }
}

/// Migrating an empty or missing directory reaches the current version
/// and leaves a state file that loads as the default state; a directory
/// already at the current version is left alone.
pub proof fn lemma_migration_reaches_latest(d: &DirContents)
    requires
        migrated_contents(d),
    ensures
        spec_version(d) == Some(VERSION as int),
        v1::parse_state_text(v1::state_json(v1::empty_state_data())) == Some(
            v1::empty_state_data(),
        ),
{
    crate::text::lemma_number_line(VERSION);
    v1::lemma_state_json_round_trip(v1::empty_state_data());
}

} // verus!
