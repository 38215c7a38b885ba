//! The durable repository format: notes mapped to and from a
//! date-bucketed, content-addressed object tree, and the format's version
//! chain. The underlying object store (blob and tree creation, tree
//! walking, commits) is a collaborator outside this crate; this module
//! decides how trees are organized and what their files hold.

pub mod v0;
pub mod v1;

use vstd::prelude::*;

use crate::text::{parse_trimmed_u32, trimmed_u32_ok, trimmed_u32_value};

pub use self::v1::{Note, Repo, VERSION};

verus! {

/// Why a repository could not be read.
#[derive(Debug)]
pub enum RepoError {
    /// A note file that is not valid note JSON.
    InvalidNote,
    /// A version file that does not hold a decimal number.
    InvalidVersionText,
    /// A schema version this code has no decoder for.
    InvalidVersion(u32),
}

impl RepoError {
    /// A short description of the failure.
    pub fn describe(&self) -> (r: &'static str) {
        match self {
            RepoError::InvalidNote => "a note file is not valid note JSON",
            RepoError::InvalidVersionText => "the version file does not hold a version number",
            RepoError::InvalidVersion(_) => "unsupported repository version",
        }
    }
}

/// Read a schema version from version file text.
pub fn parse_version_text(s: &Vec<char>) -> (r: Result<u32, RepoError>)
    ensures
        match r {
            Ok(v) => trimmed_u32_ok(s@) && v == trimmed_u32_value(s@),
            Err(e) => !trimmed_u32_ok(s@) && (e matches RepoError::InvalidVersionText),
        },
{
    match parse_trimmed_u32(s) {
        Some(v) => Ok(v),
        None => Err(RepoError::InvalidVersionText),
    }
}

/// The schema version of a repository: the version file of the latest
/// history entry, or version 0 for a repository with no history at all.
pub fn load_version(head_version_text: Option<&Vec<char>>) -> (r: Result<u32, RepoError>)
    ensures
        match r {
            Ok(v) => match head_version_text {
                None => v == v0::VERSION,
                Some(t) => trimmed_u32_ok(t@) && v == trimmed_u32_value(t@),
            },
            Err(e) => head_version_text matches Some(t) && !trimmed_u32_ok(t@),
        },
{
    match head_version_text {
        None => Ok(v0::VERSION),
        Some(text) => parse_version_text(text),
    }
}

/// Load a repository: read the schema version of the latest history
/// entry, decode the tree with the decoder of that version, and migrate
/// the result to the latest in-memory shape. A repository with no history
/// is version 0 and empty.
pub fn load(head: Option<(&Vec<char>, &Vec<v1::WalkedBlob>)>) -> (r: Result<Repo, RepoError>)
    ensures
        match r {
            Ok(repo) => match head {
                None => repo.notes@.len() == 0,
                Some(h) => {
                    &&& trimmed_u32_ok(h.0@)
                    &&& trimmed_u32_value(h.0@) == VERSION as int
                    &&& v1::decode_blobs(v1::blob_views(h.1@)) == Some(
                        v1::notes_data(repo.notes@),
                    )
                },
            },
            Err(e) => head matches Some(h) && (!trimmed_u32_ok(h.0@) || (trimmed_u32_ok(h.0@)
                && trimmed_u32_value(h.0@) != VERSION as int && (e
                matches RepoError::InvalidVersion(v) && v == trimmed_u32_value(h.0@))) || (
            trimmed_u32_value(h.0@) == VERSION as int && v1::decode_blobs(v1::blob_views(h.1@))
                is None)),
        },
{
    match head {
        None => Ok(v0::Repo::load().migrate()),
        Some((version_text, blobs)) => {
            let version = match parse_version_text(version_text) {
                Ok(v) => v,
                Err(e) => {
                    return Err(e);
                },
            };
            if version == VERSION {
                match v1::Repo::load_from_tree(blobs) {
                    Ok(repo) => Ok(repo.migrate()),
                    Err(e) => Err(e),
                }
            } else {
                Err(RepoError::InvalidVersion(version))
            }
        },
    }
}

} // verus!
