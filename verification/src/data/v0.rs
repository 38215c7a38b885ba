//! Version 0 of the data directory: just the empty directory.

use vstd::prelude::*;

use super::{migrated_contents, require_version, spec_version, DataError, DirContents};

verus! {

/// The schema version this module stands for.
pub const VERSION: u32 = 0;

/// Upgrade an empty directory: persist the default state first, then the
/// new version marker, so an interrupted run can be repeated.
pub fn migrate(dir: &mut DirContents) -> (r: Result<(), DataError>)
    ensures
        match r {
            Ok(_) => spec_version(&*old(dir)) == Some(0int) && migrated_contents(&*final(dir)),
            Err(_) => spec_version(&*old(dir)) != Some(0int) && *final(dir) == *old(dir),
        },
{
    match require_version(dir, VERSION) {
        Ok(_) => {},
        Err(e) => {
            return Err(e);
        },
    }
    let state = super::v1::State::default();
    let text = super::v1::render_state(&state);
    dir.state_text = Some(text);
    let mut version_line = crate::text::render_dec_u32(super::v1::VERSION);
    version_line.push('\n');
    proof {
        assert(version_line@ =~= crate::text::dec_of(super::v1::VERSION as nat) + seq!['\n']);
    }
    dir.version_text = Some(version_line);
    Ok(())
}

} // verus!
