//! What is asked of a walk, checked before the walk.

use vstd::prelude::*;
use crate::dir_walker::WalkData;

verus! {

/// Why a walk is not started.
#[derive(Clone, Copy, Debug, PartialEq, Eq, Structural)]
pub enum ConfigError {
    /// No root was given.
    NoRoots,
    /// Both the number of files and a time are asked for as the size.
    ConflictingMetrics,
}

/// What is wrong with the request, if anything: no root first, then metrics
/// that exclude each other.
pub open spec fn fault_of(roots: Seq<String>, walk_data: WalkData) -> Option<ConfigError> {
    if roots.len() == 0 {
        Some(ConfigError::NoRoots)
    } else if walk_data.by_filecount && walk_data.by_filetime is Some {
        Some(ConfigError::ConflictingMetrics)
    } else {
        None
    }
}

/// Checks what is asked of a walk.
pub fn check_walk(roots: &Vec<String>, walk_data: &WalkData) -> (r: Result<(), ConfigError>)
    ensures
        match r {
            Ok(_) => fault_of(roots@, *walk_data) is None,
            Err(fault) => fault_of(roots@, *walk_data) == Some(fault),
        },
{
    if roots.len() == 0 {
        Err(ConfigError::NoRoots)
    } else if walk_data.by_filecount && walk_data.by_filetime.is_some() {
        Err(ConfigError::ConflictingMetrics)
    } else {
        Ok(())
    }
}

} // verus!
