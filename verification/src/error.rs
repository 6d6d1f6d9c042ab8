//! What can end a synchronisation cycle early.

use vstd::prelude::*;
use vstd::string::*;

verus! {

/// The kinds of failure of a synchronisation cycle.
#[derive(Clone, Copy, Debug, PartialEq, Eq, Structural)]
pub enum SyncError {
    /// The version comparison could not be run, or what it printed is no
    /// integer.
    Comparator,
    /// The release listing or a download failed.
    Network,
    /// Reading or writing the repository directory failed.
    Filesystem,
    /// The index builder could not be run.
    IndexBuild,
    /// The driver reported something that the cycle was not waiting for.
    OutOfTurn,
}

impl SyncError {
    /// What the failure is, in words.
    pub open spec fn text(self) -> Seq<char> {
        match self {
            SyncError::Comparator => "the version comparison failed"@,
            SyncError::Network => "the release listing or a download failed"@,
            SyncError::Filesystem => "the repository directory could not be read or written"@,
            SyncError::IndexBuild => "the index builder could not be run"@,
            SyncError::OutOfTurn => "an event came out of turn"@,
        }
    }

    /// What the failure is, in words.
    pub fn describe(&self) -> (text: String)
        ensures
            text@ == self.text(),
    {
        match self {
            SyncError::Comparator => String::from_str("the version comparison failed"),
            SyncError::Network => String::from_str("the release listing or a download failed"),
            SyncError::Filesystem => String::from_str(
                "the repository directory could not be read or written",
            ),
            SyncError::IndexBuild => String::from_str("the index builder could not be run"),
            SyncError::OutOfTurn => String::from_str("an event came out of turn"),
        }
    }
}

} // verus!
