//! Severity levels for what a decoder reports.
//!
//! The decoder prints nothing. It returns what it found as values, each with
//! a level, and the caller decides what to show by comparing the level with
//! the verbosity it was configured with.

use vstd::prelude::*;

verus! {

/// How serious a report is, from least to most.
#[derive(Clone, Copy, Debug, PartialEq, Eq, Structural, PartialOrd, Ord, Hash)]
pub enum LogLevel {
    /// Verbose detail.
    Debug,
    /// Informative.
    Info,
    /// Worth a look, but no error.
    Warning,
    /// Something is wrong and needs to be checked.
    Error,
    /// Decoding cannot continue.
    Critical,
}

impl LogLevel {
    /// Position of the level in the order `Debug < Info < Warning < Error <
    /// Critical`.
    pub open spec fn spec_rank(self) -> u8 {
        match self {
            LogLevel::Debug => 0,
            LogLevel::Info => 1,
            LogLevel::Warning => 2,
            LogLevel::Error => 3,
            LogLevel::Critical => 4,
        }
    }

    /// Position of the level in the order `Debug < Info < Warning < Error <
    /// Critical`.
    #[verifier::when_used_as_spec(spec_rank)]
    pub fn rank(self) -> (rank: u8)
        ensures
            rank == self.spec_rank(),
    {
        match self {
            LogLevel::Debug => 0,
            LogLevel::Info => 1,
            LogLevel::Warning => 2,
            LogLevel::Error => 3,
            LogLevel::Critical => 4,
        }
    }

    /// Whether a report of level `level` is shown when `self` is the
    /// configured verbosity: it is, unless it is less serious than `self`.
    pub fn admits(self, level: LogLevel) -> (shown: bool)
        ensures
            shown == (self.spec_rank() <= level.spec_rank()),
    {
        self.rank() <= level.rank()
    }
}

/// The rank orders the levels: two levels of the same rank are the same
/// level, and the ranks run from 0 for `Debug` to 4 for `Critical`.
pub proof fn lemma_rank_orders_levels(a: LogLevel, b: LogLevel)
    ensures
        a.spec_rank() == b.spec_rank() <==> a == b,
        LogLevel::Debug.spec_rank() <= a.spec_rank() <= LogLevel::Critical.spec_rank(),
{
}

} // verus!
