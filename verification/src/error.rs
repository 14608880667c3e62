use vstd::prelude::*;

verus! {

/// Error results of the submission and callback operations.
#[derive(Clone, Copy, Debug, PartialEq, Eq, Structural)]
pub enum ErrorCode {
    /// The callback's proof failed authentication; the job is now aborted.
    AbortedComputation,
    /// No compute cluster identity is configured.
    ClusterNotSet,
    /// The submitted score count lies outside 1..=8.
    InvalidScoreCount,
    /// The offset already names a pending job.
    DuplicateOffset,
    /// The callback names an unknown or already-terminal job.
    StaleCallback,
}

} // verus!
