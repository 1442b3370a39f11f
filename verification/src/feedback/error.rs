use vstd::prelude::*;

verus! {

/// A failed operation on the engine database.
#[derive(Debug, Clone, PartialEq, Eq)]
pub enum DbStubError {
    Op(String),
}

/// Failure of a feedback-loop operation.
#[derive(Debug)]
pub enum FeedbackError {
    Db(DbStubError),
    Json(String),
    Io(String),
    /// No proposal has the id.
    ProposalNotFound { id: i64 },
    /// The proposal is not in the expected status (it was decided before).
    InvalidProposalStatus { id: i64, expected: &'static str, actual: String },
    /// A rejection reason that is empty after trimming.
    EmptyRejectReason,
    /// An observation message that is empty after trimming.
    EmptyObservationMessage,
    /// Turning one observation into a proposal failed; its claim was released.
    AnalyzeFailed { observation_id: i64, detail: String },
    /// The engine database is corrupted.
    DbCorrupted { detail: String },
}

} // verus!
