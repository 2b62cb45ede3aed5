//! Why a request about a schematic is refused, and what became of a request.

use crate::text::{concat3, concat5, join, joined, owned, texts};
use vstd::prelude::*;
use vstd::string::*;

verus! {

/// What sort of refusal an error is.
#[derive(PartialEq, Eq, Debug)]
pub enum ToolErrorKind {
    AmbiguousTarget { target: String, candidates: Vec<String> },
    StaleTarget { target: String, reason: String },
    InvalidArgument { field: String, reason: String },
}

/// The content of a [`ToolErrorKind`].
pub enum KindView {
    AmbiguousTarget { target: Seq<char>, candidates: Seq<Seq<char>> },
    StaleTarget { target: Seq<char>, reason: Seq<char> },
    InvalidArgument { field: Seq<char>, reason: Seq<char> },
}

impl View for ToolErrorKind {
    type V = KindView;

    open spec fn view(&self) -> KindView {
        match self {
            ToolErrorKind::AmbiguousTarget { target, candidates } => KindView::AmbiguousTarget {
                target: target@,
                candidates: texts(candidates@),
            },
            ToolErrorKind::StaleTarget { target, reason } => KindView::StaleTarget {
                target: target@,
                reason: reason@,
            },
            ToolErrorKind::InvalidArgument { field, reason } => KindView::InvalidArgument {
                field: field@,
                reason: reason@,
            },
        }
    }
}

/// An error as it is reported: its kind, where it has one, and its message.
#[derive(PartialEq, Eq, Debug)]
pub struct ToolError {
    pub kind: Option<ToolErrorKind>,
    pub message: String,
}

/// The content of a [`ToolError`].
pub struct ErrorView {
    pub kind: Option<KindView>,
    pub message: Seq<char>,
}

impl View for ToolError {
    type V = ErrorView;

    open spec fn view(&self) -> ErrorView {
        ErrorView {
            kind: match self.kind {
                Some(kind) => Some(kind@),
                None => None,
            },
            message: self.message@,
        }
    }
}

/// Why the target of a change cannot be resolved safely.
#[derive(PartialEq, Eq, Debug)]
pub enum ComponentDeleteTargetError {
    Ambiguous { target: String, candidates: Vec<String> },
    Stale { target: String, reason: String },
}

/// The content of a [`ComponentDeleteTargetError`].
pub enum TargetFault {
    Ambiguous { target: Seq<char>, candidates: Seq<Seq<char>> },
    Stale { target: Seq<char>, reason: Seq<char> },
}

impl View for ComponentDeleteTargetError {
    type V = TargetFault;

    open spec fn view(&self) -> TargetFault {
        match self {
            ComponentDeleteTargetError::Ambiguous { target, candidates } =>
                TargetFault::Ambiguous { target: target@, candidates: texts(candidates@) },
            ComponentDeleteTargetError::Stale { target, reason } => TargetFault::Stale {
                target: target@,
                reason: reason@,
            },
        }
    }
}

impl TargetFault {
    /// The error that is reported for the fault.
    pub open spec fn reported(self) -> ErrorView {
        match self {
            TargetFault::Ambiguous { target, candidates } => ErrorView {
                kind: Some(KindView::AmbiguousTarget { target, candidates }),
                message: "cannot safely resolve "@ + target + ": "@
                    + "more than one schematic item identifies the target: "@ + joined(
                    candidates,
                    ", "@,
                ),
            },
            TargetFault::Stale { target, reason } => ErrorView {
                kind: Some(KindView::StaleTarget { target, reason }),
                message: "cannot safely resolve "@ + target + ": "@ + reason,
            },
        }
    }
}

impl ComponentDeleteTargetError {
    /// The file is not in the state that the request was made for.
    pub fn stale(path: &str, reason: String) -> (res: ComponentDeleteTargetError)
        ensures
            res@ == (TargetFault::Stale { target: path@, reason: reason@ }),
    {
        ComponentDeleteTargetError::Stale { target: owned(path), reason }
    }

    /// The error as it is reported.
    pub fn into_result(self) -> (res: ToolError)
        ensures
            res@ == self@.reported(),
    {
        match self {
            ComponentDeleteTargetError::Ambiguous { target, candidates } => {
                let message = concat5(
                    "cannot safely resolve ",
                    target.as_str(),
                    ": ",
                    "more than one schematic item identifies the target: ",
                    join(&candidates, ", ").as_str(),
                );
                ToolError {
                    kind: Some(ToolErrorKind::AmbiguousTarget { target, candidates }),
                    message,
                }
            },
            ComponentDeleteTargetError::Stale { target, reason } => {
                let mut message = concat3("cannot safely resolve ", target.as_str(), ": ");
                message.append(reason.as_str());
                ToolError { kind: Some(ToolErrorKind::StaleTarget { target, reason }), message }
            },
        }
    }
}

/// What became of a request.
#[derive(Clone, Copy, PartialEq, Eq, Debug, Structural)]
pub enum OutcomeStatus {
    Complete,
    Failed,
    Uncertain,
}

/// What the caller should do next.
#[derive(Clone, Copy, PartialEq, Eq, Debug, Structural)]
pub enum Recovery {
    RetryWholeRequest,
    InspectBeforeRetry,
}

/// The summary that is attached to the answer of a request.
#[derive(PartialEq, Eq, Debug)]
pub struct OutcomeSummary {
    pub status: OutcomeStatus,
    pub target: String,
    pub verification: String,
    pub requested: usize,
    pub succeeded: usize,
    pub failed: usize,
    pub recovery: Option<Recovery>,
}

/// An error with the summary of the request that it ended.
#[derive(PartialEq, Eq, Debug)]
pub struct FailedRequest {
    pub error: ToolError,
    pub outcome: OutcomeSummary,
}

/// The summary of a placement of one component.
pub open spec fn placement_outcome(
    outcome: OutcomeSummary,
    status: OutcomeStatus,
    target: Seq<char>,
    verification: Seq<char>,
) -> bool {
    &&& outcome.status == status
    &&& outcome.target@ == target
    &&& outcome.verification@ == verification
    &&& outcome.requested == 1
    &&& outcome.succeeded == (if status == OutcomeStatus::Complete {
        1
    } else {
        0int
    })
    &&& outcome.failed == (if status == OutcomeStatus::Complete {
        0
    } else {
        1int
    })
    &&& outcome.recovery == (match status {
        OutcomeStatus::Complete => None,
        OutcomeStatus::Failed => Some(Recovery::RetryWholeRequest),
        OutcomeStatus::Uncertain => Some(Recovery::InspectBeforeRetry),
    })
}

/// Refuses a placement before anything was written: the whole request may be
/// made again.
pub fn failed_component_placement(error: ToolError, schematic: &str) -> (res: FailedRequest)
    ensures
        res.error == error,
        placement_outcome(res.outcome, OutcomeStatus::Failed, schematic@, "preflight"@),
{
    FailedRequest {
        error,
        outcome: OutcomeSummary {
            status: OutcomeStatus::Failed,
            target: owned(schematic),
            verification: owned("preflight"),
            requested: 1,
            succeeded: 0,
            failed: 1,
            recovery: Some(Recovery::RetryWholeRequest),
        },
    }
}

/// Reports a placement whose outcome is not known, because something failed
/// after the file may have been written.
pub fn uncertain_component_placement(error: ToolError, schematic: &str) -> (res: FailedRequest)
    ensures
        res.error == error,
        placement_outcome(
            res.outcome,
            OutcomeStatus::Uncertain,
            schematic@,
            "saved_file_readback"@,
        ),
{
    FailedRequest {
        error,
        outcome: OutcomeSummary {
            status: OutcomeStatus::Uncertain,
            target: owned(schematic),
            verification: owned("saved_file_readback"),
            requested: 1,
            succeeded: 0,
            failed: 1,
            recovery: Some(Recovery::InspectBeforeRetry),
        },
    }
}

/// The summary of a placement that was read back from the saved file.
pub fn completed_component_placement(schematic: &str) -> (res: OutcomeSummary)
    ensures
        placement_outcome(res, OutcomeStatus::Complete, schematic@, "saved_file_readback"@),
{
    OutcomeSummary {
        status: OutcomeStatus::Complete,
        target: owned(schematic),
        verification: owned("saved_file_readback"),
        requested: 1,
        succeeded: 1,
        failed: 0,
        recovery: None,
    }
}

/// An argument refused for a reason.
pub open spec fn argument_refused(field: Seq<char>, reason: Seq<char>) -> ErrorView {
    ErrorView {
        kind: Some(KindView::InvalidArgument { field, reason }),
        message: "Argument '"@ + field + "' is invalid: "@ + reason,
    }
}

/// Refuses an argument.
pub fn invalid_argument(field: &str, reason: String) -> (res: ToolError)
    ensures
        res@ == argument_refused(field@, reason@),
{
    let mut message = concat3("Argument '", field, "' is invalid: ");
    message.append(reason.as_str());
    ToolError { kind: Some(ToolErrorKind::InvalidArgument { field: owned(field), reason }), message }
}

/// How committing a planned deletion can fail.
#[derive(PartialEq, Eq, Debug)]
pub enum CommitError {
    Conflict,
    ItemConflict { reason: String },
    KiCadEditorLocked,
    Other,
}

/// The refusal that a failed commit of a deletion is answered with. An error
/// of another sort is none.
pub fn component_delete_commit_refusal(path: &str, error: &CommitError) -> (res: Option<ToolError>)
    ensures
        match error {
            CommitError::Conflict => res matches Some(refusal) && refusal@ == (TargetFault::Stale {
                target: path@,
                reason: "the schematic changed after deletion was planned"@,
            }).reported(),
            CommitError::ItemConflict { reason } => res matches Some(refusal) && refusal@ == (
            TargetFault::Stale { target: path@, reason: reason@ }).reported(),
            CommitError::KiCadEditorLocked => res matches Some(refusal) && refusal@ == (
            TargetFault::Stale {
                target: path@,
                reason:
                    "KiCad owns the schematic; use a live editor mutation or close the document"@,
            }).reported(),
            CommitError::Other => res is None,
        },
{
    let reason = match error {
        CommitError::Conflict => owned("the schematic changed after deletion was planned"),
        CommitError::ItemConflict { reason } => reason.clone(),
        CommitError::KiCadEditorLocked => owned(
            "KiCad owns the schematic; use a live editor mutation or close the document",
        ),
        CommitError::Other => {
            return None;
        },
    };
    Some(ComponentDeleteTargetError::stale(path, reason).into_result())
}

} // verus!
