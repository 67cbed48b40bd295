//! Error kinds as the embedding layer sees them.

use vstd::prelude::*;
use crate::soup::ReactionError;

verus! {

/// One kind per reaction outcome that is not a success.
#[derive(Debug, Clone, Copy, PartialEq, Eq, Structural)]
pub enum ReactionErrorKind {
    ExceedsReductionLimit,
    NotEnoughExpressions,
    IsIdentity,
    IsParent,
    HasFreeVariables,
    ExceedsDepthLimit,
}

/// The kind that stands for each reaction error.
pub open spec fn kind_of(e: ReactionError) -> ReactionErrorKind {
    match e {
        ReactionError::ExceedsReductionLimit => ReactionErrorKind::ExceedsReductionLimit,
        ReactionError::NotEnoughExpressions => ReactionErrorKind::NotEnoughExpressions,
        ReactionError::IsIdentity => ReactionErrorKind::IsIdentity,
        ReactionError::IsParent => ReactionErrorKind::IsParent,
        ReactionError::HasFreeVariables => ReactionErrorKind::HasFreeVariables,
        ReactionError::ExceedsDepthLimit => ReactionErrorKind::ExceedsDepthLimit,
    }
}

/// A reaction error as handed to the embedding layer.
#[derive(Debug, Clone, Copy, PartialEq, Eq, Structural)]
pub struct PyReactionError {
    pub kind: ReactionErrorKind,
}

impl PyReactionError {
    pub fn from_error(error: ReactionError) -> (r: PyReactionError)
        ensures
            r.kind == kind_of(error),
    {
        let kind = match error {
            ReactionError::ExceedsReductionLimit => ReactionErrorKind::ExceedsReductionLimit,
            ReactionError::NotEnoughExpressions => ReactionErrorKind::NotEnoughExpressions,
            ReactionError::IsIdentity => ReactionErrorKind::IsIdentity,
            ReactionError::IsParent => ReactionErrorKind::IsParent,
            ReactionError::HasFreeVariables => ReactionErrorKind::HasFreeVariables,
            ReactionError::ExceedsDepthLimit => ReactionErrorKind::ExceedsDepthLimit,
        };
        PyReactionError { kind }
    }
}

/// Distinct reaction errors have distinct kinds.
pub proof fn lemma_kinds_distinct(a: ReactionError, b: ReactionError)
    ensures
        kind_of(a) == kind_of(b) ==> a == b,
{
}

} // verus!
