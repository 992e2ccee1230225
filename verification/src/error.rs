//! Errors of the replica.

use crate::text;
use crate::types::OpId;
use vstd::prelude::*;

verus! {

/// What can go wrong in a replica.
#[derive(Debug)]
pub enum VectisError {
    /// The stroke is not in the document.
    StrokeNotFound(OpId),
    /// Encoding failed.
    EncodingError(String),
    /// The bytes are truncated or malformed.
    DecodingError(String),
    /// Actor 0 is reserved.
    InvalidActorId,
    /// The snapshot has a format version that is not supported.
    SnapshotVersionMismatch { expected: u8, got: u8 },
    /// The causal buffer is full.
    CausalBufferOverflow { capacity: usize },
    /// A payload exceeds a limit.
    LimitExceeded {
        /// The limit.
        what: &'static str,
        /// Its value.
        limit: usize,
        /// The value that exceeded it.
        actual: usize,
    },
}

/// The contents of a [`VectisError`].
#[verifier::ext_equal]
pub enum VectisErrorView {
    StrokeNotFound(OpId),
    EncodingError(Seq<char>),
    DecodingError(Seq<char>),
    InvalidActorId,
    SnapshotVersionMismatch { expected: u8, got: u8 },
    CausalBufferOverflow { capacity: usize },
    LimitExceeded { what: Seq<char>, limit: usize, actual: usize },
}

impl View for VectisError {
    type V = VectisErrorView;

    open spec fn view(&self) -> VectisErrorView {
        match self {
            VectisError::StrokeNotFound(id) => VectisErrorView::StrokeNotFound(*id),
            VectisError::EncodingError(s) => VectisErrorView::EncodingError(s@),
            VectisError::DecodingError(s) => VectisErrorView::DecodingError(s@),
            VectisError::InvalidActorId => VectisErrorView::InvalidActorId,
            VectisError::SnapshotVersionMismatch { expected, got } => VectisErrorView::SnapshotVersionMismatch {
                expected: *expected,
                got: *got,
            },
            VectisError::CausalBufferOverflow { capacity } => VectisErrorView::CausalBufferOverflow {
                capacity: *capacity,
            },
            VectisError::LimitExceeded { what, limit, actual } => VectisErrorView::LimitExceeded {
                what: what@,
                limit: *limit,
                actual: *actual,
            },
        }
    }
}

/// The result of an operation that can fail.
pub type VectisResult<T> = Result<T, VectisError>;

impl VectisErrorView {
    /// The message for a user.
    pub open spec fn message(self) -> Seq<char> {
        match self {
            VectisErrorView::StrokeNotFound(id) => "stroke not found: (lamport="@ + text::decimal(
                id.lamport.0 as nat,
            ) + ", actor="@ + text::decimal(id.actor.0 as nat) + ")"@,
            VectisErrorView::EncodingError(s) => "encoding error: "@ + s,
            VectisErrorView::DecodingError(s) => "decoding error: "@ + s,
            VectisErrorView::InvalidActorId => "actor ID 0 is reserved"@,
            VectisErrorView::SnapshotVersionMismatch { expected, got } => "snapshot version mismatch: expected "@
                + text::decimal(expected as nat) + ", got "@ + text::decimal(got as nat),
            VectisErrorView::CausalBufferOverflow { capacity } => "causal buffer overflow at capacity "@
                + text::decimal(capacity as nat),
            VectisErrorView::LimitExceeded { what, limit, actual } => "limit exceeded: "@ + what + " (limit="@
                + text::decimal(limit as nat) + ", actual="@ + text::decimal(actual as nat) + ")"@,
        }
    }
}

impl VectisError {
    /// The message for a user.
    pub fn to_string(&self) -> (message: String)
        ensures
            message@ == self@.message(),
    {
        let mut out = String::new();
        match self {
            VectisError::StrokeNotFound(id) => {
                out.append("stroke not found: (lamport=");
                text::push_decimal(&mut out, id.lamport.0);
                out.append(", actor=");
                text::push_decimal(&mut out, id.actor.0);
                out.append(")");
            },
            VectisError::EncodingError(s) => {
                out.append("encoding error: ");
                out.append(s.as_str());
            },
            VectisError::DecodingError(s) => {
                out.append("decoding error: ");
                out.append(s.as_str());
            },
            VectisError::InvalidActorId => {
                out.append("actor ID 0 is reserved");
            },
            VectisError::SnapshotVersionMismatch { expected, got } => {
                out.append("snapshot version mismatch: expected ");
                text::push_decimal(&mut out, *expected as u64);
                out.append(", got ");
                text::push_decimal(&mut out, *got as u64);
            },
            VectisError::CausalBufferOverflow { capacity } => {
                out.append("causal buffer overflow at capacity ");
                text::push_decimal(&mut out, *capacity as u64);
            },
            VectisError::LimitExceeded { what, limit, actual } => {
                out.append("limit exceeded: ");
                out.append(what);
                out.append(" (limit=");
                text::push_decimal(&mut out, *limit as u64);
                out.append(", actual=");
                text::push_decimal(&mut out, *actual as u64);
                out.append(")");
            },
        }
        proof {
            assert(out@ =~= self@.message());
        }
        out
    }
}

impl Clone for VectisError {
    fn clone(&self) -> (copy: Self)
        ensures
            copy@ == self@,
    {
        match self {
            VectisError::StrokeNotFound(id) => VectisError::StrokeNotFound(*id),
            VectisError::EncodingError(s) => VectisError::EncodingError(s.clone()),
            VectisError::DecodingError(s) => VectisError::DecodingError(s.clone()),
            VectisError::InvalidActorId => VectisError::InvalidActorId,
            VectisError::SnapshotVersionMismatch { expected, got } => VectisError::SnapshotVersionMismatch {
                expected: *expected,
                got: *got,
            },
            VectisError::CausalBufferOverflow { capacity } => VectisError::CausalBufferOverflow { capacity: *capacity },
            VectisError::LimitExceeded { what, limit, actual } => VectisError::LimitExceeded {
                what,
                limit: *limit,
                actual: *actual,
            },
        }
    }
}

/// What an error says: which stroke, which limit or which version it is about,
/// with the numbers that it carries.
pub proof fn law_errors_say_what_went_wrong(
    id: OpId,
    s: Seq<char>,
    expected: u8,
    got: u8,
    limit: usize,
    actual: usize,
)
    ensures
        VectisErrorView::StrokeNotFound(id).message() == "stroke not found: (lamport="@ + text::decimal(
            id.lamport.0 as nat,
        ) + ", actor="@ + text::decimal(id.actor.0 as nat) + ")"@,
        VectisErrorView::EncodingError(s).message() == "encoding error: "@ + s,
        VectisErrorView::DecodingError(s).message() == "decoding error: "@ + s,
        VectisErrorView::InvalidActorId.message() == "actor ID 0 is reserved"@,
        (VectisErrorView::SnapshotVersionMismatch { expected, got }).message()
            == "snapshot version mismatch: expected "@ + text::decimal(expected as nat) + ", got "@ + text::decimal(
            got as nat,
        ),
        (VectisErrorView::CausalBufferOverflow { capacity: limit }).message() == "causal buffer overflow at capacity "@
            + text::decimal(limit as nat),
        (VectisErrorView::LimitExceeded { what: s, limit, actual }).message() == "limit exceeded: "@ + s + " (limit="@
            + text::decimal(limit as nat) + ", actual="@ + text::decimal(actual as nat) + ")"@,
{
}

} // verus!
