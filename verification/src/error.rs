//! The two ways in which an operation on a document fails.

use vstd::prelude::*;
use vstd::string::*;
use crate::digits::{digits_of, push_number};

verus! {

/// Why an operation failed.
#[derive(Clone, Debug, PartialEq, Eq)]
pub enum TcxError {
    /// The text is not a document of the schema; `detail` says why.
    Parse { detail: String },
    /// The range from `start` to `end` does not fit a track of `total`
    /// trackpoints.
    Index { start: usize, end: usize, total: usize },
}

impl TcxError {
    /// The message of the error, for a reader.
    pub open spec fn message_text(self) -> Seq<char> {
        match self {
            TcxError::Parse { detail } => "Failed to parse TCX: "@ + detail@,
            TcxError::Index { start, end, total } => "Invalid indices: start="@ + digits_of(
                start as nat,
            ) + ", end="@ + digits_of(end as nat) + ", total="@ + digits_of(total as nat),
        }
    }

    /// Writes the message of the error: what failed, and for a range that does
    /// not fit, the range and the length of the track.
    pub fn message(&self) -> (r: String)
        ensures
            r@ == self.message_text(),
    {
        match self {
            TcxError::Parse { detail } => {
                let mut out = String::from_str("Failed to parse TCX: ");
                out.append(detail.as_str());
                out
            },
            TcxError::Index { start, end, total } => {
                let mut out = String::from_str("Invalid indices: start=");
                push_number(&mut out, *start as u128);
                out.append(", end=");
                push_number(&mut out, *end as u128);
                out.append(", total=");
                push_number(&mut out, *total as u128);
                out
            },
        }
    }
}

} // verus!
