//! The failures that the library reports.

use vstd::prelude::*;
use vstd::string::StringExecFns;
use crate::text::{decimal, push_decimal};

verus! {

/// A rejected input. Every failure of the library is one of these; none
/// is retried, and none leaves a value half changed.
#[derive(Debug, Clone, Copy, PartialEq, Eq, Structural)]
pub enum ValidationError {
    /// A crossing was placed on a strand that has no right neighbour.
    StrandOutOfRange { strand: usize, strands: usize },
    /// A braid needs at least two strands.
    TooFewStrands { strands: usize },
    /// The braid already holds `MAX_CROSSINGS` crossings.
    TooManyCrossings,
    /// A coefficient left the range of the machine integers that hold it.
    CoefficientOverflow,
    /// A matrix of the braid would be larger than an allocation can be.
    MatrixTooLarge,
    /// A sequence that must hold something holds nothing.
    EmptyInput,
    /// A flat sequence of points does not consist of triples.
    PointsNotTriples { values: usize },
    /// A flat sequence of points holds fewer than three points.
    TooFewPoints { values: usize },
}

impl ValidationError {
    /// The text of `message`.
    pub open spec fn message_text(self) -> Seq<char> {
        match self {
            ValidationError::StrandOutOfRange { strand, strands } => "Strand index "@ + decimal(
                strand as nat,
            ) + " out of range for "@ + decimal(strands as nat) + " strands"@,
            ValidationError::TooFewStrands { strands } => "Braid must have at least 2 strands, got "@
                + decimal(strands as nat),
            ValidationError::TooManyCrossings => "Braid cannot hold more crossings"@,
            ValidationError::CoefficientOverflow => "Coefficient out of range"@,
            ValidationError::MatrixTooLarge => "Too many strands for a matrix"@,
            ValidationError::EmptyInput => "Input cannot be empty"@,
            ValidationError::PointsNotTriples { values } => "Knot points must be multiple of 3 (x, y, z coordinates), got "@
                + decimal(values as nat),
            ValidationError::TooFewPoints { values } => "Need at least 3 points (9 values) for energy calculation, got "@
                + decimal(values as nat),
        }
    }

    /// A human-readable description of the failure.
    pub fn message(&self) -> (text: String)
        ensures
            text@ == self.message_text(),
    {
        match self {
            ValidationError::StrandOutOfRange { strand, strands } => {
                let mut text = String::from_str("Strand index ");
                push_decimal(&mut text, *strand);
                text.append(" out of range for ");
                push_decimal(&mut text, *strands);
                text.append(" strands");
                text
            },
            ValidationError::TooFewStrands { strands } => {
                let mut text = String::from_str("Braid must have at least 2 strands, got ");
                push_decimal(&mut text, *strands);
                text
            },
            ValidationError::TooManyCrossings => String::from_str(
                "Braid cannot hold more crossings",
            ),
            ValidationError::CoefficientOverflow => String::from_str("Coefficient out of range"),
            ValidationError::MatrixTooLarge => String::from_str("Too many strands for a matrix"),
            ValidationError::EmptyInput => String::from_str("Input cannot be empty"),
            ValidationError::PointsNotTriples { values } => {
                let mut text = String::from_str(
                    "Knot points must be multiple of 3 (x, y, z coordinates), got ",
                );
                push_decimal(&mut text, *values);
                text
            },
            ValidationError::TooFewPoints { values } => {
                let mut text = String::from_str(
                    "Need at least 3 points (9 values) for energy calculation, got ",
                );
                push_decimal(&mut text, *values);
                text
            },
        }
    }
}

} // verus!
