//! The ways an analysis can fail.

use vstd::prelude::*;
use vstd::string::StringExecFns;

verus! {

/// Why an analysis could not be carried out. Every failure is final for the
/// run: the computation is pure, so trying again gives the same failure.
#[derive(Clone, Copy, Debug, PartialEq, Eq, Structural)]
pub enum AnalysisError {
    /// The image has no pixels, or its buffer does not match its dimensions.
    InputError,
    /// The cluster count or the iteration cap is out of range.
    InvalidParameter,
    /// A centroid is not a colour: it is the mean of no sample, which is not
    /// a finite value, or a channel of it exceeds 255.
    NumericFailure,
}

impl AnalysisError {
    /// The kind of the failure and its cause, in words.
    pub open spec fn message_text(self) -> Seq<char> {
        match self {
            AnalysisError::InputError => "input error: the image has no pixels, or its data does not match its size"@,
            AnalysisError::InvalidParameter => "invalid parameter: the number of colours must be at least 1 and at most the number of pixels, and the iteration cap at least 1"@,
            AnalysisError::NumericFailure => "numeric failure: a centroid is not a colour"@,
        }
    }

    /// The kind of the failure and its cause, for the user to read.
    pub fn message(&self) -> (text: String)
        ensures
            text@ == self.message_text(),
    {
        match self {
            AnalysisError::InputError => String::from_str(
                "input error: the image has no pixels, or its data does not match its size",
            ),
            AnalysisError::InvalidParameter => String::from_str(
                "invalid parameter: the number of colours must be at least 1 and at most the number of pixels, and the iteration cap at least 1",
            ),
            AnalysisError::NumericFailure => String::from_str(
                "numeric failure: a centroid is not a colour",
            ),
        }
    }
}

} // verus!
