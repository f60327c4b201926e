//! What can go wrong between a source and the map.

use vstd::prelude::*;
use vstd::string::StringExecFns;

verus! {

/// Why a source gave nothing.
#[derive(Debug)]
pub enum SourceError {
    /// The answer has no value for the place.
    NoData,
    /// No radar image is announced.
    NoTargetTime,
    /// The grid asked for is empty or too large.
    GridTooLarge,
    /// The source named needs a key.
    MissingApiKey(&'static str),
    /// The answer is not of the expected form.
    Shape(String),
}

impl SourceError {
    /// The text of the message.
    pub open spec fn text(self) -> Seq<char> {
        match self {
            SourceError::NoData => "API returned no usable data for this location"@,
            SourceError::NoTargetTime => "nowcast target time unavailable"@,
            SourceError::GridTooLarge => "grid capacity exceeded for requested area"@,
            SourceError::MissingApiKey(name) => "missing API key for "@ + name@,
            SourceError::Shape(what) => "unexpected response shape: "@ + what@,
        }
    }

    /// The message for the user.
    pub fn message(&self) -> (m: String)
        ensures
            m@ == self.text(),
    {
        match self {
            SourceError::NoData => "API returned no usable data for this location".to_owned(),
            SourceError::NoTargetTime => "nowcast target time unavailable".to_owned(),
            SourceError::GridTooLarge => "grid capacity exceeded for requested area".to_owned(),
            SourceError::MissingApiKey(name) => "missing API key for ".to_owned().concat(name),
            SourceError::Shape(what) => "unexpected response shape: ".to_owned().concat(
                what.as_str(),
            ),
        }
    }
}

} // verus!
