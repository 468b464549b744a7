//! The error taxonomy: dataset errors abort an index build as a whole, and
//! an unknown metric identifier is rejected before any color computation.
//! An empty query result is a value, not an error.

use vstd::prelude::*;

verus! {

/// Why an operation was refused.
#[derive(Clone, Copy, Debug, PartialEq, Eq, Structural)]
pub enum Error {
    /// A language entry carries a color string that is not `#RRGGBB` hex;
    /// the whole dataset load fails, no partial index is produced.
    DatasetParse,
    /// A distance metric identifier outside the supported set.
    MetricConfiguration,
}

impl Error {
    /// A short description of the error.
    pub fn describe(&self) -> (r: &'static str)
        ensures
            *self == Error::DatasetParse <==> r@ == "malformed color in dataset"@,
            *self == Error::MetricConfiguration <==> r@ == "unknown distance metric"@,
    {
        proof {
            reveal_strlit("malformed color in dataset");
            reveal_strlit("unknown distance metric");
            assert("malformed color in dataset"@.len() != "unknown distance metric"@.len());
        }
        match self {
            Error::DatasetParse => "malformed color in dataset",
            Error::MetricConfiguration => "unknown distance metric",
        }
    }
}

} // verus!
