//! Multiscale modeling framework for the analysis and synthesis of
//! positive-valued, long-range-dependent processes.
//!
//! The multifractal wavelet model describes a process by a Gaussian law of its
//! coarsest scaling coefficients and by one symmetric beta multiplier law per
//! dyadic scale. This crate holds the parts of fitting and sampling that are
//! exact: the validation and derivation of the analysis layout, the partition
//! of the wavelet coefficients by scale, and the in-place multiplicative
//! cascade that turns a root value into a sample path.

use vstd::prelude::*;

pub mod cascade;
pub mod layout;
pub mod recursion;

pub use cascade::cascade;
pub use layout::Layout;
pub use recursion::recurse;

verus! {

/// The ways in which fitting or sampling can fail.
#[derive(Clone, Copy, Debug, PartialEq, Eq, Structural)]
pub enum ErrorKind {
    /// A block count below two or a scale count of zero was requested.
    InvalidConfiguration,
    /// The series is too short for the requested blocks and scales.
    InsufficientData,
    /// The data do not fit the model: a non-positive shape parameter was
    /// derived, or a negative root value was drawn.
    ModelMismatch,
}

/// An error of fitting or sampling.
#[derive(Clone, Copy, Debug, PartialEq, Eq, Structural)]
pub struct Error(pub ErrorKind);

impl Error {
    /// A human-readable description of the error.
    pub fn description(&self) -> (r: &'static str)
        ensures
            r@ == error_message(*self),
    {
        match self.0 {
            ErrorKind::InvalidConfiguration => "the number of blocks should be at least two and the number of scales positive",
            ErrorKind::InsufficientData => "the data are too short for the number of blocks and scales",
            ErrorKind::ModelMismatch => "the model is not appropriate for the data",
        }
    }
}

/// The text that `Error::description` gives for each error.
pub open spec fn error_message(e: Error) -> Seq<char> {
    match e.0 {
        ErrorKind::InvalidConfiguration => "the number of blocks should be at least two and the number of scales positive"@,
        ErrorKind::InsufficientData => "the data are too short for the number of blocks and scales"@,
        ErrorKind::ModelMismatch => "the model is not appropriate for the data"@,
    }
}

} // verus!
