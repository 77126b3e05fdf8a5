//! Error types.

use vstd::prelude::*;

verus! {

/// Declares `std::io::Error` so that a read failure can be carried in
/// [`ConfigError::Read`]. Nothing inside it is read by verified code.
#[verifier::external_type_specification]
#[verifier::external_body]
pub struct ExIoError(std::io::Error);

/// A computation that could not produce a correct answer.
#[derive(Debug, Clone, Copy, PartialEq, Eq)]
pub enum ComputeError {
    /// The result left the range of the `u64` accumulator.
    ///
    /// Returned rather than panicking or wrapping, so a caller can lower the
    /// input or widen the type instead of getting a wrong number.
    Overflow { operation: &'static str, at: u64 },
}

/// A config file that could not be loaded.
#[derive(Debug)]
pub enum ConfigError {
    /// The file could not be read.
    Read { path: String, source: std::io::Error },
    /// The file is not valid config JSON.
    Parse { line: usize, column: usize, message: String },
}

} // verus!
