//! The errors this library reports.

use vstd::prelude::*;

verus! {

/// A fault in the configuration, found before any record is processed.
#[derive(Debug, PartialEq)]
pub enum ConfigError {
    /// The engine refused a pattern; its own report is carried along.
    InvalidPattern(regex::Error),
    /// Substitutions were not given as pairs of pattern and replacement.
    UnpairedSubstitution,
    /// Two options that exclude each other were both set.
    ConflictingOptions,
}

/// A retained record that is not valid UTF-8 reached the point where the
/// report needs it as text.
#[derive(Debug, PartialEq, Eq)]
pub struct EncodingError {
    /// The offending bytes.
    pub bytes: Vec<u8>,
}

} // verus!
