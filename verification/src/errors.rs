//! The error kinds that decoding can report.

use vstd::prelude::*;

verus! {

/// Everything that can go wrong while decoding a payload, a path segment or a
/// compressed stream. Encoding never fails once the configuration is valid.
#[derive(Clone, Copy, Debug, PartialEq, Eq, Structural)]
pub enum BundleError {
    /// The compressed stream ended before a control byte, a continuation
    /// byte, a literal run, a distance or a match continuation was complete,
    /// or it demands more output than this machine can address.
    Format,
    /// A decoded back-reference distance points before the start of the
    /// output produced so far.
    Backreference,
    /// A path-segment token holds a character outside the base-58 alphabet.
    DecodeAlphabet,
    /// Decoded path-segment bytes are not valid UTF-8.
    TextDecode,
    /// Encryption is requested but no key is configured.
    KeyMissing,
}

impl BundleError {
    /// A short human-readable description, in place of `Display`.
    pub fn message(&self) -> &'static str {
        match self {
            BundleError::Format => "compressed stream is truncated or too large",
            BundleError::Backreference => "back-reference lies outside the decompressed buffer",
            BundleError::DecodeAlphabet => "token holds a character outside the base-58 alphabet",
            BundleError::TextDecode => "decoded bytes are not valid UTF-8",
            BundleError::KeyMissing => "encryption is enabled but no key is configured",
        }
    }
}

} // verus!
