//! The ways an expansion can fail.

use vstd::prelude::*;

verus! {

/// The abstract form of an expansion failure, used by the contracts.
pub enum ErrSpec {
    /// Placeholder syntax matched, but no valid variable name was captured.
    EmptyCapture,
    /// The named variable is unset and no fallback was supplied; carries the
    /// name of the innermost missing variable.
    ReadError(Seq<u8>),
    /// The named variable is set but its value is not decodable as text.
    OsVar,
}

/// Why an expansion failed.
#[derive(Debug, PartialEq, Eq)]
pub enum ExpandError {
    /// Placeholder syntax matched, but no variable name could be extracted:
    /// a bare `$`, malformed braces, or a name outside the identifier
    /// grammar `[A-Za-z_][A-Za-z0-9_]*`.
    EmptyEnvvarCapture,
    /// The named variable is absent from the environment and no usable
    /// fallback was supplied. Carries the name of the innermost missing
    /// variable.
    EnvvarReadError(Vec<u8>),
    /// The named variable exists but its value cannot be decoded as text.
    OsVarError,
}

impl View for ExpandError {
    type V = ErrSpec;

    open spec fn view(&self) -> ErrSpec {
        match self {
            ExpandError::EmptyEnvvarCapture => ErrSpec::EmptyCapture,
            ExpandError::EnvvarReadError(name) => ErrSpec::ReadError(name@),
            ExpandError::OsVarError => ErrSpec::OsVar,
        }
    }
}

} // verus!
