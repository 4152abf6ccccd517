//! Expansion of shell-style placeholders (`$VAR`, `${VAR}`, `${VAR:-fallback}`)
//! and of a leading `~` path component, against a caller-supplied table of
//! environment variables and a caller-supplied home directory.

pub mod env;
pub mod errors;
pub mod expand;
pub mod laws;
pub mod scan;

pub use env::{Env, Lookup};
pub use errors::{ErrSpec, ExpandError};
pub use expand::{expand, expand_path, expand_string};
pub use scan::{Segment, __parse_string_components};

use vstd::prelude::*;

verus! {

/// `$`, the byte that opens a placeholder.
pub const DOLLAR: u8 = 36;

/// `\`, the escape byte.
pub const BACKSLASH: u8 = 92;

/// `{`, opening brace of a `${...}` placeholder.
pub const LBRACE: u8 = 123;

/// `}`, closing brace of a `${...}` placeholder.
pub const RBRACE: u8 = 125;

/// `~`, the home-directory shorthand in path expansion.
pub const TILDE: u8 = 126;

/// `/`, the path separator.
pub const SLASH: u8 = 47;

/// `:`, first byte of the `:-` fallback operator.
pub const COLON: u8 = 58;

/// `-`, second byte of the `:-` fallback operator.
pub const DASH: u8 = 45;

/// True of the bytes that may start a variable name: ASCII letters and `_`.
pub open spec fn is_ident_start(b: u8) -> bool {
    (65 <= b && b <= 90) || (97 <= b && b <= 122) || b == 95
}

/// True of the bytes that may continue a variable name: ASCII letters,
/// digits and `_`.
pub open spec fn is_ident_char(b: u8) -> bool {
    is_ident_start(b) || (48 <= b && b <= 57)
}

/// A valid variable name: non-empty, starts with a letter or `_`, and
/// continues with letters, digits or `_`.
pub open spec fn is_valid_name(s: Seq<u8>) -> bool {
    &&& s.len() > 0
    &&& is_ident_start(s[0])
    &&& forall|i: int| 1 <= i < s.len() ==> is_ident_char(s[i])
}

fn ident_start(b: u8) -> (r: bool)
    ensures
        r == is_ident_start(b),
{
    (65 <= b && b <= 90) || (97 <= b && b <= 122) || b == 95
}

fn ident_char(b: u8) -> (r: bool)
    ensures
        r == is_ident_char(b),
{
    ident_start(b) || (48 <= b && b <= 57)
}

} // verus!
