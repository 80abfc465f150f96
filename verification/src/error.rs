//! The ways in which the codecs refuse an input.
use vstd::prelude::*;

verus! {

/// Why a template or a wire text is malformed.
#[derive(Clone, Copy, Debug, PartialEq, Eq, Structural)]
pub enum FormatError {
    /// A `{` opened a placeholder and the template ended before its `}`.
    UnclosedBrace,
    /// Something other than a decimal digit stood inside a placeholder.
    NonDigitIndex,
    /// A single `}` was not followed by a second one.
    DanglingEscape,
    /// A tag was opened and no `]` followed.
    UnclosedTag,
    /// A tag field after the name held no `=`.
    MissingValue,
}

/// The errors of this library.
#[derive(Clone, Copy, Debug, PartialEq, Eq, Structural)]
pub enum Error {
    /// Malformed template or tag syntax.
    Format(FormatError),
    /// A placeholder named a segment that was not supplied.
    Index,
    /// A `file` parameter does not lie under the directory of its extension.
    Path,
    /// A handler could not produce a reply.
    Handler,
    /// A record from the host is not base64, or ends before what it should
    /// hold.
    Record,
}

} // verus!
