use vstd::prelude::*;

verus! {

/// Every way in which parsing a version or resolving a history can fail.
#[derive(Debug, Clone, PartialEq, Eq)]
pub enum BBError {
    /// A version string does not follow the grammar, or names a date that does not exist.
    ParseError(String),
    /// The history document is not well-formed XML, or an entry carries a
    /// missing, unknown or unreadable attribute.
    MalformedDocument(String),
    /// No entry of the history document is marked current.
    NoCurrentMarker,
    /// The current entry was reached before any entry at or before the cutoff.
    NoMatchingVersion,
    /// A path cannot be split into a file name, or cannot be written as text.
    ConversionError(String),
}

} // verus!
