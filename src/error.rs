//! The ways a table build can fail.
use vstd::prelude::*;

verus! {

/// Why no tables were built. Each case names the offending input where there
/// is one.
#[derive(Debug, Clone, PartialEq, Eq)]
pub enum GenError {
    /// A likely-subtags key that does not read as a language identifier.
    InvalidKey(Vec<u8>),
    /// A likely-subtags value that does not read as a language identifier.
    InvalidValue(Vec<u8>),
    /// A likely-subtags key with language, script and region all present.
    UnsupportedKey(Vec<u8>),
    /// A likely-subtags key that falls on an entry already in its table.
    DuplicateKey(Vec<u8>),
    /// A locale name in the layout data that does not read as a language identifier.
    InvalidLocale(Vec<u8>),
    /// A character order other than `left-to-right` and `right-to-left`.
    UnknownDirection(String),
    /// Two documents that report different data versions.
    VersionMismatch,
    /// No layout document, so no data version.
    MissingVersion,
    /// A language, by its code, whose locales report both directions.
    DirectionConflict(u64),
}

} // verus!
