use vstd::prelude::*;

verus! {

/// A dotted key assigned a scalar to a path prefix that another key then
/// needs as an object: the flat mapping has no consistent tree shape.
#[derive(Clone, Copy, Debug, PartialEq, Eq, Structural)]
pub struct StructureConflict;

/// The text of a document could not be parsed as JSON.
#[derive(Clone, Copy, Debug, PartialEq, Eq, Structural)]
pub struct ParseError;

/// A fetched remote blob could not be used for its language: it was
/// not JSON at all, or it held no language subtree under the expected
/// key. The language is marked failed and the run continues.
#[derive(Clone, Copy, Debug, PartialEq, Eq, Structural)]
pub enum RemoteFetchError {
    Parse,
    NoLanguageContent,
}

/// The run cannot start: the configured base language has no local
/// translation file.
#[derive(Clone, Copy, Debug, PartialEq, Eq, Structural)]
pub struct ConfigError;

/// Every language of the run failed; the run as a whole counts as
/// failed, carrying the tally.
#[derive(Clone, Copy, Debug, PartialEq, Eq, Structural)]
pub struct NoProgress {
    pub failed: u64,
    pub total: u64,
}

} // verus!
