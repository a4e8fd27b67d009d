//! The errors of loading and building archives.
use vstd::prelude::*;

verus! {

/// Why an archive could not be loaded.
#[derive(Debug, Clone)]
pub enum ArchiveError {
    /// The directory, named here, lacks one of the three files of an archive.
    Incomplete(String),
    /// A numeric metadata field is not a non-negative integer, or a text field is not UTF-8.
    MetadataParse,
    /// The metadata declares no version that fixes the index layout.
    UnsupportedVersion,
    /// The index ends inside a record.
    IndexParse,
    /// The content is neither valid gzip data nor valid UTF-8.
    ContentDecode,
}

/// Why a build did not complete.
#[derive(Debug, Clone)]
pub enum BuildError {
    /// The source, named here, could not be read.
    Unreadable(String),
    /// The destination, named here, could not be written.
    Unwritable(String),
    /// The content does not fit the four-byte offsets of the index.
    TooLarge,
}

} // verus!
