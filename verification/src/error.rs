//! Error kinds of the identification core.
//!
//! Two severities exist: fatal errors abort a run, non-critical errors are
//! collected per record while the run continues and the offending record
//! stays orphan, to be retried on a future run.

use vstd::prelude::*;

verus! {

/// Fatal errors: these abort the whole run.
///
/// Payloads are carried as plain bytes (a field name, a path, or a message),
/// so that contracts can speak of them as byte sequences.
pub enum Error {
    /// A required field was missing on a database record.
    MissingField(Vec<u8>),
    /// The stored resumable state could not be decoded on job resume.
    DeserializeTasks(DecodeError),
    /// The persistent store reported a query failure.
    Database(Vec<u8>),
    /// A path could not be turned into its hierarchical descriptor.
    FilePathError(Vec<u8>),
    /// The requested sub-path scope was invalid (not a directory, or outside
    /// the location's bounds).
    SubPath(Vec<u8>),
}

/// Why a resumable-state blob was rejected by the decoder.
#[derive(PartialEq, Eq, Structural, Clone, Copy, Debug)]
pub enum DecodeError {
    /// The blob was produced by a format version this library does not know.
    UnknownVersion,
    /// The blob ended before the encoded value was complete, or carried an
    /// impossible tag, or had bytes left over after the encoded value.
    Corrupt,
}

/// Per-record failures: collected, never raised; the record stays orphan.
///
/// Each variant carries the offending path as plain bytes.
pub enum NonCriticalFileIdentifierError {
    /// Filesystem metadata could not be read for the path.
    FailedToExtractFileMetadata(Vec<u8>),
    /// Metadata extraction failed for an on-demand (virtualized) file; only
    /// platforms lacking direct metadata access for such files emit this.
    FailedToExtractMetadataFromOnDemandFile(Vec<u8>),
    /// The path could not be turned into its hierarchical descriptor.
    FailedToExtractIsolatedFilePathData(Vec<u8>),
}

/// Mathematical value of a `NonCriticalFileIdentifierError`.
pub enum ErrView {
    FailedToExtractFileMetadata(Seq<u8>),
    FailedToExtractMetadataFromOnDemandFile(Seq<u8>),
    FailedToExtractIsolatedFilePathData(Seq<u8>),
}

impl View for NonCriticalFileIdentifierError {
    type V = ErrView;

    open spec fn view(&self) -> ErrView {
        match self {
            NonCriticalFileIdentifierError::FailedToExtractFileMetadata(p) =>
                ErrView::FailedToExtractFileMetadata(p@),
            NonCriticalFileIdentifierError::FailedToExtractMetadataFromOnDemandFile(p) =>
                ErrView::FailedToExtractMetadataFromOnDemandFile(p@),
            NonCriticalFileIdentifierError::FailedToExtractIsolatedFilePathData(p) =>
                ErrView::FailedToExtractIsolatedFilePathData(p@),
        }
    }
}

impl NonCriticalFileIdentifierError {
    /// Copies this error.
    pub fn duplicate(&self) -> (r: NonCriticalFileIdentifierError)
        ensures
            r@ == self@,
    {
        match self {
            NonCriticalFileIdentifierError::FailedToExtractFileMetadata(p) =>
                NonCriticalFileIdentifierError::FailedToExtractFileMetadata(
                crate::records::bytes_clone(p),
            ),
            NonCriticalFileIdentifierError::FailedToExtractMetadataFromOnDemandFile(p) =>
                NonCriticalFileIdentifierError::FailedToExtractMetadataFromOnDemandFile(
                crate::records::bytes_clone(p),
            ),
            NonCriticalFileIdentifierError::FailedToExtractIsolatedFilePathData(p) =>
                NonCriticalFileIdentifierError::FailedToExtractIsolatedFilePathData(
                crate::records::bytes_clone(p),
            ),
        }
    }

    /// The path (or message) bytes carried by this error.
    pub fn payload(&self) -> (r: &Vec<u8>)
        ensures
            r@ == self.payload_spec(),
    {
        match self {
            NonCriticalFileIdentifierError::FailedToExtractFileMetadata(p) => p,
            NonCriticalFileIdentifierError::FailedToExtractMetadataFromOnDemandFile(p) => p,
            NonCriticalFileIdentifierError::FailedToExtractIsolatedFilePathData(p) => p,
        }
    }

    /// The payload bytes, as a sequence.
    pub open spec fn payload_spec(&self) -> Seq<u8> {
        match self {
            NonCriticalFileIdentifierError::FailedToExtractFileMetadata(p) => p@,
            NonCriticalFileIdentifierError::FailedToExtractMetadataFromOnDemandFile(p) => p@,
            NonCriticalFileIdentifierError::FailedToExtractIsolatedFilePathData(p) => p@,
        }
    }
}

} // verus!
