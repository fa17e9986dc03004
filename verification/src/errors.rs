use vstd::prelude::*;

verus! {

/// Errors of the chunking, storage, ranking and summarization layer.
///
/// Every failing operation aborts the enclosing operation (one file's
/// chunking, one scan, one question) and surfaces one of these to the
/// caller; nothing is retried automatically.
#[derive(Debug, Clone)]
pub enum TldirError {
    /// The chunk sizing contract was violated (the window must be larger
    /// than the overlap, and at least the minimum chunk size).
    InvalidConfig,
    /// The source bytes are not valid text; no chunks are produced.
    InvalidEncoding,
    /// An advance of the chunk window would not move forward.
    NoProgress,
    /// A collection with the same name already exists.
    DuplicateName,
    /// An embedding with the same (segment, embedding) pair already exists.
    DuplicateSegment,
    /// The embedding row was committed, but the metadata rows under these
    /// keys were not; the embedding row is not rolled back.
    PartialMetadataFailure { failed_keys: Vec<String> },
    /// The store cannot serve the operation: it cannot be opened or
    /// reached, it is at capacity, or a fresh identifier could not be
    /// produced.
    StoreUnavailable,
    /// An embedding or generation capability call failed.
    CapabilityFailure,
}

impl TldirError {
    /// A short description for user-visible reporting.
    pub fn message(&self) -> &'static str {
        match self {
            TldirError::InvalidConfig => "invalid chunk configuration",
            TldirError::InvalidEncoding => "file is not valid text",
            TldirError::NoProgress => "chunk window cannot advance",
            TldirError::DuplicateName => "a collection with this name already exists",
            TldirError::DuplicateSegment => "this segment and embedding pair is already stored",
            TldirError::PartialMetadataFailure { .. } => {
                "embedding stored, but some metadata keys failed"
            },
            TldirError::StoreUnavailable => "the embedding store is unavailable",
            TldirError::CapabilityFailure => "an embedding or generation call failed",
        }
    }
}

} // verus!
