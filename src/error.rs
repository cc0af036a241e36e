use vstd::prelude::*;

verus! {

/// The ways in which decoding an archive, walking its table of contents or
/// extracting a file can fail.
#[derive(Debug, Clone, Copy, PartialEq, Eq, Structural)]
pub enum Error {
    /// The stream holds fewer bytes than a header, a chunk body or a
    /// sub-table slot calls for.
    TruncatedStream,
    /// A compressed chunk ends in the middle of a coded unit, or a literal
    /// finds the output already full.
    TruncatedInput,
    /// A decoded chunk is not as long as its header says.
    SizeMismatch,
    /// A back-reference reaches before the start of the output.
    InvalidBackReference,
    /// An offset or a size lies outside the buffer it refers to.
    OutOfBounds,
    /// A table-of-contents field runs past the end of the region.
    MalformedTableEntry,
}

} // verus!
