//! Indexed, block-structured compressed storage for tab-delimited
//! accession/identifier tables.
//!
//! A compression pass splits the input into line-aligned chunks, compresses
//! each chunk as an independently decodable frame, and records an index of
//! frame positions, lengths and write order.  A decompression pass loads the
//! index, reads and decodes single frames in isolation, parses the records
//! they contain, and folds the per-frame record lists into one key/value
//! table.

use vstd::prelude::*;

pub mod chunk;
pub mod codec;
pub mod index_format;
pub mod records;
pub mod table;

verus! {

/// Selects how the per-frame record lists of one decompression pass are
/// folded into the final table.
#[derive(Clone, Copy, Debug, PartialEq, Eq, Structural)]
pub enum Mode {
    DashMap,
    Vector,
    Merge,
}

/// The errors of the compression and decompression core.  Fatal setup
/// errors abort a pass; frame-scoped errors drop one frame and let the
/// pass continue.
#[derive(Clone, Copy, Debug, PartialEq, Eq, Structural)]
pub enum CodecError {
    /// A frame's recorded length does not fit in a sized integer; carries
    /// the frame's byte position in the compressed stream.
    LengthOverflow { position: u64 },
    /// The index document is not a well-formed array of frame descriptors.
    MalformedIndex,
    /// A frame's bytes could not be decompressed.
    FrameDecode,
    /// A record's value field is not an unsigned decimal integer.
    NotNumeric,
    /// A chunk could not be compressed and appended to the output stream.
    EncodeFailed,
}

/// Locates one compressed frame: its absolute byte `position` in the
/// compressed stream, its exact compressed byte `length`, and the zero-based
/// `order` in which it was written.
#[derive(Clone, Copy, Debug, PartialEq, Eq, Structural)]
pub struct FrameMeta {
    pub position: u64,
    pub length: u64,
    pub order: u64,
}

impl FrameMeta {
    pub fn new(position: u64, length: u64, order: u64) -> (r: FrameMeta)
        ensures
            r == (FrameMeta { position, length, order }),
    {
        FrameMeta { position, length, order }
    }

    /// Narrows the frame's `length` to a sized integer, reporting the frame's
    /// position when the conversion is impossible.
    pub fn parse_length(&self) -> (r: Result<usize, CodecError>)
        ensures
            self.length <= usize::MAX ==> r == Ok::<usize, CodecError>(self.length as usize),
            self.length > usize::MAX ==> r == Err::<usize, CodecError>(
                CodecError::LengthOverflow { position: self.position },
            ),
    {
        if self.length <= usize::MAX as u64 {
            Ok(self.length as usize)
        } else {
            Err(CodecError::LengthOverflow { position: self.position })
        }
    }
}

} // verus!
