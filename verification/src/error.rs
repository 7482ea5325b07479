//! The ways in which packing and unpacking fail.

use vstd::prelude::*;

verus! {

/// Why a call gave no result. Every failure ends the call; nothing partial
/// is handed out.
#[derive(Clone, Copy, Debug, PartialEq, Eq, Structural)]
pub enum Error {
    /// Fewer bytes are present than a header, a descriptor or a payload needs.
    Truncated,
    /// A compressed payload is not a zlib stream that decompresses.
    CorruptPayload,
    /// A payload would end beyond what a signed 32-bit offset can address.
    TooLarge,
    /// The command line names no known mode or has the wrong number of words.
    InvalidUsage,
}

} // verus!
