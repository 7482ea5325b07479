//! The fixed geometry of a container.

use vstd::prelude::*;

verus! {

/// Length of the header, which a container carries through unchanged.
pub const HEADER_LEN: usize = 0x1000;

/// Offset of the section table: it follows the header.
pub const TABLE_START: usize = 0x1000;

/// Length of the section table in bytes.
pub const TABLE_LEN: usize = 0x2000;

/// Offset of the first section payload: the data region follows the table.
pub const DATA_START: usize = 0x3000;

/// Number of descriptor slots in the section table.
pub const MAX_SECTIONS: usize = 1024;

/// Length of one encoded descriptor.
pub const DESCRIPTOR_LEN: usize = 8;

/// Largest number of input bytes that one section holds.
pub const CHUNK_LEN: usize = 0x40000;

/// Largest number of bytes after the header that a container holds: 1024
/// chunks.
pub const MAX_BODY_LEN: usize = 0x1000_0000;

/// The mask of the padding rule that follows a compressed payload.
pub const PAD_MASK: u32 = 0x79;

/// Largest end offset of a payload for which the padding rule stays within a
/// signed 32-bit offset.
pub const MAX_PAYLOAD_END: usize = 0x7fff_ff86;

/// A sequence of `n` zero bytes.
pub open spec fn zeros(n: int) -> Seq<u8> {
    Seq::new(n as nat, |i: int| 0u8)
}

} // verus!
