//! The section descriptor: where a payload lies and how it is stored.

use vstd::prelude::*;
use crate::endian::{decode_i32, encode_i32, i32_bytes, i32_of_bytes, lemma_i32_bytes_read_back, ByteOrder};
use crate::layout::{DATA_START, DESCRIPTOR_LEN};

verus! {

/// One entry of the section table.
///
/// The sign of `size` says how the payload is stored: below zero the payload
/// is raw and `-size` bytes long, above zero it is a zlib stream of `size`
/// bytes, and zero marks the end of the table. `offset` is the position of
/// the payload, counted from the start of the container.
#[derive(Clone, Copy, Debug, PartialEq, Eq, Structural)]
pub struct SectionDescriptor {
    pub size: i32,
    pub offset: i32,
}

impl SectionDescriptor {
    /// Whether the table ends at this entry: it has no payload, or its
    /// offset lies before the data region.
    pub open spec fn ends_table(self) -> bool {
        self.size == 0 || self.offset < DATA_START
    }

    /// Whether the payload is stored raw.
    pub open spec fn is_raw(self) -> bool {
        self.size < 0
    }

    /// The number of bytes that the payload takes in the container.
    pub open spec fn stored_len(self) -> nat {
        if self.size < 0 {
            (-self.size) as nat
        } else {
            self.size as nat
        }
    }

    /// The eight bytes of this entry: `size`, and after it `offset`.
    pub open spec fn bytes(self, order: ByteOrder) -> Seq<u8> {
        i32_bytes(self.size, order) + i32_bytes(self.offset, order)
    }

    /// The entry that the first eight bytes of `bytes` hold.
    pub open spec fn of_bytes(bytes: Seq<u8>, order: ByteOrder) -> SectionDescriptor {
        SectionDescriptor {
            size: i32_of_bytes(bytes.subrange(0, 4), order),
            offset: i32_of_bytes(bytes.subrange(4, 8), order),
        }
    }

    /// An entry read back from its own bytes is the same entry.
    pub proof fn lemma_bytes_read_back(self, order: ByteOrder)
        ensures
            self.bytes(order).len() == DESCRIPTOR_LEN,
            SectionDescriptor::of_bytes(self.bytes(order), order) == self,
    {
        lemma_i32_bytes_read_back(self.size, order);
        lemma_i32_bytes_read_back(self.offset, order);
        let b = self.bytes(order);
        assert(b.subrange(0, 4) =~= i32_bytes(self.size, order));
        assert(b.subrange(4, 8) =~= i32_bytes(self.offset, order));
    }

    /// Tells whether the table ends at this entry.
    pub fn terminates(&self) -> (ends: bool)
        ensures
            ends == self.ends_table(),
    {
        self.size == 0 || self.offset < DATA_START as i32
    }

    /// The stored length of the payload. It can reach 2^31, one more than an
    /// `i32` holds.
    pub fn payload_len(&self) -> (len: u32)
        ensures
            len == self.stored_len(),
    {
        if self.size < 0 {
            (-(self.size as i64)) as u32
        } else {
            self.size as u32
        }
    }

    /// Writes the entry as eight bytes.
    pub fn encode(&self, order: ByteOrder) -> (bytes: [u8; 8])
        ensures
            bytes@ == self.bytes(order),
    {
        let s: [u8; 4] = encode_i32(self.size, order);
        let o: [u8; 4] = encode_i32(self.offset, order);
        let bytes: [u8; 8] = [s[0], s[1], s[2], s[3], o[0], o[1], o[2], o[3]];
        assert(bytes@ =~= self.bytes(order));
        bytes
    }

    /// Reads an entry from eight bytes.
    pub fn decode(bytes: [u8; 8], order: ByteOrder) -> (entry: SectionDescriptor)
        ensures
            entry == SectionDescriptor::of_bytes(bytes@, order),
    {
        let s: [u8; 4] = [bytes[0], bytes[1], bytes[2], bytes[3]];
        let o: [u8; 4] = [bytes[4], bytes[5], bytes[6], bytes[7]];
        assert(s@ =~= bytes@.subrange(0, 4));
        assert(o@ =~= bytes@.subrange(4, 8));
        SectionDescriptor { size: decode_i32(s, order), offset: decode_i32(o, order) }
    }
}

} // verus!
