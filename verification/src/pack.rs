//! Packing: from a byte stream to the container that holds it.

use vstd::prelude::*;
use crate::buffer::{append_bytes, append_zeros};
use crate::descriptor::SectionDescriptor;
use crate::endian::ByteOrder;
use crate::error::Error;
use crate::layout::{
    zeros, CHUNK_LEN, DATA_START, HEADER_LEN, MAX_PAYLOAD_END, MAX_SECTIONS, PAD_MASK, TABLE_LEN,
};
use crate::table::{table_bytes, write_table};
use crate::zlib::{zlib_deflate, zlib_deflated, Effort};

verus! {

/// The number of sections that a body of `body_len` bytes is cut into: one
/// for every chunk begun, and no more than the table has slots. What lies
/// beyond the last slot's chunk is left out of the container.
pub open spec fn chunk_count(body_len: nat) -> nat {
    let begun = (body_len + CHUNK_LEN - 1) / (CHUNK_LEN as int);
    if begun > MAX_SECTIONS {
        MAX_SECTIONS as nat
    } else {
        begun as nat
    }
}

/// Chunk `index` of `body`: the bytes from `index * CHUNK_LEN` on, up to
/// `CHUNK_LEN` of them.
pub open spec fn chunk(body: Seq<u8>, index: nat) -> Seq<u8> {
    let start = index * CHUNK_LEN;
    let end = if start + CHUNK_LEN < body.len() {
        start + CHUNK_LEN
    } else {
        body.len() as int
    };
    body.subrange(start, end)
}

/// The number of zero bytes that follow a compressed payload which ends at
/// offset `end`.
///
/// The rule adds the mask to `end`, clears the mask's bits in the sum, and
/// pads up to what is left. The mask `0x79` is not one less than a power of
/// two, so this is no alignment to a block size; containers are laid out by
/// this rule all the same.
pub open spec fn padding_len(end: int) -> int {
    (((end + PAD_MASK) as u32) & !PAD_MASK) - end
}

/// Whether a payload of `stored_len` bytes at offset `start` ends where the
/// padding rule stays within a signed 32-bit offset.
pub open spec fn section_fits(start: int, stored_len: int) -> bool {
    start + stored_len <= MAX_PAYLOAD_END
}

/// The bytes that are stored for `chunk`.
pub open spec fn stored_form(chunk: Seq<u8>, compress: bool, effort: Effort) -> Seq<u8> {
    if compress {
        zlib_deflated(chunk, effort)
    } else {
        chunk
    }
}

/// What a section whose payload `stored` begins at offset `start` adds to
/// the data region: the payload, and after a compressed one its padding.
pub open spec fn section_bytes(start: int, stored: Seq<u8>, compress: bool) -> Seq<u8> {
    if compress {
        stored + zeros(padding_len(start + stored.len()))
    } else {
        stored
    }
}

/// The data region that the first `count` chunks of `body` make.
pub open spec fn data_region(body: Seq<u8>, compress: bool, effort: Effort, count: nat) -> Seq<u8>
    decreases count,
{
    if count == 0 {
        Seq::empty()
    } else {
        let before = data_region(body, compress, effort, (count - 1) as nat);
        let stored = stored_form(chunk(body, (count - 1) as nat), compress, effort);
        before + section_bytes(DATA_START + before.len(), stored, compress)
    }
}

/// The offset at which the payload of section `index` begins.
pub open spec fn section_start(body: Seq<u8>, compress: bool, effort: Effort, index: nat) -> int {
    DATA_START + data_region(body, compress, effort, index).len()
}

/// The descriptor of a payload of `stored_len` bytes at offset `start`: a
/// compressed payload has its length as `size`, a raw one the negative of
/// its length.
pub open spec fn descriptor_at(start: int, stored_len: int, compress: bool) -> SectionDescriptor {
    SectionDescriptor {
        size: if compress {
            stored_len as i32
        } else {
            (-stored_len) as i32
        },
        offset: start as i32,
    }
}

/// The descriptor of section `index` of the container made from `body`.
pub open spec fn section_of(body: Seq<u8>, compress: bool, effort: Effort, index: nat) -> SectionDescriptor {
    descriptor_at(
        section_start(body, compress, effort, index),
        stored_form(chunk(body, index), compress, effort).len() as int,
        compress,
    )
}

/// The descriptors of the first `count` sections.
pub open spec fn sections_of(body: Seq<u8>, compress: bool, effort: Effort, count: nat) -> Seq<
    SectionDescriptor,
> {
    Seq::new(count, |i: int| section_of(body, compress, effort, i as nat))
}

/// Whether each of the first `count` sections fits.
pub open spec fn sections_fit(body: Seq<u8>, compress: bool, effort: Effort, count: nat) -> bool {
    forall|i: nat|
        i < count ==> section_fits(
            #[trigger] section_start(body, compress, effort, i),
            stored_form(chunk(body, i), compress, effort).len() as int,
        )
}

/// The container that holds `input`: the first 4096 bytes as the header, the
/// table of the sections, and the data region made from the bytes after the
/// header, cut into chunks.
pub open spec fn packed(input: Seq<u8>, compress: bool, effort: Effort, order: ByteOrder) -> Result<
    Seq<u8>,
    Error,
> {
    if input.len() < HEADER_LEN {
        Err(Error::Truncated)
    } else {
        let body = input.skip(HEADER_LEN as int);
        let count = chunk_count(body.len());
        if !sections_fit(body, compress, effort, count) {
            Err(Error::TooLarge)
        } else {
            Ok(
                input.take(HEADER_LEN as int) + table_bytes(
                    sections_of(body, compress, effort, count),
                    order,
                ) + data_region(body, compress, effort, count),
            )
        }
    }
}

/// Tells whether a payload of `stored_len` bytes at offset `start` fits.
pub fn fits(start: usize, stored_len: usize) -> (yes: bool)
    ensures
        yes == section_fits(start as int, stored_len as int),
{
    start <= MAX_PAYLOAD_END && stored_len <= MAX_PAYLOAD_END - start
}

/// Computes the padding that follows a compressed payload ending at `end`.
pub fn padding_after(end: u32) -> (pad: u32)
    requires
        end <= MAX_PAYLOAD_END,
    ensures
        pad == padding_len(end as int),
        pad <= PAD_MASK,
{
    let sum: u32 = end + PAD_MASK;
    let kept: u32 = sum & !PAD_MASK;
    assert(kept <= sum && sum - kept <= 0x79) by (bit_vector)
        requires
            kept == sum & !0x79u32,
    ;
    kept - end
}

/// Appends `chunk` to `out` as a raw payload and gives its descriptor.
pub fn append_raw(out: &mut Vec<u8>, chunk: &[u8]) -> (section: SectionDescriptor)
    requires
        section_fits(old(out)@.len() as int, chunk@.len() as int),
    ensures
        final(out)@ == old(out)@ + section_bytes(old(out)@.len() as int, chunk@, false),
        section == descriptor_at(old(out)@.len() as int, chunk@.len() as int, false),
{
    let offset: i32 = out.len() as i32;
    let size: i32 = -(chunk.len() as i32);
    append_bytes(out, chunk);
    SectionDescriptor { size, offset }
}

/// Appends the compressed payload `stream` and its padding to `out` and
/// gives its descriptor.
pub fn append_compressed(out: &mut Vec<u8>, stream: &[u8]) -> (section: SectionDescriptor)
    requires
        section_fits(old(out)@.len() as int, stream@.len() as int),
    ensures
        final(out)@ == old(out)@ + section_bytes(old(out)@.len() as int, stream@, true),
        section == descriptor_at(old(out)@.len() as int, stream@.len() as int, true),
{
    let offset: i32 = out.len() as i32;
    let size: i32 = stream.len() as i32;
    append_bytes(out, stream);
    let pad: u32 = padding_after((offset + size) as u32);
    append_zeros(out, pad as usize);
    assert(out@ =~= old(out)@ + section_bytes(old(out)@.len() as int, stream@, true));
    SectionDescriptor { size, offset }
}

/// A raw section fits wherever it lies among the sections of a container:
/// at most 1024 chunks of at most `CHUNK_LEN` bytes come before it.
pub proof fn lemma_raw_sections_fit(body: Seq<u8>, effort: Effort, count: nat)
    requires
        count <= chunk_count(body.len()),
    ensures
        data_region(body, false, effort, count).len() <= count * CHUNK_LEN,
        sections_fit(body, false, effort, count),
    decreases count,
{
    if count > 0 {
        lemma_raw_sections_fit(body, effort, (count - 1) as nat);
        assert forall|i: nat| i < count implies section_fits(
            #[trigger] section_start(body, false, effort, i),
            stored_form(chunk(body, i), false, effort).len() as int,
        ) by {
            lemma_raw_sections_fit(body, effort, i);
        }
    }
}

/// Packs `input` into a container.
///
/// The first 4096 bytes of `input` become the header; an input that is
/// shorter fails with `Truncated`. The bytes after them are cut into chunks
/// of `CHUNK_LEN` bytes, the last one as long as what is left, and each
/// chunk becomes one section: compressed at `effort` where `compress` is
/// set, raw otherwise. The table has 1024 slots, and input beyond the 1024th
/// chunk is left out. A compressed payload that would end beyond
/// `MAX_PAYLOAD_END` fails with `TooLarge`; raw packing does not fail so.
pub fn pack(input: &[u8], compress: bool, effort: Effort, order: ByteOrder) -> (output: Result<
    Vec<u8>,
    Error,
>)
    ensures
        match output {
            Ok(bytes) => packed(input@, compress, effort, order) == Ok::<Seq<u8>, Error>(bytes@),
            Err(e) => packed(input@, compress, effort, order) == Err::<Seq<u8>, Error>(e),
        },
        input@.len() < HEADER_LEN ==> output == Err::<Vec<u8>, Error>(Error::Truncated),
        input@.len() >= HEADER_LEN && !compress ==> output is Ok,
        output matches Ok(bytes) ==> bytes@.len() >= DATA_START && bytes@.take(HEADER_LEN as int)
            == input@.take(HEADER_LEN as int),
{
    if input.len() < HEADER_LEN {
        return Err(Error::Truncated);
    }
    let mut out: Vec<u8> = Vec::new();
    append_bytes(&mut out, &input[0..HEADER_LEN]);
    append_zeros(&mut out, TABLE_LEN);
    let body: &[u8] = &input[HEADER_LEN..input.len()];
    assert(body@ =~= input@.skip(HEADER_LEN as int));
    let ghost header = input@.take(HEADER_LEN as int);
    assert(out@ =~= header + zeros(TABLE_LEN as int) + data_region(body@, compress, effort, 0));
    proof {
        if !compress {
            lemma_raw_sections_fit(body@, effort, chunk_count(body@.len()));
        }
    }
    let mut sections: Vec<SectionDescriptor> = Vec::new();
    let mut position: usize = 0;
    while sections.len() < MAX_SECTIONS && position < body.len()
        invariant
            input@.len() >= HEADER_LEN,
            body@ == input@.skip(HEADER_LEN as int),
            header == input@.take(HEADER_LEN as int),
            sections@.len() <= chunk_count(body@.len()),
            position == if sections@.len() * CHUNK_LEN < body@.len() {
                sections@.len() * CHUNK_LEN
            } else {
                body@.len() as int
            },
            sections@ == sections_of(body@, compress, effort, sections@.len()),
            sections_fit(body@, compress, effort, sections@.len()),
            out@ == header + zeros(TABLE_LEN as int) + data_region(
                body@,
                compress,
                effort,
                sections@.len(),
            ),
            !compress ==> sections_fit(body@, compress, effort, chunk_count(body@.len())),
        ensures
            sections@.len() == chunk_count(body@.len()),
        decreases MAX_SECTIONS - sections@.len(),
    {
        let ghost done = sections@.len();
        let end: usize = if body.len() - position > CHUNK_LEN {
            position + CHUNK_LEN
        } else {
            body.len()
        };
        let piece: &[u8] = &body[position..end];
        assert(piece@ =~= chunk(body@, done));
        assert(out@.len() == section_start(body@, compress, effort, done));
        assert(done < chunk_count(body@.len()));
        let section: SectionDescriptor = if compress {
            let stream: Vec<u8> = zlib_deflate(piece, effort);
            if !fits(out.len(), stream.len()) {
                return Err(Error::TooLarge);
            }
            append_compressed(&mut out, stream.as_slice())
        } else {
            if !fits(out.len(), piece.len()) {
                return Err(Error::TooLarge);
            }
            append_raw(&mut out, piece)
        };
        proof {
            assert(sections@.push(section) =~= sections_of(body@, compress, effort, done + 1));
            assert(out@ =~= header + zeros(TABLE_LEN as int) + data_region(
                body@,
                compress,
                effort,
                done + 1,
            ));
        }
        sections.push(section);
        position = end;
    }
    write_table(&mut out, &sections, order);
    proof {
        let count = chunk_count(body@.len());
        assert(out@ =~= header + table_bytes(sections@, order) + data_region(
            body@,
            compress,
            effort,
            count,
        ));
        assert(out@.take(HEADER_LEN as int) =~= header);
    }
    Ok(out)
}

} // verus!
