//! What packing and unpacking owe each other.

use vstd::prelude::*;
use crate::descriptor::SectionDescriptor;
use crate::endian::{least_first, number_of, ByteOrder};
use crate::error::Error;
use crate::layout::{
    CHUNK_LEN, DATA_START, DESCRIPTOR_LEN, HEADER_LEN, MAX_BODY_LEN, MAX_SECTIONS,
};
use crate::pack::{
    chunk, chunk_count, data_region, lemma_raw_sections_fit, packed, section_fits, section_of,
    section_start, sections_fit, sections_of, stored_form,
};
use crate::table::{active_from, active_sections, slot, slot_present, slot_start, table_bytes};
use crate::unpack::{
    lemma_restored_keeps_start, payload_present, restored_from, section_payload, stored_payload,
    unpacked,
};
use crate::zlib::{zlib_deflated, zlib_inflated, Effort};

verus! {

/// The data region only grows: what the first `few` chunks make is the
/// beginning of what the first `many` make.
proof fn lemma_data_region_grows(body: Seq<u8>, compress: bool, effort: Effort, few: nat, many: nat)
    requires
        few <= many,
    ensures
        data_region(body, compress, effort, few).len() <= data_region(
            body,
            compress,
            effort,
            many,
        ).len(),
        data_region(body, compress, effort, many).take(
            data_region(body, compress, effort, few).len() as int,
        ) == data_region(body, compress, effort, few),
    decreases many,
{
    let small = data_region(body, compress, effort, few);
    if few == many {
        assert(small.take(small.len() as int) =~= small);
    } else {
        lemma_data_region_grows(body, compress, effort, few, (many - 1) as nat);
        let before = data_region(body, compress, effort, (many - 1) as nat);
        let large = data_region(body, compress, effort, many);
        assert(large.take(small.len() as int) =~= before.take(small.len() as int));
    }
}

/// The stored bytes of section `index` lie in the data region where its
/// descriptor says.
proof fn lemma_stored_in_region(body: Seq<u8>, compress: bool, effort: Effort, index: nat, count: nat)
    requires
        index < count,
    ensures
        ({
            let start = data_region(body, compress, effort, index).len() as int;
            let stored = stored_form(chunk(body, index), compress, effort);
            let region = data_region(body, compress, effort, count);
            &&& start + stored.len() <= region.len()
            &&& region.subrange(start, start + stored.len()) == stored
        }),
{
    let start = data_region(body, compress, effort, index).len() as int;
    let stored = stored_form(chunk(body, index), compress, effort);
    let next = data_region(body, compress, effort, index + 1);
    let region = data_region(body, compress, effort, count);
    lemma_data_region_grows(body, compress, effort, index + 1, count);
    assert(next.subrange(start, start + stored.len()) =~= stored);
    assert(region.subrange(start, start + stored.len()) =~= region.take(next.len() as int).subrange(
        start,
        start + stored.len(),
    ));
}

/// A container made of a header, the table of `sections` and a data region.
pub open spec fn container_of(
    header: Seq<u8>,
    sections: Seq<SectionDescriptor>,
    data: Seq<u8>,
    order: ByteOrder,
) -> Seq<u8> {
    header + table_bytes(sections, order) + data
}

/// Every slot of a container's table lies within it; the first slots hold
/// `sections`, and the others a descriptor of two zeros.
proof fn lemma_slot_of_container(
    header: Seq<u8>,
    sections: Seq<SectionDescriptor>,
    data: Seq<u8>,
    order: ByteOrder,
    index: int,
)
    requires
        header.len() == HEADER_LEN,
        sections.len() <= MAX_SECTIONS,
        0 <= index < MAX_SECTIONS,
    ensures
        slot_present(container_of(header, sections, data, order), index),
        slot(container_of(header, sections, data, order), index, order) == if index
            < sections.len() {
            sections[index]
        } else {
            SectionDescriptor { size: 0, offset: 0 }
        },
{
    let all = container_of(header, sections, data, order);
    let table = table_bytes(sections, order);
    let held = all.subrange(slot_start(index), slot_start(index) + DESCRIPTOR_LEN);
    assert(held =~= table.subrange(8 * index, 8 * index + 8));
    if index < sections.len() {
        sections[index].lemma_bytes_read_back(order);
        assert(held =~= sections[index].bytes(order)) by {
            assert forall|j: int| 0 <= j < 8 implies held[j] == sections[index].bytes(order)[j] by {
                assert((8 * index + j) / 8 == index);
                assert((8 * index + j) % 8 == j);
            }
        }
    } else {
        assert forall|j: int| 0 <= j < 8 implies held[j] == 0u8 by {
            assert((8 * index + j) / 8 == index);
        }
        let low = held.subrange(0, 4);
        let high = held.subrange(4, 8);
        assert(number_of(least_first(low, order)) == 0);
        assert(number_of(least_first(high, order)) == 0);
    }
}

/// The sections in use in a container are the sections of its table, where
/// none of them ends the table.
proof fn lemma_active_of_container(
    header: Seq<u8>,
    sections: Seq<SectionDescriptor>,
    data: Seq<u8>,
    order: ByteOrder,
    index: nat,
)
    requires
        header.len() == HEADER_LEN,
        sections.len() <= MAX_SECTIONS,
        index <= sections.len(),
        forall|i: int| 0 <= i < sections.len() ==> !(#[trigger] sections[i]).ends_table(),
    ensures
        active_from(container_of(header, sections, data, order), order, index) == Ok::<
            Seq<SectionDescriptor>,
            Error,
        >(sections.skip(index as int)),
    decreases sections.len() - index,
{
    let all = container_of(header, sections, data, order);
    if index >= MAX_SECTIONS {
        assert(sections.skip(index as int) =~= Seq::<SectionDescriptor>::empty());
    } else {
        lemma_slot_of_container(header, sections, data, order, index as int);
        if index == sections.len() {
            assert(sections.skip(index as int) =~= Seq::<SectionDescriptor>::empty());
        } else {
            lemma_active_of_container(header, sections, data, order, index + 1);
            assert(seq![sections[index as int]] + sections.skip(index as int + 1) =~= sections.skip(
                index as int,
            ));
        }
    }
}

/// The number of bytes after the header that a container holds of a body of
/// `body_len` bytes: all of them, up to 1024 chunks.
pub open spec fn held_len(body_len: nat) -> nat {
    if body_len < MAX_BODY_LEN {
        body_len
    } else {
        MAX_BODY_LEN as nat
    }
}

/// What a round trip asks of the zlib codec on one chunk: the stream that
/// compression gives is not empty, and decompression gives the chunk back.
pub open spec fn codec_restores(chunk: Seq<u8>, effort: Effort) -> bool {
    &&& zlib_deflated(chunk, effort).len() > 0
    &&& zlib_inflated(zlib_deflated(chunk, effort)) == Some(chunk)
}

/// Whether the codec restores every chunk that `body` is cut into.
pub open spec fn codec_restores_chunks(body: Seq<u8>, effort: Effort) -> bool {
    forall|i: nat| i < chunk_count(body.len()) ==> codec_restores(#[trigger] chunk(body, i), effort)
}

/// In the container made from `body`, the descriptor of section `index`
/// does not end the table, and its payload is chunk `index`.
proof fn lemma_section_restores(
    header: Seq<u8>,
    body: Seq<u8>,
    compress: bool,
    effort: Effort,
    order: ByteOrder,
    index: nat,
)
    requires
        header.len() == HEADER_LEN,
        index < chunk_count(body.len()),
        sections_fit(body, compress, effort, chunk_count(body.len())),
        compress ==> codec_restores(chunk(body, index), effort),
    ensures
        !section_of(body, compress, effort, index).ends_table(),
        section_payload(
            container_of(
                header,
                sections_of(body, compress, effort, chunk_count(body.len())),
                data_region(body, compress, effort, chunk_count(body.len())),
                order,
            ),
            section_of(body, compress, effort, index),
        ) == Ok::<Seq<u8>, Error>(chunk(body, index)),
{
    let count = chunk_count(body.len());
    let region = data_region(body, compress, effort, count);
    let all = container_of(header, sections_of(body, compress, effort, count), region, order);
    let entry = section_of(body, compress, effort, index);
    let start = section_start(body, compress, effort, index);
    let stored = stored_form(chunk(body, index), compress, effort);
    assert(section_fits(start, stored.len() as int));
    assert(index * CHUNK_LEN < body.len());
    assert(chunk(body, index).len() > 0);
    assert(stored.len() > 0);
    assert(entry.stored_len() == stored.len());
    lemma_stored_in_region(body, compress, effort, index, count);
    assert(all.subrange(start, start + stored.len()) =~= region.subrange(
        start - DATA_START,
        start - DATA_START + stored.len(),
    ));
    assert(stored_payload(all, entry) == stored);
}

/// Where each section's payload is its chunk, restoring the sections from
/// `index` on appends the rest of what the container holds of the body.
proof fn lemma_restore_chunks(
    all: Seq<u8>,
    sections: Seq<SectionDescriptor>,
    body: Seq<u8>,
    index: nat,
    out: Seq<u8>,
)
    requires
        sections.len() == chunk_count(body.len()),
        index <= sections.len(),
        forall|i: int|
            0 <= i < sections.len() ==> !(#[trigger] sections[i]).ends_table() && section_payload(
                all,
                sections[i],
            ) == Ok::<Seq<u8>, Error>(chunk(body, i as nat)),
    ensures
        restored_from(all, sections, index, out) == Ok::<Seq<u8>, Error>(
            out + body.subrange(
                if index * CHUNK_LEN < held_len(body.len()) {
                    index * CHUNK_LEN
                } else {
                    held_len(body.len()) as int
                },
                held_len(body.len()) as int,
            ),
        ),
    decreases sections.len() - index,
{
    let held = held_len(body.len()) as int;
    if index >= sections.len() {
        assert(index * CHUNK_LEN >= held);
        assert(out + body.subrange(held, held) =~= out);
    } else {
        let piece = chunk(body, index);
        assert(!sections[index as int].ends_table());
        lemma_restore_chunks(all, sections, body, index + 1, out + piece);
        let next = if (index + 1) * CHUNK_LEN < held {
            (index + 1) * CHUNK_LEN
        } else {
            held
        };
        assert(index * CHUNK_LEN < held);
        assert(piece =~= body.subrange(index * CHUNK_LEN, next));
        assert(out + piece + body.subrange(next, held) =~= out + body.subrange(
            index * CHUNK_LEN,
            held,
        ));
    }
}

/// Unpacking a container that packing made gives back the input, as far as
/// the container holds it: the header, and the body up to 1024 chunks.
///
/// For raw packing this holds of every input. For compressed packing it
/// holds of the inputs that fit and whose chunks the zlib codec restores:
/// nothing that this library states of the codec says that it does.
pub proof fn lemma_unpack_restores_packed(
    input: Seq<u8>,
    compress: bool,
    effort: Effort,
    order: ByteOrder,
)
    requires
        input.len() >= HEADER_LEN,
    ensures
        !compress ==> packed(input, compress, effort, order) is Ok,
        !compress || codec_restores_chunks(input.skip(HEADER_LEN as int), effort) ==> (packed(
            input,
            compress,
            effort,
            order,
        ) matches Ok(container) ==> unpacked(container, order) == Ok::<Seq<u8>, Error>(
            input.take(HEADER_LEN + held_len((input.len() - HEADER_LEN) as nat)),
        )),
{
    let header = input.take(HEADER_LEN as int);
    let body = input.skip(HEADER_LEN as int);
    let count = chunk_count(body.len());
    if !compress {
        lemma_raw_sections_fit(body, effort, count);
    }
    if (!compress || codec_restores_chunks(body, effort)) && sections_fit(
        body,
        compress,
        effort,
        count,
    ) {
        let sections = sections_of(body, compress, effort, count);
        let region = data_region(body, compress, effort, count);
        let all = container_of(header, sections, region, order);
        assert(packed(input, compress, effort, order) == Ok::<Seq<u8>, Error>(all));
        assert forall|i: int| 0 <= i < sections.len() implies !(#[trigger] sections[i]).ends_table()
            && section_payload(all, sections[i]) == Ok::<Seq<u8>, Error>(chunk(body, i as nat)) by {
            lemma_section_restores(header, body, compress, effort, order, i as nat);
        }
        lemma_active_of_container(header, sections, region, order, 0);
        assert(sections.skip(0) =~= sections);
        assert(all.take(HEADER_LEN as int) =~= header);
        lemma_restore_chunks(all, sections, body, 0, header);
        assert(header + body.subrange(0, held_len(body.len()) as int) =~= input.take(
            HEADER_LEN + held_len(body.len()),
        ));
    }
}

/// Raw packing loses nothing: unpacking the container gives back every
/// input that has a header and no more than 1024 chunks after it.
pub proof fn lemma_raw_round_trip(input: Seq<u8>, effort: Effort, order: ByteOrder)
    requires
        HEADER_LEN <= input.len() <= HEADER_LEN + MAX_BODY_LEN,
    ensures
        packed(input, false, effort, order) matches Ok(container) && unpacked(container, order)
            == Ok::<Seq<u8>, Error>(input),
{
    lemma_unpack_restores_packed(input, false, effort, order);
    assert(input.take(input.len() as int) =~= input);
}

/// Compressed packing loses nothing where the container can be made and the
/// zlib codec restores each chunk: unpacking gives back every such input
/// that has a header and no more than 1024 chunks after it.
pub proof fn lemma_compressed_round_trip(input: Seq<u8>, effort: Effort, order: ByteOrder)
    requires
        HEADER_LEN <= input.len() <= HEADER_LEN + MAX_BODY_LEN,
    ensures
        codec_restores_chunks(input.skip(HEADER_LEN as int), effort) ==> (packed(
            input,
            true,
            effort,
            order,
        ) matches Ok(container) ==> unpacked(container, order) == Ok::<Seq<u8>, Error>(input)),
{
    lemma_unpack_restores_packed(input, true, effort, order);
    assert(input.take(input.len() as int) =~= input);
}

/// The header passes through: a container begins with the first 4096 bytes
/// of the input it was made from, and unpacking it gives a stream that
/// begins with them too.
pub proof fn lemma_header_passes_through(
    input: Seq<u8>,
    compress: bool,
    effort: Effort,
    order: ByteOrder,
)
    ensures
        packed(input, compress, effort, order) matches Ok(container) ==> container.len()
            >= DATA_START && container.take(HEADER_LEN as int) == input.take(HEADER_LEN as int),
        unpacked(input, order) matches Ok(output) ==> output.len() >= HEADER_LEN && output.take(
            HEADER_LEN as int,
        ) == input.take(HEADER_LEN as int),
{
    if let Ok(container) = packed(input, compress, effort, order) {
        assert(container.take(HEADER_LEN as int) =~= input.take(HEADER_LEN as int));
    }
    if input.len() >= HEADER_LEN {
        if let Ok(sections) = active_sections(input, order) {
            lemma_restored_keeps_start(input, sections, 0, input.take(HEADER_LEN as int));
        }
    }
}

/// A container whose first descriptor has a `size` of zero holds nothing but
/// its header.
pub proof fn lemma_empty_table(input: Seq<u8>, order: ByteOrder)
    requires
        input.len() >= HEADER_LEN + DESCRIPTOR_LEN,
        slot(input, 0, order).size == 0,
    ensures
        unpacked(input, order) == Ok::<Seq<u8>, Error>(input.take(HEADER_LEN as int)),
{
}

/// A container with one section in use unpacks to its header and that
/// section's payload: the stored bytes themselves where `size` is negative,
/// what they decompress to where it is positive.
pub proof fn lemma_single_section(input: Seq<u8>, order: ByteOrder)
    requires
        input.len() >= HEADER_LEN + 2 * DESCRIPTOR_LEN,
        !slot(input, 0, order).ends_table(),
        slot(input, 1, order).ends_table(),
    ensures
        unpacked(input, order) == match section_payload(input, slot(input, 0, order)) {
            Ok(payload) => Ok::<Seq<u8>, Error>(input.take(HEADER_LEN as int) + payload),
            Err(e) => Err::<Seq<u8>, Error>(e),
        },
        slot(input, 0, order).size < 0 && payload_present(input, slot(input, 0, order))
            ==> unpacked(input, order) == Ok::<Seq<u8>, Error>(
            input.take(HEADER_LEN as int) + stored_payload(input, slot(input, 0, order)),
        ),
{
    let first = slot(input, 0, order);
    assert(active_from(input, order, 1) == Ok::<Seq<SectionDescriptor>, Error>(Seq::empty()));
    let sections = seq![first];
    assert(seq![first] + Seq::<SectionDescriptor>::empty() =~= sections);
    assert(active_sections(input, order) == Ok::<Seq<SectionDescriptor>, Error>(sections));
    let header = input.take(HEADER_LEN as int);
    if let Ok(payload) = section_payload(input, first) {
        assert(restored_from(input, sections, 1, header + payload) == Ok::<Seq<u8>, Error>(
            header + payload,
        ));
    }
}

/// A container made from an input with more than 1023 chunks after the
/// header has all 1024 slots of its table in use.
pub proof fn lemma_full_table(input: Seq<u8>, compress: bool, effort: Effort, order: ByteOrder)
    requires
        input.len() > HEADER_LEN + (MAX_SECTIONS - 1) * CHUNK_LEN,
    ensures
        !compress || codec_restores_chunks(input.skip(HEADER_LEN as int), effort) ==> (packed(
            input,
            compress,
            effort,
            order,
        ) matches Ok(container) ==> active_sections(container, order) matches Ok(sections)
            && sections.len() == MAX_SECTIONS),
{
    let header = input.take(HEADER_LEN as int);
    let body = input.skip(HEADER_LEN as int);
    let count = chunk_count(body.len());
    assert(count == MAX_SECTIONS);
    if (!compress || codec_restores_chunks(body, effort)) && sections_fit(
        body,
        compress,
        effort,
        count,
    ) {
        let sections = sections_of(body, compress, effort, count);
        let region = data_region(body, compress, effort, count);
        assert forall|i: int| 0 <= i < sections.len() implies !(#[trigger] sections[i]).ends_table() by {
            lemma_section_restores(header, body, compress, effort, order, i as nat);
        }
        lemma_active_of_container(header, sections, region, order, 0);
        assert(sections.skip(0) =~= sections);
    }
}

/// No section in use ends the table.
proof fn lemma_active_sections_have_payloads(input: Seq<u8>, order: ByteOrder, index: nat)
    ensures
        active_from(input, order, index) matches Ok(sections) ==> forall|i: int|
            0 <= i < sections.len() ==> !(#[trigger] sections[i]).ends_table(),
    decreases MAX_SECTIONS - index,
{
    if index < MAX_SECTIONS && slot_present(input, index as int) && !slot(
        input,
        index as int,
        order,
    ).ends_table() {
        lemma_active_sections_have_payloads(input, order, index + 1);
    }
}

/// Where the payloads of `sections` from `index` up to `failing` can be
/// restored and that of `failing` cannot, restoring fails as it does.
proof fn lemma_restore_fails_at(
    input: Seq<u8>,
    sections: Seq<SectionDescriptor>,
    index: nat,
    failing: nat,
    out: Seq<u8>,
)
    requires
        index <= failing < sections.len(),
        forall|i: int| 0 <= i < sections.len() ==> (#[trigger] sections[i]).size != 0,
        forall|i: int| index <= i < failing ==> section_payload(input, #[trigger] sections[i]) is Ok,
        section_payload(input, sections[failing as int]) is Err,
    ensures
        restored_from(input, sections, index, out) == Err::<Seq<u8>, Error>(
            section_payload(input, sections[failing as int])->Err_0,
        ),
    decreases failing - index,
{
    assert(sections[index as int].size != 0);
    if index < failing {
        assert(section_payload(input, sections[index as int]) is Ok);
        let payload = section_payload(input, sections[index as int])->Ok_0;
        lemma_restore_fails_at(input, sections, index + 1, failing, out + payload);
    }
}

/// The first section that cannot be restored decides how unpacking fails:
/// with `CorruptPayload` where its stored bytes are a compressed payload
/// that does not decompress, with `Truncated` where they reach beyond the
/// container.
pub proof fn lemma_first_failure_decides(input: Seq<u8>, order: ByteOrder, failing: nat)
    requires
        input.len() >= HEADER_LEN,
        active_sections(input, order) matches Ok(sections) && failing < sections.len() && (forall|
            i: int,
        |
            0 <= i < failing ==> section_payload(input, #[trigger] sections[i]) is Ok)
            && section_payload(input, sections[failing as int]) is Err,
    ensures
        unpacked(input, order) == Err::<Seq<u8>, Error>(
            section_payload(input, active_sections(input, order)->Ok_0[failing as int])->Err_0,
        ),
        unpacked(input, order) == Err::<Seq<u8>, Error>(
            if payload_present(input, active_sections(input, order)->Ok_0[failing as int]) {
                Error::CorruptPayload
            } else {
                Error::Truncated
            },
        ),
{
    let sections = active_sections(input, order)->Ok_0;
    lemma_active_sections_have_payloads(input, order, 0);
    assert forall|i: int| 0 <= i < sections.len() implies (#[trigger] sections[i]).size != 0 by {
        assert(!sections[i].ends_table());
    }
    lemma_restore_fails_at(input, sections, 0, failing, input.take(HEADER_LEN as int));
}

} // verus!
