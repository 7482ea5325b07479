//! The section table: up to 1024 descriptors, stored after the header.

use vstd::prelude::*;
use crate::descriptor::SectionDescriptor;
use crate::endian::ByteOrder;
use crate::error::Error;
use crate::layout::{DATA_START, DESCRIPTOR_LEN, MAX_SECTIONS, TABLE_LEN, TABLE_START};

verus! {

/// Offset of slot `index` of the table.
pub open spec fn slot_start(index: int) -> int {
    TABLE_START + DESCRIPTOR_LEN * index
}

/// Whether all eight bytes of slot `index` lie within `input`.
pub open spec fn slot_present(input: Seq<u8>, index: int) -> bool {
    slot_start(index) + DESCRIPTOR_LEN <= input.len()
}

/// The descriptor that slot `index` of the table of `input` holds.
pub open spec fn slot(input: Seq<u8>, index: int, order: ByteOrder) -> SectionDescriptor {
    SectionDescriptor::of_bytes(
        input.subrange(slot_start(index), slot_start(index) + DESCRIPTOR_LEN),
        order,
    )
}

/// The descriptors in use from slot `index` on.
///
/// The slots are read in turn. The list ends, without error, before the
/// first descriptor that ends the table, and after the last slot. A slot
/// that is reached and does not lie within `input` is a truncation.
pub open spec fn active_from(input: Seq<u8>, order: ByteOrder, index: nat) -> Result<
    Seq<SectionDescriptor>,
    Error,
>
    decreases MAX_SECTIONS - index,
{
    if index >= MAX_SECTIONS {
        Ok(Seq::empty())
    } else if !slot_present(input, index as int) {
        Err(Error::Truncated)
    } else if slot(input, index as int, order).ends_table() {
        Ok(Seq::empty())
    } else {
        match active_from(input, order, index + 1) {
            Ok(rest) => Ok(seq![slot(input, index as int, order)] + rest),
            Err(e) => Err(e),
        }
    }
}

/// The descriptors in use in the table of `input`, in table order.
pub open spec fn active_sections(input: Seq<u8>, order: ByteOrder) -> Result<
    Seq<SectionDescriptor>,
    Error,
> {
    active_from(input, order, 0)
}

/// The 8192 bytes of a table that holds `sections` in its first slots, as
/// far as it has slots, and zero bytes in the others.
pub open spec fn table_bytes(sections: Seq<SectionDescriptor>, order: ByteOrder) -> Seq<u8> {
    Seq::new(
        TABLE_LEN as nat,
        |k: int|
            if k / (DESCRIPTOR_LEN as int) < sections.len() {
                sections[k / (DESCRIPTOR_LEN as int)].bytes(order)[k % (DESCRIPTOR_LEN as int)]
            } else {
                0u8
            },
    )
}

/// Reads slot `index` of the table of `input`.
///
/// Fails with `Truncated` where the slot does not lie within `input`.
pub fn read_slot(input: &[u8], index: usize, order: ByteOrder) -> (entry: Result<
    SectionDescriptor,
    Error,
>)
    requires
        index < MAX_SECTIONS,
    ensures
        entry == if slot_present(input@, index as int) {
            Ok::<SectionDescriptor, Error>(slot(input@, index as int, order))
        } else {
            Err::<SectionDescriptor, Error>(Error::Truncated)
        },
{
    let start: usize = TABLE_START + DESCRIPTOR_LEN * index;
    if input.len() < DESCRIPTOR_LEN || start > input.len() - DESCRIPTOR_LEN {
        return Err(Error::Truncated);
    }
    let bytes: [u8; 8] = [
        input[start],
        input[start + 1],
        input[start + 2],
        input[start + 3],
        input[start + 4],
        input[start + 5],
        input[start + 6],
        input[start + 7],
    ];
    assert(bytes@ =~= input@.subrange(slot_start(index as int), slot_start(index as int) + 8));
    Ok(SectionDescriptor::decode(bytes, order))
}

/// Reads the descriptors in use from the table of `input`.
pub fn read_table(input: &[u8], order: ByteOrder) -> (sections: Result<
    Vec<SectionDescriptor>,
    Error,
>)
    ensures
        match sections {
            Ok(list) => active_sections(input@, order) == Ok::<Seq<SectionDescriptor>, Error>(
                list@,
            ),
            Err(e) => active_sections(input@, order) == Err::<Seq<SectionDescriptor>, Error>(e),
        },
        sections matches Ok(list) ==> list@.len() <= MAX_SECTIONS,
        sections matches Ok(list) ==> forall|i: int|
            0 <= i < list@.len() ==> !(#[trigger] list@[i]).ends_table(),
{
    let mut list: Vec<SectionDescriptor> = Vec::new();
    let mut index: usize = 0;
    while index < MAX_SECTIONS
        invariant
            index <= MAX_SECTIONS,
            list@.len() == index,
            forall|i: int| 0 <= i < list@.len() ==> !(#[trigger] list@[i]).ends_table(),
            active_sections(input@, order) == match active_from(input@, order, index as nat) {
                Ok(rest) => Ok::<Seq<SectionDescriptor>, Error>(list@ + rest),
                Err(e) => Err::<Seq<SectionDescriptor>, Error>(e),
            },
        decreases MAX_SECTIONS - index,
    {
        let entry: SectionDescriptor = match read_slot(input, index, order) {
            Ok(entry) => entry,
            Err(e) => {
                return Err(e);
            },
        };
        if entry.terminates() {
            assert(list@ + Seq::<SectionDescriptor>::empty() =~= list@);
            return Ok(list);
        }
        proof {
            let rest = active_from(input@, order, (index + 1) as nat);
            if let Ok(tail) = rest {
                assert(list@ + (seq![entry] + tail) =~= list@.push(entry) + tail);
            }
        }
        list.push(entry);
        index = index + 1;
    }
    assert(list@ + Seq::<SectionDescriptor>::empty() =~= list@);
    Ok(list)
}

/// Overwrites the table region of `out` with `sections`, followed by zero
/// bytes up to the end of the region. The header and the data region stay
/// as they are. The region has 1024 slots: descriptors beyond the 1024th
/// are not written.
pub fn write_table(out: &mut Vec<u8>, sections: &Vec<SectionDescriptor>, order: ByteOrder)
    requires
        old(out)@.len() >= DATA_START,
    ensures
        final(out)@ == old(out)@.subrange(0, TABLE_START as int) + table_bytes(sections@, order)
            + old(out)@.subrange(DATA_START as int, old(out)@.len() as int),
{
    let ghost before = out@;
    let mut k: usize = 0;
    while k < TABLE_LEN
        invariant
            k <= TABLE_LEN,
            out@.len() == before.len(),
            before.len() >= DATA_START,
            forall|j: int| 0 <= j < TABLE_START ==> out@[j] == before[j],
            forall|j: int| DATA_START <= j < out@.len() ==> out@[j] == before[j],
            forall|j: int|
                0 <= j < k ==> out@[TABLE_START + j] == table_bytes(sections@, order)[j],
        decreases TABLE_LEN - k,
    {
        let index: usize = k / DESCRIPTOR_LEN;
        let byte: u8 = if index < sections.len() {
            let bytes: [u8; 8] = sections[index].encode(order);
            bytes[k % DESCRIPTOR_LEN]
        } else {
            0
        };
        out.set(TABLE_START + k, byte);
        k = k + 1;
    }
    assert(out@ =~= before.subrange(0, TABLE_START as int) + table_bytes(sections@, order)
        + before.subrange(DATA_START as int, before.len() as int));
}

} // verus!
