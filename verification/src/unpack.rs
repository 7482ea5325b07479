//! Unpacking: from a container to the byte stream that it holds.

use vstd::prelude::*;
use crate::buffer::append_bytes;
use crate::descriptor::SectionDescriptor;
use crate::endian::ByteOrder;
use crate::error::Error;
use crate::layout::HEADER_LEN;
use crate::table::{active_sections, read_table};
use crate::zlib::{zlib_inflate, zlib_inflated};

verus! {

/// Whether the stored bytes of `section` lie within `input`, so that reading
/// them is not cut short.
pub open spec fn payload_present(input: Seq<u8>, section: SectionDescriptor) -> bool {
    section.stored_len() == 0 || (0 <= section.offset && section.offset + section.stored_len()
        <= input.len())
}

/// The bytes of `input` that `section` points at.
pub open spec fn stored_payload(input: Seq<u8>, section: SectionDescriptor) -> Seq<u8> {
    if section.stored_len() == 0 {
        Seq::empty()
    } else {
        input.subrange(section.offset as int, section.offset + section.stored_len())
    }
}

/// The bytes that `section` stands for: its stored bytes where they are raw,
/// and what they decompress to where they are compressed.
pub open spec fn section_payload(input: Seq<u8>, section: SectionDescriptor) -> Result<
    Seq<u8>,
    Error,
> {
    if !payload_present(input, section) {
        Err(Error::Truncated)
    } else if section.is_raw() {
        Ok(stored_payload(input, section))
    } else {
        match zlib_inflated(stored_payload(input, section)) {
            Some(bytes) => Ok(bytes),
            None => Err(Error::CorruptPayload),
        }
    }
}

/// `out` with the payloads of `sections` from `index` on appended in order.
///
/// A descriptor whose `size` and `offset` are both zero ends the list. The
/// first payload that cannot be restored fails the whole.
pub open spec fn restored_from(
    input: Seq<u8>,
    sections: Seq<SectionDescriptor>,
    index: nat,
    out: Seq<u8>,
) -> Result<Seq<u8>, Error>
    decreases sections.len() - index,
{
    if index >= sections.len() {
        Ok(out)
    } else if sections[index as int].offset == 0 && sections[index as int].size == 0 {
        Ok(out)
    } else {
        match section_payload(input, sections[index as int]) {
            Ok(bytes) => restored_from(input, sections, index + 1, out + bytes),
            Err(e) => Err(e),
        }
    }
}

/// The byte stream that the container `input` holds: its header, and after
/// it the payload of each section in use, in table order.
pub open spec fn unpacked(input: Seq<u8>, order: ByteOrder) -> Result<Seq<u8>, Error> {
    if input.len() < HEADER_LEN {
        Err(Error::Truncated)
    } else {
        match active_sections(input, order) {
            Ok(sections) => restored_from(input, sections, 0, input.take(HEADER_LEN as int)),
            Err(e) => Err(e),
        }
    }
}

/// Restoring sections only appends: the result begins with `out`.
pub proof fn lemma_restored_keeps_start(
    input: Seq<u8>,
    sections: Seq<SectionDescriptor>,
    index: nat,
    out: Seq<u8>,
)
    ensures
        restored_from(input, sections, index, out) matches Ok(bytes) ==> bytes.len() >= out.len()
            && bytes.take(out.len() as int) == out,
    decreases sections.len() - index,
{
    if index >= sections.len() || (sections[index as int].offset == 0 && sections[index as int].size
        == 0) {
        assert(out.take(out.len() as int) =~= out);
    } else if let Ok(payload) = section_payload(input, sections[index as int]) {
        lemma_restored_keeps_start(input, sections, index + 1, out + payload);
        if let Ok(bytes) = restored_from(input, sections, index + 1, out + payload) {
            assert(bytes.take(out.len() as int) =~= bytes.take((out + payload).len() as int).take(
                out.len() as int,
            ));
            assert((out + payload).take(out.len() as int) =~= out);
        }
    }
}

/// Appends what decompression gave for a section to `out`, or reports the
/// payload as corrupt where it gave nothing.
pub fn append_inflated(out: &mut Vec<u8>, inflated: Option<Vec<u8>>) -> (done: Result<(), Error>)
    ensures
        match inflated {
            Some(bytes) => done is Ok && final(out)@ == old(out)@ + bytes@,
            None => done == Err::<(), Error>(Error::CorruptPayload) && final(out)@ == old(out)@,
        },
{
    match inflated {
        Some(bytes) => {
            append_bytes(out, bytes.as_slice());
            Ok(())
        },
        None => Err(Error::CorruptPayload),
    }
}

/// Appends the payload of `section` to `out`. On failure `out` is unchanged.
pub fn append_section(input: &[u8], section: SectionDescriptor, out: &mut Vec<u8>) -> (done: Result<
    (),
    Error,
>)
    ensures
        match done {
            Ok(_) => section_payload(input@, section) matches Ok(bytes) && final(out)@ == old(out)@
                + bytes,
            Err(e) => section_payload(input@, section) == Err::<Seq<u8>, Error>(e) && final(out)@
                == old(out)@,
        },
{
    let len: u32 = section.payload_len();
    let stored: &[u8] = if len == 0 {
        let empty: &[u8] = &input[0..0];
        assert(empty@ =~= stored_payload(input@, section));
        empty
    } else {
        if section.offset < 0 || section.offset as u64 + len as u64 > input.len() as u64 {
            return Err(Error::Truncated);
        }
        let start: usize = section.offset as usize;
        let end: usize = start + len as usize;
        &input[start..end]
    };
    if section.size < 0 {
        append_bytes(out, stored);
        Ok(())
    } else {
        let inflated: Option<Vec<u8>> = zlib_inflate(stored);
        append_inflated(out, inflated)
    }
}

/// Appends the payloads of `sections` to `start`, in order.
pub fn restore_sections(input: &[u8], sections: &Vec<SectionDescriptor>, start: Vec<u8>) -> (restored:
    Result<Vec<u8>, Error>)
    ensures
        match restored {
            Ok(bytes) => restored_from(input@, sections@, 0, start@) == Ok::<Seq<u8>, Error>(bytes@),
            Err(e) => restored_from(input@, sections@, 0, start@) == Err::<Seq<u8>, Error>(e),
        },
{
    let mut out: Vec<u8> = start;
    let mut index: usize = 0;
    while index < sections.len()
        invariant
            index <= sections@.len(),
            restored_from(input@, sections@, 0, start@) == restored_from(
                input@,
                sections@,
                index as nat,
                out@,
            ),
        decreases sections@.len() - index,
    {
        let section: SectionDescriptor = sections[index];
        if section.offset == 0 && section.size == 0 {
            return Ok(out);
        }
        match append_section(input, section, &mut out) {
            Ok(_) => {},
            Err(e) => {
                return Err(e);
            },
        }
        index = index + 1;
    }
    Ok(out)
}

/// Unpacks the container `input`.
///
/// The result is the header followed by the payload of every section in use.
/// An input that is shorter than a header, a table that breaks off before
/// it ends, or a payload that reaches beyond the input fails with
/// `Truncated`; a compressed payload that does not decompress fails with
/// `CorruptPayload`.
pub fn unpack(input: &[u8], order: ByteOrder) -> (output: Result<Vec<u8>, Error>)
    ensures
        match output {
            Ok(bytes) => unpacked(input@, order) == Ok::<Seq<u8>, Error>(bytes@),
            Err(e) => unpacked(input@, order) == Err::<Seq<u8>, Error>(e),
        },
        input@.len() < HEADER_LEN ==> output == Err::<Vec<u8>, Error>(Error::Truncated),
        output matches Ok(bytes) ==> bytes@.len() >= HEADER_LEN && bytes@.take(HEADER_LEN as int)
            == input@.take(HEADER_LEN as int),
{
    if input.len() < HEADER_LEN {
        return Err(Error::Truncated);
    }
    let sections: Vec<SectionDescriptor> = match read_table(input, order) {
        Ok(sections) => sections,
        Err(e) => {
            return Err(e);
        },
    };
    let mut out: Vec<u8> = Vec::new();
    append_bytes(&mut out, &input[0..HEADER_LEN]);
    assert(out@ =~= input@.take(HEADER_LEN as int));
    proof {
        lemma_restored_keeps_start(input@, sections@, 0, out@);
    }
    restore_sections(input, &sections, out)
}

} // verus!
