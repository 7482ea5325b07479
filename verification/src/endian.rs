//! Signed 32-bit integers as four bytes, in either byte order.
//!
//! A container stores its descriptors in the byte order of the machine that
//! wrote it, so every function that reads or writes one is told the order.

use vstd::prelude::*;

verus! {

/// The order in which the four bytes of an integer are stored.
#[derive(Clone, Copy, Debug, PartialEq, Eq, Structural)]
pub enum ByteOrder {
    /// Least significant byte first.
    Little,
    /// Most significant byte first.
    Big,
}

/// The unsigned number that the two's-complement form of `x` spells.
pub open spec fn unsigned_of(x: i32) -> int {
    if x < 0 {
        x + 0x1_0000_0000
    } else {
        x as int
    }
}

/// The signed integer whose two's-complement form spells `u`, for `u` below
/// 2^32.
pub open spec fn signed_of(u: int) -> i32 {
    if u >= 0x8000_0000 {
        (u - 0x1_0000_0000) as i32
    } else {
        u as i32
    }
}

/// The four digits of `u` in base 256, least significant first.
pub open spec fn digits_of(u: int) -> Seq<u8> {
    seq![
        (u % 0x100) as u8,
        (u / 0x100 % 0x100) as u8,
        (u / 0x1_0000 % 0x100) as u8,
        (u / 0x100_0000 % 0x100) as u8,
    ]
}

/// The number that four digits in base 256 spell, least significant first.
pub open spec fn number_of(digits: Seq<u8>) -> int {
    digits[0] + 0x100 * digits[1] + 0x1_0000 * digits[2] + 0x100_0000 * digits[3]
}

/// Four bytes read in `order`, as digits with the least significant first.
pub open spec fn least_first(bytes: Seq<u8>, order: ByteOrder) -> Seq<u8> {
    match order {
        ByteOrder::Little => bytes,
        ByteOrder::Big => seq![bytes[3], bytes[2], bytes[1], bytes[0]],
    }
}

/// The four bytes that store `x` in `order`.
pub open spec fn i32_bytes(x: i32, order: ByteOrder) -> Seq<u8> {
    least_first(digits_of(unsigned_of(x)), order)
}

/// The integer that the first four bytes of `bytes` store in `order`.
pub open spec fn i32_of_bytes(bytes: Seq<u8>, order: ByteOrder) -> i32 {
    signed_of(number_of(least_first(bytes, order)))
}

/// Reading back the bytes that store `x` gives `x`, in either order.
pub proof fn lemma_i32_bytes_read_back(x: i32, order: ByteOrder)
    ensures
        i32_bytes(x, order).len() == 4,
        i32_of_bytes(i32_bytes(x, order), order) == x,
{
    let u = unsigned_of(x);
    let d = digits_of(u);
    assert(0 <= u < 0x1_0000_0000);
    assert(number_of(d) == u);
    assert(least_first(least_first(d, order), order) =~= d);
}

/// Stores `x` as four bytes in `order`.
pub fn encode_i32(x: i32, order: ByteOrder) -> (bytes: [u8; 4])
    ensures
        bytes@ == i32_bytes(x, order),
{
    let u: u64 = if x < 0 {
        (x as i64 + 0x1_0000_0000) as u64
    } else {
        x as u64
    };
    let b0: u8 = (u % 0x100) as u8;
    let b1: u8 = (u / 0x100 % 0x100) as u8;
    let b2: u8 = (u / 0x1_0000 % 0x100) as u8;
    let b3: u8 = (u / 0x100_0000 % 0x100) as u8;
    let bytes: [u8; 4] = match order {
        ByteOrder::Little => [b0, b1, b2, b3],
        ByteOrder::Big => [b3, b2, b1, b0],
    };
    assert(bytes@ =~= i32_bytes(x, order));
    bytes
}

/// Reads the integer that `bytes` store in `order`.
pub fn decode_i32(bytes: [u8; 4], order: ByteOrder) -> (x: i32)
    ensures
        x == i32_of_bytes(bytes@, order),
{
    let (d0, d1, d2, d3): (u8, u8, u8, u8) = match order {
        ByteOrder::Little => (bytes[0], bytes[1], bytes[2], bytes[3]),
        ByteOrder::Big => (bytes[3], bytes[2], bytes[1], bytes[0]),
    };
    let u: i64 = d0 as i64 + 0x100 * (d1 as i64) + 0x1_0000 * (d2 as i64) + 0x100_0000 * (d3 as i64);
    if u >= 0x8000_0000 {
        (u - 0x1_0000_0000) as i32
    } else {
        u as i32
    }
}

} // verus!
