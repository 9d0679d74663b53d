//! Big-endian encoding of signed 32-bit integers, as the protocol puts them on the wire.

use vstd::arithmetic::div_mod::lemma_fundamental_div_mod_converse;
use vstd::prelude::*;

verus! {

/// The signed 32-bit integer that four bytes spell in big-endian two's complement.
pub open spec fn be_i32(b0: u8, b1: u8, b2: u8, b3: u8) -> int {
    let unsigned = b0 as int * 0x100_0000 + b1 as int * 0x1_0000 + b2 as int * 0x100 + b3 as int;
    if unsigned >= 0x8000_0000 {
        unsigned - 0x1_0000_0000
    } else {
        unsigned
    }
}

/// The byte at position `index` (0 is the most significant) of the big-endian
/// two's complement form of `value`.
pub open spec fn be_byte(value: int, index: int) -> int {
    let unsigned = if value < 0 {
        value + 0x1_0000_0000
    } else {
        value
    };
    if index == 0 {
        unsigned / 0x100_0000
    } else if index == 1 {
        (unsigned / 0x1_0000) % 0x100
    } else if index == 2 {
        (unsigned / 0x100) % 0x100
    } else {
        unsigned % 0x100
    }
}

/// The four bytes of `value` in big-endian two's complement.
pub open spec fn be_bytes(value: int) -> Seq<u8> {
    seq![
        be_byte(value, 0) as u8,
        be_byte(value, 1) as u8,
        be_byte(value, 2) as u8,
        be_byte(value, 3) as u8,
    ]
}

/// Reads a big-endian signed 32-bit integer from four bytes.
pub fn i32_from_be(b0: u8, b1: u8, b2: u8, b3: u8) -> (value: i32)
    ensures
        value == be_i32(b0, b1, b2, b3),
{
    let unsigned: u32 = (b0 as u32) * 0x100_0000 + (b1 as u32) * 0x1_0000 + (b2 as u32) * 0x100 + (
    b3 as u32);
    if unsigned >= 0x8000_0000 {
        let low: u32 = unsigned - 0x8000_0000;
        (low as i32) + i32::MIN
    } else {
        unsigned as i32
    }
}

/// Writes a signed 32-bit integer as four big-endian bytes.
pub fn i32_to_be(value: i32) -> (bytes: [u8; 4])
    ensures
        bytes@ == be_bytes(value as int),
{
    let unsigned: u32 = if value < 0 {
        ((value - i32::MIN) as u32) + 0x8000_0000
    } else {
        value as u32
    };
    let bytes: [u8; 4] = [
        (unsigned / 0x100_0000) as u8,
        ((unsigned / 0x1_0000) % 0x100) as u8,
        ((unsigned / 0x100) % 0x100) as u8,
        (unsigned % 0x100) as u8,
    ];
    assert(bytes@ =~= be_bytes(value as int));
    bytes
}

/// The four base-256 digits of a 32-bit pattern put it together again.
proof fn lemma_digits_compose(unsigned: int)
    requires
        0 <= unsigned < 0x1_0000_0000,
    ensures
        0 <= unsigned / 0x100_0000 < 0x100,
        (unsigned / 0x100_0000) * 0x100_0000 + ((unsigned / 0x1_0000) % 0x100) * 0x1_0000 + ((unsigned
            / 0x100) % 0x100) * 0x100 + unsigned % 0x100 == unsigned,
{
    let high = unsigned / 0x1_0000;
    let upper = unsigned / 0x100;
    assert(unsigned == upper * 0x100 + unsigned % 0x100);
    assert(upper == (upper / 0x100) * 0x100 + upper % 0x100);
    assert(upper / 0x100 == high);
    assert(high == (high / 0x100) * 0x100 + high % 0x100);
    assert(high / 0x100 == unsigned / 0x100_0000);
}

/// A 32-bit pattern put together from four base-256 digits has those digits.
proof fn lemma_digits_split(d0: int, d1: int, d2: int, d3: int)
    requires
        0 <= d0 < 0x100,
        0 <= d1 < 0x100,
        0 <= d2 < 0x100,
        0 <= d3 < 0x100,
    ensures
        ({
            let unsigned = d0 * 0x100_0000 + d1 * 0x1_0000 + d2 * 0x100 + d3;
            &&& 0 <= unsigned < 0x1_0000_0000
            &&& unsigned / 0x100_0000 == d0
            &&& (unsigned / 0x1_0000) % 0x100 == d1
            &&& (unsigned / 0x100) % 0x100 == d2
            &&& unsigned % 0x100 == d3
        }),
{
    let unsigned = d0 * 0x100_0000 + d1 * 0x1_0000 + d2 * 0x100 + d3;
    let high = d0 * 0x100 + d1;
    let upper = high * 0x100 + d2;
    lemma_fundamental_div_mod_converse(unsigned, 0x100, upper, d3);
    lemma_fundamental_div_mod_converse(upper, 0x100, high, d2);
    lemma_fundamental_div_mod_converse(unsigned, 0x1_0000, high, d2 * 0x100 + d3);
    lemma_fundamental_div_mod_converse(high, 0x100, d0, d1);
    lemma_fundamental_div_mod_converse(
        unsigned,
        0x100_0000,
        d0,
        d1 * 0x1_0000 + d2 * 0x100 + d3,
    );
}

/// Decoding the encoding of an integer gives the integer back.
pub proof fn lemma_be_roundtrip(value: int)
    requires
        i32::MIN <= value <= i32::MAX,
    ensures
        be_i32(
            be_bytes(value)[0],
            be_bytes(value)[1],
            be_bytes(value)[2],
            be_bytes(value)[3],
        ) == value,
{
    let unsigned = if value < 0 {
        value + 0x1_0000_0000
    } else {
        value
    };
    lemma_digits_compose(unsigned);
}

/// Encoding the integer that four bytes spell gives the four bytes back.
pub proof fn lemma_be_bytes_of_decoded(b0: u8, b1: u8, b2: u8, b3: u8)
    ensures
        be_bytes(be_i32(b0, b1, b2, b3)) == seq![b0, b1, b2, b3],
{
    lemma_digits_split(b0 as int, b1 as int, b2 as int, b3 as int);
    let value = be_i32(b0, b1, b2, b3);
    assert(be_byte(value, 0) == b0);
    assert(be_byte(value, 1) == b1);
    assert(be_byte(value, 2) == b2);
    assert(be_byte(value, 3) == b3);
    assert(be_bytes(value) =~= seq![b0, b1, b2, b3]);
}

} // verus!
