//! Integers as bytes, in the byte order of the machine.
use vstd::endian::Endian;
use vstd::prelude::*;

verus! {

/// The two bytes of `x` in memory.
pub open spec fn u16_ne(x: u16) -> Seq<u8> {
    let low = (x % 256) as u8;
    let high = (x / 256) as u8;
    match vstd::endian::endianness() {
        Endian::Little => seq![low, high],
        Endian::Big => seq![high, low],
    }
}

/// The integer whose two bytes in memory are `b0` and `b1`.
pub open spec fn u16_of(b0: u8, b1: u8) -> u16 {
    match vstd::endian::endianness() {
        Endian::Little => (b0 + 256 * b1) as u16,
        Endian::Big => (256 * b0 + b1) as u16,
    }
}

/// The four bytes of `x` in memory.
pub open spec fn u32_ne(x: u32) -> Seq<u8> {
    let b0 = (x % 256) as u8;
    let b1 = (x / 256 % 256) as u8;
    let b2 = (x / 65536 % 256) as u8;
    let b3 = (x / 16777216) as u8;
    match vstd::endian::endianness() {
        Endian::Little => seq![b0, b1, b2, b3],
        Endian::Big => seq![b3, b2, b1, b0],
    }
}

/// The integer whose four bytes in memory are these.
pub open spec fn u32_of(b0: u8, b1: u8, b2: u8, b3: u8) -> u32 {
    match vstd::endian::endianness() {
        Endian::Little => (b0 + 256 * b1 + 65536 * b2 + 16777216 * b3) as u32,
        Endian::Big => (16777216 * b0 + 65536 * b1 + 256 * b2 + b3) as u32,
    }
}

/// `u16::to_ne_bytes`: the memory representation of `x`, in native byte order.
#[verifier::external_body]
pub(crate) fn u16_to_ne_bytes(x: u16) -> (b: [u8; 2])
    ensures
        b@ == u16_ne(x),
{
    x.to_ne_bytes()
}

/// `u16::from_ne_bytes`: the integer with the memory representation `b`.
#[verifier::external_body]
pub(crate) fn u16_from_ne_bytes(b: [u8; 2]) -> (x: u16)
    ensures
        x == u16_of(b@[0], b@[1]),
{
    u16::from_ne_bytes(b)
}

/// `u32::from_ne_bytes`: the integer with the memory representation `b`.
#[verifier::external_body]
pub(crate) fn u32_from_ne_bytes(b: [u8; 4]) -> (x: u32)
    ensures
        x == u32_of(b@[0], b@[1], b@[2], b@[3]),
{
    u32::from_ne_bytes(b)
}

/// Reading back the two bytes of an integer gives the integer.
pub proof fn law_u16_roundtrip(x: u16)
    ensures
        u16_ne(x).len() == 2,
        u16_of(u16_ne(x)[0], u16_ne(x)[1]) == x,
{
}

/// Reading back the four bytes of an integer gives the integer.
pub proof fn law_u32_roundtrip(x: u32)
    ensures
        u32_ne(x).len() == 4,
        u32_of(u32_ne(x)[0], u32_ne(x)[1], u32_ne(x)[2], u32_ne(x)[3]) == x,
{
}

/// Any four bytes are the bytes of the integer read from them.
pub proof fn law_u32_bytes_roundtrip(b0: u8, b1: u8, b2: u8, b3: u8)
    ensures
        u32_ne(u32_of(b0, b1, b2, b3)) == seq![b0, b1, b2, b3],
{
    let x = u32_of(b0, b1, b2, b3);
    match vstd::endian::endianness() {
        Endian::Little => lemma_digits(b0, b1, b2, b3),
        Endian::Big => lemma_digits(b3, b2, b1, b0),
    }
    assert(u32_ne(x) =~= seq![b0, b1, b2, b3]);
}

/// The digits of a number to the base 256.
proof fn lemma_digits(b0: u8, b1: u8, b2: u8, b3: u8)
    ensures
        ({
            let x = b0 + 256 * b1 + 65536 * b2 + 16777216 * b3;
            &&& x % 256 == b0
            &&& x / 256 % 256 == b1
            &&& x / 65536 % 256 == b2
            &&& x / 16777216 == b3
            &&& x <= u32::MAX
        }),
{
    let x = b0 + 256 * b1 + 65536 * b2 + 16777216 * b3;
    assert(x / 256 == b1 + 256 * b2 + 65536 * b3);
    assert(x / 65536 == b2 + 256 * b3);
}

/// Any two bytes are the bytes of the integer read from them.
pub proof fn law_u16_bytes_roundtrip(b0: u8, b1: u8)
    ensures
        u16_ne(u16_of(b0, b1)) == seq![b0, b1],
{
    assert(u16_ne(u16_of(b0, b1)) =~= seq![b0, b1]);
}

/// The two bytes of an integer are its low and its high byte, in the order of
/// the machine.
pub proof fn law_u16_bytes(x: u16)
    ensures
        u16_ne(x).len() == 2,
        vstd::endian::endianness() is Little ==> u16_ne(x)[0] + 256 * u16_ne(x)[1] == x,
        vstd::endian::endianness() is Big ==> u16_ne(x)[1] + 256 * u16_ne(x)[0] == x,
{
}

/// The four bytes of an integer are its digits to the base 256, in the order of
/// the machine.
pub proof fn law_u32_bytes(x: u32)
    ensures
        u32_ne(x).len() == 4,
        vstd::endian::endianness() is Little ==> u32_ne(x)[0] + 256 * u32_ne(x)[1] + 65536
            * u32_ne(x)[2] + 16777216 * u32_ne(x)[3] == x,
        vstd::endian::endianness() is Big ==> u32_ne(x)[3] + 256 * u32_ne(x)[2] + 65536
            * u32_ne(x)[1] + 16777216 * u32_ne(x)[0] == x,
{
}

} // verus!
