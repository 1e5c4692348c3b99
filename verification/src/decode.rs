//! Typed decoding atop [`Reader`]: a capability trait for single-byte types
//! and one for multi-byte integers with an explicit or native byte order.

use vstd::prelude::*;

use crate::ints::{as_signed, be_value, le_value, lemma_le_value_bound};
use crate::source::native_is_little;
use crate::{EndOfInput, Reader};
use vstd::arithmetic::power2::lemma2_to64;

verus! {

/// A type whose value is decoded from a single byte of input.
pub trait Decode: Sized {
    /// The value the byte `b` decodes to.
    spec fn from_byte(b: u8) -> Self;

    /// Attempt to decode the type from the reader: consumes exactly one byte,
    /// or fails atomically with the cursor unchanged.
    fn decode(reader: &mut Reader) -> (r: Result<Self, EndOfInput>)
        ensures
            final(reader).buffer() == old(reader).buffer(),
            old(reader).spec_remaining() >= 1 ==> (r matches Ok(v)
                && v == Self::from_byte(old(reader).buffer()[old(reader).pos() as int])
                && final(reader).pos() == old(reader).pos() + 1),
            old(reader).spec_remaining() < 1 ==> (r matches Err(e) && e == EndOfInput
                && final(reader).pos() == old(reader).pos()),
    ;
}

impl Decode for u8 {
    open spec fn from_byte(b: u8) -> u8 {
        b
    }

    fn decode(reader: &mut Reader) -> (r: Result<u8, EndOfInput>) {
        reader.read_byte()
    }
}

impl Decode for i8 {
    open spec fn from_byte(b: u8) -> i8 {
        as_signed(b as nat, 0x100) as i8
    }

    fn decode(reader: &mut Reader) -> (r: Result<i8, EndOfInput>) {
        reader.read_i8()
    }
}

/// A type whose value is decoded from a fixed number of input bytes, with a
/// representation that differs between the two byte orders.
pub trait DecodeEndian: Sized {
    /// How many bytes one value occupies.
    spec fn width() -> nat;

    /// The value `s` decodes to in little-endian byte order.
    spec fn from_le(s: Seq<u8>) -> Self;

    /// The value `s` decodes to in big-endian byte order.
    spec fn from_be(s: Seq<u8>) -> Self;

    /// Decode `Self` in little-endian byte order: consumes exactly
    /// [`width`](Self::width) bytes, or fails atomically.
    fn decode_le(reader: &mut Reader) -> (r: Result<Self, EndOfInput>)
        ensures
            final(reader).buffer() == old(reader).buffer(),
            old(reader).spec_remaining() >= Self::width() ==> (r matches Ok(v)
                && v == Self::from_le(old(reader).buffer().subrange(
                    old(reader).pos() as int,
                    (old(reader).pos() + Self::width()) as int,
                ))
                && final(reader).pos() == old(reader).pos() + Self::width()),
            old(reader).spec_remaining() < Self::width() ==> (r matches Err(e)
                && e == EndOfInput
                && final(reader).pos() == old(reader).pos()),
    ;

    /// Decode `Self` in big-endian byte order: consumes exactly
    /// [`width`](Self::width) bytes, or fails atomically.
    fn decode_be(reader: &mut Reader) -> (r: Result<Self, EndOfInput>)
        ensures
            final(reader).buffer() == old(reader).buffer(),
            old(reader).spec_remaining() >= Self::width() ==> (r matches Ok(v)
                && v == Self::from_be(old(reader).buffer().subrange(
                    old(reader).pos() as int,
                    (old(reader).pos() + Self::width()) as int,
                ))
                && final(reader).pos() == old(reader).pos() + Self::width()),
            old(reader).spec_remaining() < Self::width() ==> (r matches Err(e)
                && e == EndOfInput
                && final(reader).pos() == old(reader).pos()),
    ;

    /// Decode `Self` in native-endian byte order: the result is one of the
    /// two fixed orders, whichever this platform uses.
    fn decode_ne(reader: &mut Reader) -> (r: Result<Self, EndOfInput>)
        ensures
            final(reader).buffer() == old(reader).buffer(),
            old(reader).spec_remaining() >= Self::width() ==> (r matches Ok(v)
                && (v == Self::from_le(old(reader).buffer().subrange(
                    old(reader).pos() as int,
                    (old(reader).pos() + Self::width()) as int,
                )) || v == Self::from_be(old(reader).buffer().subrange(
                    old(reader).pos() as int,
                    (old(reader).pos() + Self::width()) as int,
                )))
                && final(reader).pos() == old(reader).pos() + Self::width()),
            old(reader).spec_remaining() < Self::width() ==> (r matches Err(e)
                && e == EndOfInput
                && final(reader).pos() == old(reader).pos()),
    {
        if native_is_little() {
            Self::decode_le(reader)
        } else {
            Self::decode_be(reader)
        }
    }
}

impl DecodeEndian for u16 {
    open spec fn width() -> nat {
        2
    }

    open spec fn from_le(s: Seq<u8>) -> u16 {
        le_value(s) as u16
    }

    open spec fn from_be(s: Seq<u8>) -> u16 {
        be_value(s) as u16
    }

    fn decode_le(reader: &mut Reader) -> (r: Result<u16, EndOfInput>) {
        match reader.read_uint(2, true) {
            Ok(v) => {
                proof {
                    lemma_le_value_bound(old(reader).buffer().subrange(
                        old(reader).pos() as int,
                        old(reader).pos() + 2int,
                    ));
                    lemma2_to64();
                }
                Ok(v as u16)
            },
            Err(e) => Err(e),
        }
    }

    fn decode_be(reader: &mut Reader) -> (r: Result<u16, EndOfInput>) {
        reader.read_u16()
    }
}

impl DecodeEndian for u32 {
    open spec fn width() -> nat {
        4
    }

    open spec fn from_le(s: Seq<u8>) -> u32 {
        le_value(s) as u32
    }

    open spec fn from_be(s: Seq<u8>) -> u32 {
        be_value(s) as u32
    }

    fn decode_le(reader: &mut Reader) -> (r: Result<u32, EndOfInput>) {
        match reader.read_uint(4, true) {
            Ok(v) => {
                proof {
                    lemma_le_value_bound(old(reader).buffer().subrange(
                        old(reader).pos() as int,
                        old(reader).pos() + 4int,
                    ));
                    lemma2_to64();
                }
                Ok(v as u32)
            },
            Err(e) => Err(e),
        }
    }

    fn decode_be(reader: &mut Reader) -> (r: Result<u32, EndOfInput>) {
        reader.read_u32()
    }
}

impl DecodeEndian for u64 {
    open spec fn width() -> nat {
        8
    }

    open spec fn from_le(s: Seq<u8>) -> u64 {
        le_value(s) as u64
    }

    open spec fn from_be(s: Seq<u8>) -> u64 {
        be_value(s) as u64
    }

    fn decode_le(reader: &mut Reader) -> (r: Result<u64, EndOfInput>) {
        match reader.read_uint(8, true) {
            Ok(v) => {
                proof {
                    lemma_le_value_bound(old(reader).buffer().subrange(
                        old(reader).pos() as int,
                        old(reader).pos() + 8int,
                    ));
                    lemma2_to64();
                }
                Ok(v as u64)
            },
            Err(e) => Err(e),
        }
    }

    fn decode_be(reader: &mut Reader) -> (r: Result<u64, EndOfInput>) {
        reader.read_u64()
    }
}

impl DecodeEndian for u128 {
    open spec fn width() -> nat {
        16
    }

    open spec fn from_le(s: Seq<u8>) -> u128 {
        le_value(s) as u128
    }

    open spec fn from_be(s: Seq<u8>) -> u128 {
        be_value(s) as u128
    }

    fn decode_le(reader: &mut Reader) -> (r: Result<u128, EndOfInput>) {
        reader.read_uint(16, true)
    }

    fn decode_be(reader: &mut Reader) -> (r: Result<u128, EndOfInput>) {
        reader.read_u128()
    }
}

impl DecodeEndian for i16 {
    open spec fn width() -> nat {
        2
    }

    open spec fn from_le(s: Seq<u8>) -> i16 {
        as_signed(le_value(s), 0x10000) as i16
    }

    open spec fn from_be(s: Seq<u8>) -> i16 {
        as_signed(be_value(s), 0x10000) as i16
    }

    fn decode_le(reader: &mut Reader) -> (r: Result<i16, EndOfInput>) {
        match reader.read_uint(2, true) {
            Ok(v) => {
                proof {
                    lemma_le_value_bound(old(reader).buffer().subrange(
                        old(reader).pos() as int,
                        old(reader).pos() + 2int,
                    ));
                    lemma2_to64();
                }
                if v < 0x8000 {
                    Ok(v as i16)
                } else {
                    Ok(-((0xFFFFu128 - v) as i16) - 1)
                }
            },
            Err(e) => Err(e),
        }
    }

    fn decode_be(reader: &mut Reader) -> (r: Result<i16, EndOfInput>) {
        reader.read_i16()
    }
}

impl DecodeEndian for i32 {
    open spec fn width() -> nat {
        4
    }

    open spec fn from_le(s: Seq<u8>) -> i32 {
        as_signed(le_value(s), 0x100000000) as i32
    }

    open spec fn from_be(s: Seq<u8>) -> i32 {
        as_signed(be_value(s), 0x100000000) as i32
    }

    fn decode_le(reader: &mut Reader) -> (r: Result<i32, EndOfInput>) {
        match reader.read_uint(4, true) {
            Ok(v) => {
                proof {
                    lemma_le_value_bound(old(reader).buffer().subrange(
                        old(reader).pos() as int,
                        old(reader).pos() + 4int,
                    ));
                    lemma2_to64();
                }
                if v < 0x80000000 {
                    Ok(v as i32)
                } else {
                    Ok(-((0xFFFFFFFFu128 - v) as i32) - 1)
                }
            },
            Err(e) => Err(e),
        }
    }

    fn decode_be(reader: &mut Reader) -> (r: Result<i32, EndOfInput>) {
        reader.read_i32()
    }
}

impl DecodeEndian for i64 {
    open spec fn width() -> nat {
        8
    }

    open spec fn from_le(s: Seq<u8>) -> i64 {
        as_signed(le_value(s), 0x10000000000000000) as i64
    }

    open spec fn from_be(s: Seq<u8>) -> i64 {
        as_signed(be_value(s), 0x10000000000000000) as i64
    }

    fn decode_le(reader: &mut Reader) -> (r: Result<i64, EndOfInput>) {
        match reader.read_uint(8, true) {
            Ok(v) => {
                proof {
                    lemma_le_value_bound(old(reader).buffer().subrange(
                        old(reader).pos() as int,
                        old(reader).pos() + 8int,
                    ));
                    lemma2_to64();
                }
                if v < 0x8000000000000000 {
                    Ok(v as i64)
                } else {
                    Ok(-((0xFFFFFFFFFFFFFFFFu128 - v) as i64) - 1)
                }
            },
            Err(e) => Err(e),
        }
    }

    fn decode_be(reader: &mut Reader) -> (r: Result<i64, EndOfInput>) {
        reader.read_i64()
    }
}

impl DecodeEndian for i128 {
    open spec fn width() -> nat {
        16
    }

    open spec fn from_le(s: Seq<u8>) -> i128 {
        as_signed(le_value(s), 0x80000000000000000000000000000000nat * 2) as i128
    }

    open spec fn from_be(s: Seq<u8>) -> i128 {
        as_signed(be_value(s), 0x80000000000000000000000000000000nat * 2) as i128
    }

    fn decode_le(reader: &mut Reader) -> (r: Result<i128, EndOfInput>) {
        match reader.read_uint(16, true) {
            Ok(v) => {
                if v < 0x80000000000000000000000000000000 {
                    Ok(v as i128)
                } else {
                    Ok(-((0xFFFFFFFFFFFFFFFFFFFFFFFFFFFFFFFFu128 - v) as i128) - 1)
                }
            },
            Err(e) => Err(e),
        }
    }

    fn decode_be(reader: &mut Reader) -> (r: Result<i128, EndOfInput>) {
        reader.read_i128()
    }
}

} // verus!
