//! Integer reassembly: the meaning of a byte sequence as an integer, and the
//! named big-endian reader methods on [`Reader`].

use vstd::prelude::*;

use crate::source::bytes_len;
use crate::{EndOfInput, Reader};
use vstd::arithmetic::power2::{
    lemma2_to64, lemma_pow2_adds, lemma_pow2_strictly_increases, pow2,
};

verus! {

/// The value of `s` read as a big-endian unsigned integer: the first byte is
/// the most significant.
pub open spec fn be_value(s: Seq<u8>) -> nat
    decreases s.len(),
{
    if s.len() == 0 {
        0
    } else {
        be_value(s.drop_last()) * 256 + (s.last() as nat)
    }
}

/// The value of `s` read as a little-endian unsigned integer: the first byte
/// is the least significant.
pub open spec fn le_value(s: Seq<u8>) -> nat
    decreases s.len(),
{
    if s.len() == 0 {
        0
    } else {
        (s.first() as nat) + 256 * le_value(s.drop_first())
    }
}

/// Two's-complement reinterpretation of `v` modulo `m` (with `m` the power of
/// two matching the integer's width).
pub open spec fn as_signed(v: nat, m: nat) -> int {
    if 2 * v < m {
        v as int
    } else {
        v - m
    }
}

/// A big-endian value fits in as many bits as it has bytes times eight.
pub proof fn lemma_be_value_bound(s: Seq<u8>)
    ensures
        be_value(s) < pow2(8 * s.len()),
    decreases s.len(),
{
    lemma2_to64();
    if s.len() > 0 {
        lemma_be_value_bound(s.drop_last());
        lemma_pow2_adds(8 * (s.len() - 1) as nat, 8);
    }
}

/// A little-endian value fits in as many bits as it has bytes times eight.
pub proof fn lemma_le_value_bound(s: Seq<u8>)
    ensures
        le_value(s) < pow2(8 * s.len()),
    decreases s.len(),
{
    lemma2_to64();
    if s.len() > 0 {
        lemma_le_value_bound(s.drop_first());
        lemma_pow2_adds(8 * (s.len() - 1) as nat, 8);
    }
}

impl Reader {
    /// Reads the next `n` bytes as one unsigned integer in the requested byte
    /// order, or fails atomically.
    pub(crate) fn read_uint(&mut self, n: usize, little: bool) -> (r: Result<u128, EndOfInput>)
        requires
            n <= 16,
        ensures
            final(self).buffer() == old(self).buffer(),
            old(self).spec_remaining() >= n ==> (r matches Ok(v)
                && v as nat == (if little {
                    le_value(old(self).buffer().subrange(
                        old(self).pos() as int,
                        old(self).pos() + n,
                    ))
                } else {
                    be_value(old(self).buffer().subrange(
                        old(self).pos() as int,
                        old(self).pos() + n,
                    ))
                })
                && final(self).pos() == old(self).pos() + n),
            old(self).spec_remaining() < n ==> (r == Err::<u128, EndOfInput>(EndOfInput)
                && final(self).pos() == old(self).pos()),
    {
        proof {
            use_type_invariant(&*self);
            lemma2_to64();
        }
        let srclen = bytes_len(&self.inner);
        if n > srclen - self.index {
            return Err(EndOfInput);
        }
        let start = self.index;
        let ghost chunk = self.buffer().subrange(start as int, start + n);
        let mut acc: u128 = 0;
        let mut i: usize = 0;
        while i < n
            invariant
                i <= n <= 16,
                self == old(self),
                start == self.index,
                srclen == self.buffer().len(),
                start + n <= srclen,
                chunk == self.buffer().subrange(start as int, start + n),
                chunk.len() == n,
                little ==> acc as nat == le_value(chunk.skip(n - i)),
                !little ==> acc as nat == be_value(chunk.take(i as int)),
                acc < pow2(8 * i as nat),
            decreases n - i,
        {
            proof {
                lemma_pow2_adds(8 * i as nat, 8);
                lemma2_to64();
                if 8 * (i + 1) < 128 {
                    lemma_pow2_strictly_increases(8 * (i + 1) as nat, 128);
                }
                lemma_pow2_adds(64, 64);
                assert(pow2(64) * pow2(64) == 0x80000000000000000000000000000000nat * 2);
            }
            let b = if little {
                self.byte_at(start + (n - 1 - i))
            } else {
                self.byte_at(start + i)
            };
            acc = acc * 256 + (b as u128);
            i = i + 1;
            proof {
                if little {
                    assert(chunk.skip(n - i).drop_first() =~= chunk.skip(n - i + 1));
                } else {
                    assert(chunk.take(i as int).drop_last() =~= chunk.take(i - 1));
                }
            }
        }
        proof {
            if little {
                assert(chunk.skip(0) =~= chunk);
            } else {
                assert(chunk.take(n as int) =~= chunk);
            }
        }
        self.index = start + n;
        Ok(acc)
    }

    /// Reads a `u8`. Identical to [`read_byte`](Self::read_byte).
    pub fn read_u8(&mut self) -> (r: Result<u8, EndOfInput>)
        ensures
            final(self).buffer() == old(self).buffer(),
            old(self).spec_remaining() >= 1 ==> (r matches Ok(v)
                && v == old(self).buffer()[old(self).pos() as int]
                && final(self).pos() == old(self).pos() + 1),
            old(self).spec_remaining() < 1 ==> (r == Err::<u8, EndOfInput>(EndOfInput)
                && final(self).pos() == old(self).pos()),
    {
        self.read_byte()
    }

    /// Reads an `i8`: the next byte reinterpreted as two's complement.
    pub fn read_i8(&mut self) -> (r: Result<i8, EndOfInput>)
        ensures
            final(self).buffer() == old(self).buffer(),
            old(self).spec_remaining() >= 1 ==> (r matches Ok(v)
                && v as int == as_signed(old(self).buffer()[old(self).pos() as int] as nat, 0x100)
                && final(self).pos() == old(self).pos() + 1),
            old(self).spec_remaining() < 1 ==> (r == Err::<i8, EndOfInput>(EndOfInput)
                && final(self).pos() == old(self).pos()),
    {
        match self.read_byte() {
            Ok(b) => {
                if b < 0x80 {
                    Ok(b as i8)
                } else {
                    Ok(-((0xFFu8 - b) as i8) - 1)
                }
            },
            Err(e) => Err(e),
        }
    }

    /// Reads a `u16` in big-endian byte order.
    pub fn read_u16(&mut self) -> (r: Result<u16, EndOfInput>)
        ensures
            final(self).buffer() == old(self).buffer(),
            old(self).spec_remaining() >= 2 ==> (r matches Ok(v)
                && v as nat == be_value(old(self).buffer().subrange(
                    old(self).pos() as int,
                    old(self).pos() + 2int,
                ))
                && final(self).pos() == old(self).pos() + 2),
            old(self).spec_remaining() < 2 ==> (r == Err::<u16, EndOfInput>(EndOfInput)
                && final(self).pos() == old(self).pos()),
    {
        match self.read_uint(2, false) {
            Ok(v) => {
                proof {
                    lemma_be_value_bound(old(self).buffer().subrange(
                        old(self).pos() as int,
                        old(self).pos() + 2int,
                    ));
                    lemma2_to64();
                }
                Ok(v as u16)
            },
            Err(e) => Err(e),
        }
    }

    /// Reads a `u32` in big-endian byte order.
    pub fn read_u32(&mut self) -> (r: Result<u32, EndOfInput>)
        ensures
            final(self).buffer() == old(self).buffer(),
            old(self).spec_remaining() >= 4 ==> (r matches Ok(v)
                && v as nat == be_value(old(self).buffer().subrange(
                    old(self).pos() as int,
                    old(self).pos() + 4int,
                ))
                && final(self).pos() == old(self).pos() + 4),
            old(self).spec_remaining() < 4 ==> (r == Err::<u32, EndOfInput>(EndOfInput)
                && final(self).pos() == old(self).pos()),
    {
        match self.read_uint(4, false) {
            Ok(v) => {
                proof {
                    lemma_be_value_bound(old(self).buffer().subrange(
                        old(self).pos() as int,
                        old(self).pos() + 4int,
                    ));
                    lemma2_to64();
                }
                Ok(v as u32)
            },
            Err(e) => Err(e),
        }
    }

    /// Reads a `u64` in big-endian byte order.
    pub fn read_u64(&mut self) -> (r: Result<u64, EndOfInput>)
        ensures
            final(self).buffer() == old(self).buffer(),
            old(self).spec_remaining() >= 8 ==> (r matches Ok(v)
                && v as nat == be_value(old(self).buffer().subrange(
                    old(self).pos() as int,
                    old(self).pos() + 8int,
                ))
                && final(self).pos() == old(self).pos() + 8),
            old(self).spec_remaining() < 8 ==> (r == Err::<u64, EndOfInput>(EndOfInput)
                && final(self).pos() == old(self).pos()),
    {
        match self.read_uint(8, false) {
            Ok(v) => {
                proof {
                    lemma_be_value_bound(old(self).buffer().subrange(
                        old(self).pos() as int,
                        old(self).pos() + 8int,
                    ));
                    lemma2_to64();
                }
                Ok(v as u64)
            },
            Err(e) => Err(e),
        }
    }

    /// Reads a `u128` in big-endian byte order.
    pub fn read_u128(&mut self) -> (r: Result<u128, EndOfInput>)
        ensures
            final(self).buffer() == old(self).buffer(),
            old(self).spec_remaining() >= 16 ==> (r matches Ok(v)
                && v as nat == be_value(old(self).buffer().subrange(
                    old(self).pos() as int,
                    old(self).pos() + 16int,
                ))
                && final(self).pos() == old(self).pos() + 16),
            old(self).spec_remaining() < 16 ==> (r == Err::<u128, EndOfInput>(EndOfInput)
                && final(self).pos() == old(self).pos()),
    {
        self.read_uint(16, false)
    }

    /// Reads an `i16` in big-endian byte order.
    pub fn read_i16(&mut self) -> (r: Result<i16, EndOfInput>)
        ensures
            final(self).buffer() == old(self).buffer(),
            old(self).spec_remaining() >= 2 ==> (r matches Ok(v)
                && v as int == as_signed(
                    be_value(old(self).buffer().subrange(
                        old(self).pos() as int,
                        old(self).pos() + 2int,
                    )),
                    0x10000,
                )
                && final(self).pos() == old(self).pos() + 2),
            old(self).spec_remaining() < 2 ==> (r == Err::<i16, EndOfInput>(EndOfInput)
                && final(self).pos() == old(self).pos()),
    {
        match self.read_uint(2, false) {
            Ok(v) => {
                proof {
                    lemma_be_value_bound(old(self).buffer().subrange(
                        old(self).pos() as int,
                        old(self).pos() + 2int,
                    ));
                    lemma2_to64();
                }
                if v < 0x8000 {
                    Ok(v as i16)
                } else {
                    Ok(-((0xFFFFu128 - v) as i16) - 1)
                }
            },
            Err(e) => Err(e),
        }
    }

    /// Reads an `i32` in big-endian byte order.
    pub fn read_i32(&mut self) -> (r: Result<i32, EndOfInput>)
        ensures
            final(self).buffer() == old(self).buffer(),
            old(self).spec_remaining() >= 4 ==> (r matches Ok(v)
                && v as int == as_signed(
                    be_value(old(self).buffer().subrange(
                        old(self).pos() as int,
                        old(self).pos() + 4int,
                    )),
                    0x100000000,
                )
                && final(self).pos() == old(self).pos() + 4),
            old(self).spec_remaining() < 4 ==> (r == Err::<i32, EndOfInput>(EndOfInput)
                && final(self).pos() == old(self).pos()),
    {
        match self.read_uint(4, false) {
            Ok(v) => {
                proof {
                    lemma_be_value_bound(old(self).buffer().subrange(
                        old(self).pos() as int,
                        old(self).pos() + 4int,
                    ));
                    lemma2_to64();
                }
                if v < 0x80000000 {
                    Ok(v as i32)
                } else {
                    Ok(-((0xFFFFFFFFu128 - v) as i32) - 1)
                }
            },
            Err(e) => Err(e),
        }
    }

    /// Reads an `i64` in big-endian byte order.
    pub fn read_i64(&mut self) -> (r: Result<i64, EndOfInput>)
        ensures
            final(self).buffer() == old(self).buffer(),
            old(self).spec_remaining() >= 8 ==> (r matches Ok(v)
                && v as int == as_signed(
                    be_value(old(self).buffer().subrange(
                        old(self).pos() as int,
                        old(self).pos() + 8int,
                    )),
                    0x10000000000000000,
                )
                && final(self).pos() == old(self).pos() + 8),
            old(self).spec_remaining() < 8 ==> (r == Err::<i64, EndOfInput>(EndOfInput)
                && final(self).pos() == old(self).pos()),
    {
        match self.read_uint(8, false) {
            Ok(v) => {
                proof {
                    lemma_be_value_bound(old(self).buffer().subrange(
                        old(self).pos() as int,
                        old(self).pos() + 8int,
                    ));
                    lemma2_to64();
                }
                if v < 0x8000000000000000 {
                    Ok(v as i64)
                } else {
                    Ok(-((0xFFFFFFFFFFFFFFFFu128 - v) as i64) - 1)
                }
            },
            Err(e) => Err(e),
        }
    }

    /// Reads an `i128` in big-endian byte order.
    pub fn read_i128(&mut self) -> (r: Result<i128, EndOfInput>)
        ensures
            final(self).buffer() == old(self).buffer(),
            old(self).spec_remaining() >= 16 ==> (r matches Ok(v)
                && v as int == as_signed(
                    be_value(old(self).buffer().subrange(
                        old(self).pos() as int,
                        old(self).pos() + 16int,
                    )),
                    0x80000000000000000000000000000000nat * 2,
                )
                && final(self).pos() == old(self).pos() + 16),
            old(self).spec_remaining() < 16 ==> (r == Err::<i128, EndOfInput>(EndOfInput)
                && final(self).pos() == old(self).pos()),
    {
        match self.read_uint(16, false) {
            Ok(v) => {
                if v < 0x80000000000000000000000000000000 {
                    Ok(v as i128)
                } else {
                    Ok(-((0xFFFFFFFFFFFFFFFFFFFFFFFFFFFFFFFFu128 - v) as i128) - 1)
                }
            },
            Err(e) => Err(e),
        }
    }
}

} // verus!
