//! A panic-free, forward-only cursor over an immutable, cheaply shared byte
//! buffer, together with a typed decoding layer built on top of it.
//!
//! Every bounds-checked read either fully succeeds — advancing the cursor by
//! exactly the requested amount and returning exactly the requested data — or
//! fully fails with [`EndOfInput`], leaving the cursor untouched.

use vstd::prelude::*;

pub mod decode;
pub mod ints;
pub mod source;

use crate::source::{bytes_as_slice, bytes_empty, bytes_len, bytes_slice, stored_bytes};

verus! {

/// Error returned when fewer bytes remain than a read requires.
#[derive(Debug, Clone, Copy, PartialEq, Eq, Structural)]
pub struct EndOfInput;

/// Panic-free forward-only cursor over an immutable byte buffer.
pub struct Reader {
    index: usize,
    inner: bytes::Bytes,
}

impl Reader {
    /// The full underlying byte sequence, read or not.
    pub closed spec fn buffer(&self) -> Seq<u8> {
        stored_bytes(self.inner)
    }

    /// Index of the next unread byte.
    pub closed spec fn pos(&self) -> nat {
        self.index as nat
    }

    /// How many bytes are still unread.
    pub open spec fn spec_remaining(&self) -> int {
        self.buffer().len() - self.pos()
    }

    /// Validity of a cursor: the position never lies outside the buffer.
    /// Every `Reader` satisfies it; `use_type_invariant` recovers it.
    #[verifier::type_invariant]
    pub closed spec fn wf(&self) -> bool {
        self.index <= stored_bytes(self.inner).len()
    }

    /// Creates a new `Reader` over the given buffer, positioned at its start.
    pub fn new(data: bytes::Bytes) -> (r: Reader)
        ensures
            r.buffer() == stored_bytes(data),
            r.pos() == 0,
    {
        Reader { index: 0, inner: data }
    }

    /// Returns how many bytes have not been read.
    pub fn remaining(&self) -> (r: usize)
        ensures
            r == self.spec_remaining(),
    {
        proof {
            use_type_invariant(self);
        }
        bytes_len(&self.inner) - self.index
    }

    /// Returns `true` if at least `len` many bytes are unread.
    pub fn has_remaining(&self, len: usize) -> (r: bool)
        ensures
            r <==> self.spec_remaining() >= len,
    {
        self.remaining() >= len
    }

    /// Returns how many bytes have been read so far.
    pub fn consumed(&self) -> (r: usize)
        ensures
            r == self.pos(),
    {
        self.index
    }

    /// The byte at absolute index `i` of the underlying buffer.
    pub(crate) fn byte_at(&self, i: usize) -> (r: u8)
        requires
            i < self.buffer().len(),
        ensures
            r == self.buffer()[i as int],
    {
        let s = bytes_as_slice(&self.inner);
        *vstd::slice::slice_index_get(s, i)
    }

    /// Skips `amt` bytes. Skipping past the end silently stops at the end of
    /// the buffer; `skip` never fails.
    pub fn skip(&mut self, amt: usize)
        ensures
            final(self).buffer() == old(self).buffer(),
            amt <= old(self).spec_remaining() ==> final(self).pos() == old(self).pos() + amt,
            amt > old(self).spec_remaining() ==> final(self).pos() == old(self).buffer().len(),
    {
        proof {
            use_type_invariant(&*self);
        }
        let len = bytes_len(&self.inner);
        if amt <= len - self.index {
            self.index = self.index + amt;
        } else {
            self.index = len;
        }
    }

    /// Returns `true` if there is another byte to read and it is equal to
    /// `val`. Never advances the cursor.
    pub fn peek(&self, val: u8) -> (r: bool)
        ensures
            r <==> (self.spec_remaining() >= 1 && self.buffer()[self.pos() as int] == val),
    {
        proof {
            use_type_invariant(self);
        }
        if bytes_len(&self.inner) - self.index == 0 {
            return false;
        }
        self.byte_at(self.index) == val
    }

    /// Reads a single byte. Identical to [`read_u8`](Self::read_u8).
    pub fn read_byte(&mut self) -> (r: Result<u8, EndOfInput>)
        ensures
            final(self).buffer() == old(self).buffer(),
            old(self).spec_remaining() >= 1 ==> (r matches Ok(b)
                && b == old(self).buffer()[old(self).pos() as int]
                && final(self).pos() == old(self).pos() + 1),
            old(self).spec_remaining() < 1 ==> (r == Err::<u8, EndOfInput>(EndOfInput)
                && final(self).pos() == old(self).pos()),
    {
        proof {
            use_type_invariant(&*self);
        }
        if bytes_len(&self.inner) - self.index == 0 {
            return Err(EndOfInput);
        }
        let b = self.byte_at(self.index);
        self.index = self.index + 1;
        Ok(b)
    }

    /// Returns the next `len` bytes as an independently owned, zero-copy
    /// `Bytes` view, advancing the cursor.
    pub fn read_bytes(&mut self, len: usize) -> (r: Result<bytes::Bytes, EndOfInput>)
        ensures
            final(self).buffer() == old(self).buffer(),
            old(self).spec_remaining() >= len ==> (r matches Ok(b)
                && stored_bytes(b) == old(self).buffer().subrange(
                    old(self).pos() as int,
                    old(self).pos() + len,
                )
                && final(self).pos() == old(self).pos() + len),
            old(self).spec_remaining() < len ==> (r == Err::<bytes::Bytes, EndOfInput>(EndOfInput)
                && final(self).pos() == old(self).pos()),
    {
        proof {
            use_type_invariant(&*self);
        }
        let srclen = bytes_len(&self.inner);
        if len > srclen - self.index {
            return Err(EndOfInput);
        }
        let start = self.index;
        self.index = start + len;
        Ok(bytes_slice(&self.inner, start, start + len))
    }

    /// Returns the next `len` bytes as a borrowed slice, advancing the
    /// cursor. The returned slice is always exactly `len` bytes long.
    pub fn read_slice(&mut self, len: usize) -> (r: Result<&[u8], EndOfInput>)
        ensures
            final(self).buffer() == old(self).buffer(),
            old(self).spec_remaining() >= len ==> (r matches Ok(s)
                && s@ == old(self).buffer().subrange(
                    old(self).pos() as int,
                    old(self).pos() + len,
                )
                && final(self).pos() == old(self).pos() + len),
            old(self).spec_remaining() < len ==> (r matches Err(e) && e == EndOfInput
                && final(self).pos() == old(self).pos()),
    {
        proof {
            use_type_invariant(&*self);
        }
        let srclen = bytes_len(&self.inner);
        if len > srclen - self.index {
            return Err(EndOfInput);
        }
        let start = self.index;
        self.index = start + len;
        let s = bytes_as_slice(&self.inner);
        Ok(vstd::slice::slice_subrange(s, start, start + len))
    }

    /// Returns the next `N` bytes as a fixed-size array, advancing the
    /// cursor.
    pub fn read_array<const N: usize>(&mut self) -> (r: Result<[u8; N], EndOfInput>)
        ensures
            final(self).buffer() == old(self).buffer(),
            old(self).spec_remaining() >= N ==> (r matches Ok(a)
                && a@ == old(self).buffer().subrange(
                    old(self).pos() as int,
                    old(self).pos() + N,
                )
                && final(self).pos() == old(self).pos() + N),
            old(self).spec_remaining() < N ==> (r matches Err(e) && e == EndOfInput
                && final(self).pos() == old(self).pos()),
    {
        proof {
            use_type_invariant(&*self);
        }
        let srclen = bytes_len(&self.inner);
        if N > srclen - self.index {
            return Err(EndOfInput);
        }
        let start = self.index;
        let mut a = [0u8; N];
        let mut i: usize = 0;
        while i < N
            invariant
                i <= N,
                self == old(self),
                start == self.index,
                srclen == self.buffer().len(),
                start + N <= srclen,
                a@.len() == N,
                forall|j: int| 0 <= j < i ==> a@[j] == self.buffer()[start + j],
            decreases N - i,
        {
            a[i] = self.byte_at(start + i);
            i = i + 1;
        }
        self.index = start + N;
        proof {
            assert(a@ =~= old(self).buffer().subrange(start as int, start + N));
        }
        Ok(a)
    }

    /// Returns a `Reader` that can read the next `len` bytes, advancing this
    /// cursor by the same amount. A sub-cursor of length 0 is refused.
    pub fn subreader(&mut self, len: usize) -> (r: Result<Reader, EndOfInput>)
        ensures
            final(self).buffer() == old(self).buffer(),
            (len == 0 || old(self).spec_remaining() < len) ==> (r matches Err(e)
                && e == EndOfInput
                && final(self).pos() == old(self).pos()),
            (len > 0 && old(self).spec_remaining() >= len) ==> (r matches Ok(sub)
                && sub.buffer() == old(self).buffer().subrange(
                    old(self).pos() as int,
                    old(self).pos() + len,
                )
                && sub.pos() == 0
                && final(self).pos() == old(self).pos() + len),
    {
        if len == 0 {
            return Err(EndOfInput);
        }
        match self.read_bytes(len) {
            Ok(b) => Ok(Reader::new(b)),
            Err(e) => Err(e),
        }
    }

    /// Returns the rest of the unread data, consuming the cursor.
    ///
    /// If no bytes are left, the inner buffer is dropped and an empty handle
    /// backed by a static empty slice is returned instead, so the original
    /// storage is not retained.
    pub fn read_to_end(self) -> (r: bytes::Bytes)
        ensures
            stored_bytes(r) == self.buffer().subrange(
                self.pos() as int,
                self.buffer().len() as int,
            ),
    {
        proof {
            use_type_invariant(&self);
        }
        let srclen = bytes_len(&self.inner);
        if self.index == srclen {
            proof {
                assert(self.buffer().subrange(self.pos() as int, self.buffer().len() as int)
                    =~= Seq::<u8>::empty());
            }
            return bytes_empty();
        }
        bytes_slice(&self.inner, self.index, srclen)
    }

    /// Returns all unread bytes as a borrowed slice, without advancing the
    /// cursor.
    pub fn remaining_slice(&self) -> (r: &[u8])
        ensures
            r@ == self.buffer().subrange(self.pos() as int, self.buffer().len() as int),
    {
        proof {
            use_type_invariant(self);
        }
        let srclen = bytes_len(&self.inner);
        let s = bytes_as_slice(&self.inner);
        vstd::slice::slice_subrange(s, self.index, srclen)
    }
}

impl From<bytes::Bytes> for Reader {
    /// Creates a `Reader` over `value`, positioned at its start.
    fn from(value: bytes::Bytes) -> (r: Reader)
        ensures
            r.buffer() == stored_bytes(value),
            r.pos() == 0,
    {
        Reader { index: 0, inner: value }
    }
}

impl vstd::std_specs::convert::FromSpecImpl<bytes::Bytes> for Reader {
    open spec fn obeys_from_spec() -> bool {
        true
    }

    closed spec fn from_spec(value: bytes::Bytes) -> Reader {
        Reader { index: 0, inner: value }
    }
}

impl EndOfInput {
    /// The fixed human-readable description of this error.
    pub fn message(&self) -> (r: &'static str)
        ensures
            r@ == "end of input"@,
    {
        "end of input"
    }
}

/// After every operation, the bytes still unread and the bytes consumed
/// together account for the whole underlying buffer: the cursor's position
/// never lies outside it.
pub proof fn lemma_remaining_consumed_accounting(r: Reader)
    requires
        r.wf(),
    ensures
        r.spec_remaining() + r.pos() == r.buffer().len(),
        0 <= r.pos() <= r.buffer().len(),
{
}

} // verus!
