//! A forward cursor over a byte buffer that never reads past its end.

use vstd::prelude::*;
use vstd::slice::slice_subrange;
use crate::endian::{be_i32_at, be_u16_at, be_u32_at, be_u64_at};

verus! {

/// Why a read could not be served.
#[derive(Debug, Clone, Copy, PartialEq, Eq)]
pub enum ReadError {
    /// Fewer bytes are left than were asked for.
    BufferTooShort,
    /// The bytes read do not make up a value of the width asked for.
    BufferTooShortForValue,
}

pub type ReadResult<T> = Result<T, ReadError>;

/// A byte buffer together with the position of the next unread byte.
pub struct Reader<'a> {
    data: &'a [u8],
    offset: usize,
}

/// What a read of `n` bytes does to a reader: where `n` bytes are left it
/// succeeds and moves past them, else it fails and stays. The buffer is
/// the same after as before, and the position lies within it.
pub open spec fn advances(before: Reader, after: Reader, n: nat, ok: bool) -> bool {
    &&& after.source() == before.source()
    &&& 0 <= before.position() <= before.source().len()
    &&& if before.position() + n <= before.source().len() {
        ok && after.position() == before.position() + n
    } else {
        !ok && after.position() == before.position()
    }
}

/// A fixed-width number that can be read off a [`Reader`].
pub trait Readable: Sized {
    /// How many bytes one value takes.
    spec fn width() -> nat;

    /// The value that the `width()` bytes of `s` from position `at` on
    /// stand for, most significant byte first.
    spec fn value_at(s: Seq<u8>, at: int) -> Self;

    /// Reads one value at the reader's position.
    fn do_read(reader: &mut Reader) -> (r: ReadResult<Self>)
        ensures
            advances(*old(reader), *final(reader), Self::width(), r is Ok),
            match r {
                Ok(v) => v == Self::value_at(old(reader).source(), old(reader).position()),
                Err(e) => e == ReadError::BufferTooShort,
            },
    ;
}

impl Readable for u32 {
    open spec fn width() -> nat {
        4
    }

    open spec fn value_at(s: Seq<u8>, at: int) -> u32 {
        be_u32_at(s, at) as u32
    }

    fn do_read(reader: &mut Reader) -> (r: ReadResult<Self>) {
        reader.read_u32()
    }
}

impl Readable for u16 {
    open spec fn width() -> nat {
        2
    }

    open spec fn value_at(s: Seq<u8>, at: int) -> u16 {
        be_u16_at(s, at) as u16
    }

    fn do_read(reader: &mut Reader) -> (r: ReadResult<Self>) {
        reader.read_u16()
    }
}

impl Readable for u8 {
    open spec fn width() -> nat {
        1
    }

    open spec fn value_at(s: Seq<u8>, at: int) -> u8 {
        s[at]
    }

    fn do_read(reader: &mut Reader) -> (r: ReadResult<Self>) {
        reader.read_u8()
    }
}

impl Readable for i32 {
    open spec fn width() -> nat {
        4
    }

    open spec fn value_at(s: Seq<u8>, at: int) -> i32 {
        be_i32_at(s, at) as i32
    }

    fn do_read(reader: &mut Reader) -> (r: ReadResult<Self>) {
        reader.read_i32()
    }
}

impl<'a> vstd::std_specs::convert::FromSpecImpl<&'a [u8]> for Reader<'a> {
    open spec fn obeys_from_spec() -> bool {
        true
    }

    closed spec fn from_spec(data: &'a [u8]) -> Self {
        Reader { data, offset: 0 }
    }
}

impl<'a> From<&'a [u8]> for Reader<'a> {
    fn from(data: &'a [u8]) -> (reader: Self)
        ensures
            reader.source() == data@,
            reader.position() == 0,
    {
        Reader { data, offset: 0 }
    }
}

impl<'a> vstd::std_specs::convert::FromSpecImpl<&'a Vec<u8>> for Reader<'a> {
    open spec fn obeys_from_spec() -> bool {
        true
    }

    closed spec fn from_spec(data: &'a Vec<u8>) -> Self {
        choose|reader: Reader<'a>| reader.data@ == data@ && reader.offset == 0
    }
}

impl<'a> From<&'a Vec<u8>> for Reader<'a> {
    fn from(data: &'a Vec<u8>) -> (reader: Self)
        ensures
            reader.source() == data@,
            reader.position() == 0,
    {
        let reader = Reader { data: data.as_slice(), offset: 0 };
        proof {
            broadcast use vstd::slice::axiom_slice_ext_equal;
            let chosen = choose|other: Reader<'a>| other.data@ == data@ && other.offset == 0;
            assert(reader.data@ == data@ && reader.offset == 0);
            assert(chosen.data =~= reader.data);
            assert(chosen == reader);
        }
        reader
    }
}

impl<'a> Reader<'a> {
    #[verifier::type_invariant]
    spec fn in_bounds(self) -> bool {
        self.offset <= self.data@.len()
    }

    /// The whole buffer.
    pub closed spec fn source(self) -> Seq<u8> {
        self.data@
    }

    /// How many bytes of the buffer have been read.
    pub closed spec fn position(self) -> int {
        if self.offset <= self.data@.len() {
            self.offset as int
        } else {
            self.data@.len() as int
        }
    }

    /// The position of a reader lies within its buffer.
    pub proof fn lemma_position_in_bounds(self)
        ensures
            0 <= self.position() <= self.source().len(),
    {
    }

    /// The bytes not yet read, in order.
    pub open spec fn remaining(self) -> Seq<u8> {
        self.source().skip(self.position())
    }

    /// A reader at the start of `data`.
    pub fn new(data: &'a [u8]) -> (reader: Self)
        ensures
            reader.source() == data@,
            reader.position() == 0,
    {
        Reader { data, offset: 0 }
    }

    /// Reads the next `n` bytes.
    pub fn read(&mut self, n: usize) -> (r: ReadResult<&'a [u8]>)
        ensures
            advances(*old(self), *final(self), n as nat, r is Ok),
            match r {
                Ok(bytes) => bytes@ == old(self).source().subrange(
                    old(self).position(),
                    old(self).position() + n,
                ),
                Err(e) => e == ReadError::BufferTooShort,
            },
    {
        proof {
            use_type_invariant(&*self);
        }
        if n <= self.data.len() - self.offset {
            let start = self.offset;
            let bytes = slice_subrange(self.data, start, start + n);
            self.offset = start + n;
            Ok(bytes)
        } else {
            Err(ReadError::BufferTooShort)
        }
    }

    /// Reads one byte.
    pub fn read_u8(&mut self) -> (r: ReadResult<u8>)
        ensures
            advances(*old(self), *final(self), 1, r is Ok),
            match r {
                Ok(v) => v == old(self).source()[old(self).position()],
                Err(e) => e == ReadError::BufferTooShort,
            },
    {
        let bytes = self.read(1)?;
        Ok(bytes[0])
    }

    /// Reads two bytes as a big-endian unsigned number.
    pub fn read_u16(&mut self) -> (r: ReadResult<u16>)
        ensures
            advances(*old(self), *final(self), 2, r is Ok),
            match r {
                Ok(v) => v == be_u16_at(old(self).source(), old(self).position()),
                Err(e) => e == ReadError::BufferTooShort,
            },
    {
        let bytes = self.read(2)?;
        let hi: u16 = bytes[0] as u16;
        let lo: u16 = bytes[1] as u16;
        Ok(hi * 0x100 + lo)
    }

    /// Reads four bytes as a big-endian unsigned number.
    pub fn read_u32(&mut self) -> (r: ReadResult<u32>)
        ensures
            advances(*old(self), *final(self), 4, r is Ok),
            match r {
                Ok(v) => v == be_u32_at(old(self).source(), old(self).position()),
                Err(e) => e == ReadError::BufferTooShort,
            },
    {
        let bytes = self.read(4)?;
        Ok(u32_of(bytes, 0))
    }

    /// Reads four bytes as a big-endian number in two's complement.
    pub fn read_i32(&mut self) -> (r: ReadResult<i32>)
        ensures
            advances(*old(self), *final(self), 4, r is Ok),
            match r {
                Ok(v) => v == be_i32_at(old(self).source(), old(self).position()),
                Err(e) => e == ReadError::BufferTooShort,
            },
    {
        let bytes = self.read(4)?;
        let u: u32 = u32_of(bytes, 0);
        if u < 0x8000_0000 {
            Ok(u as i32)
        } else {
            let low: u32 = u - 0x8000_0000;
            Ok(low as i32 - 0x4000_0000 - 0x4000_0000)
        }
    }

    /// Reads the eight bytes of a binary64 number, most significant first,
    /// and returns them as the number's bit pattern.
    pub fn read_f64(&mut self) -> (r: ReadResult<u64>)
        ensures
            advances(*old(self), *final(self), 8, r is Ok),
            match r {
                Ok(v) => v == be_u64_at(old(self).source(), old(self).position()),
                Err(e) => e == ReadError::BufferTooShort,
            },
    {
        let bytes = self.read(8)?;
        let hi: u64 = u32_of(bytes, 0) as u64;
        let lo: u64 = u32_of(bytes, 4) as u64;
        Ok(hi * 0x1_0000_0000 + lo)
    }

    /// Reads one value of the type asked for.
    pub fn read_with<T: Readable>(&mut self) -> (r: ReadResult<T>)
        ensures
            advances(*old(self), *final(self), T::width(), r is Ok),
            match r {
                Ok(v) => v == T::value_at(old(self).source(), old(self).position()),
                Err(e) => e == ReadError::BufferTooShort,
            },
    {
        T::do_read(self)
    }

    /// The next byte, without moving past it.
    pub fn peek(&self) -> (r: ReadResult<u8>)
        ensures
            0 <= self.position() <= self.source().len(),
            r == if self.position() < self.source().len() {
                Ok::<u8, ReadError>(self.source()[self.position()])
            } else {
                Err::<u8, ReadError>(ReadError::BufferTooShort)
            },
    {
        proof {
            use_type_invariant(self);
        }
        if self.offset < self.data.len() {
            Ok(self.data[self.offset])
        } else {
            Err(ReadError::BufferTooShort)
        }
    }

    /// Everything that has not been read yet.
    pub fn rest(&self) -> (bytes: &'a [u8])
        ensures
            0 <= self.position() <= self.source().len(),
            bytes@ == self.remaining(),
    {
        proof {
            use_type_invariant(self);
        }
        slice_subrange(self.data, self.offset, self.data.len())
    }
}

/// The big-endian number in the four bytes from position `at` on.
fn u32_of(bytes: &[u8], at: usize) -> (v: u32)
    requires
        at + 4 <= bytes@.len(),
    ensures
        v == be_u32_at(bytes@, at as int),
{
    let b0: u32 = bytes[at] as u32;
    let b1: u32 = bytes[at + 1] as u32;
    let b2: u32 = bytes[at + 2] as u32;
    let b3: u32 = bytes[at + 3] as u32;
    b0 * 0x100_0000 + b1 * 0x1_0000 + b2 * 0x100 + b3
}

} // verus!
