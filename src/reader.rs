//! A cursor over a byte slice that reads little-endian values.
use vstd::prelude::*;

verus! {

/// Why a read did not take place.
#[derive(Clone, Copy, Debug, PartialEq, Eq, Structural)]
pub enum ReaderError {
    /// A value needed the first number of bytes and only the second number were given.
    InsufficientBytes(usize, usize),
    /// The position, first, lies past what the data, of the second length, can serve.
    OutOfBounds(usize, usize),
}

/// A value that can be read from its little-endian bytes.
pub trait Primitive: Sized {
    /// How many bytes the value takes.
    spec fn width() -> nat;

    /// The value that `width()` bytes encode.
    spec fn decode(bytes: Seq<u8>) -> Self;

    fn byte_width() -> (r: usize)
        ensures
            r == Self::width(),
    ;

    /// Reads the value from the first `width()` bytes of `data`.
    fn read(data: &[u8]) -> (r: Result<Self, ReaderError>)
        ensures
            data@.len() >= Self::width() ==> r == Ok::<Self, ReaderError>(
                Self::decode(data@.take(Self::width() as int)),
            ),
            data@.len() < Self::width() ==> r == Err::<Self, ReaderError>(
                ReaderError::InsufficientBytes(Self::width() as usize, data@.len() as usize),
            ),
    ;

    /// The number of bytes the value takes.
    fn size_on_disk(&self) -> (r: usize)
        ensures
            r == Self::width(),
    ;
}

impl Primitive for u8 {
    open spec fn width() -> nat {
        1
    }

    open spec fn decode(bytes: Seq<u8>) -> u8 {
        bytes[0]
    }

    fn byte_width() -> (r: usize) {
        1
    }

    fn read(data: &[u8]) -> (r: Result<u8, ReaderError>) {
        if data.len() < 1 {
            return Err(ReaderError::InsufficientBytes(1, data.len()));
        }
        Ok(data[0])
    }

    fn size_on_disk(&self) -> (r: usize) {
        1
    }
}

impl Primitive for u16 {
    open spec fn width() -> nat {
        2
    }

    open spec fn decode(bytes: Seq<u8>) -> u16 {
        (bytes[0] + bytes[1] * 0x100) as u16
    }

    fn byte_width() -> (r: usize) {
        2
    }

    fn read(data: &[u8]) -> (r: Result<u16, ReaderError>) {
        if data.len() < 2 {
            return Err(ReaderError::InsufficientBytes(2, data.len()));
        }
        Ok(data[0] as u16 + (data[1] as u16) * 0x100)
    }

    fn size_on_disk(&self) -> (r: usize) {
        2
    }
}

impl Primitive for u32 {
    open spec fn width() -> nat {
        4
    }

    open spec fn decode(bytes: Seq<u8>) -> u32 {
        (bytes[0] + bytes[1] * 0x100 + bytes[2] * 0x1_0000 + bytes[3] * 0x100_0000) as u32
    }

    fn byte_width() -> (r: usize) {
        4
    }

    fn read(data: &[u8]) -> (r: Result<u32, ReaderError>) {
        if data.len() < 4 {
            return Err(ReaderError::InsufficientBytes(4, data.len()));
        }
        Ok(data[0] as u32 + (data[1] as u32) * 0x100 + (data[2] as u32) * 0x1_0000 + (data[3] as u32)
            * 0x100_0000)
    }

    fn size_on_disk(&self) -> (r: usize) {
        4
    }
}

impl Primitive for u64 {
    open spec fn width() -> nat {
        8
    }

    open spec fn decode(bytes: Seq<u8>) -> u64 {
        (bytes[0] + bytes[1] * 0x100 + bytes[2] * 0x1_0000 + bytes[3] * 0x100_0000 + bytes[4]
            * 0x1_0000_0000 + bytes[5] * 0x100_0000_0000 + bytes[6] * 0x1_0000_0000_0000 + bytes[7]
            * 0x100_0000_0000_0000) as u64
    }

    fn byte_width() -> (r: usize) {
        8
    }

    fn read(data: &[u8]) -> (r: Result<u64, ReaderError>) {
        if data.len() < 8 {
            return Err(ReaderError::InsufficientBytes(8, data.len()));
        }
        Ok(data[0] as u64 + (data[1] as u64) * 0x100 + (data[2] as u64) * 0x1_0000 + (data[3] as u64)
            * 0x100_0000 + (data[4] as u64) * 0x1_0000_0000 + (data[5] as u64) * 0x100_0000_0000
            + (data[6] as u64) * 0x1_0000_0000_0000 + (data[7] as u64) * 0x100_0000_0000_0000)
    }

    fn size_on_disk(&self) -> (r: usize) {
        8
    }
}

/// A position in a byte slice from which values are read.
pub struct Reader<'a> {
    bytes: &'a [u8],
    idx: usize,
}

impl<'a> Reader<'a> {
    /// The bytes being read.
    pub closed spec fn data(&self) -> Seq<u8> {
        self.bytes@
    }

    /// The current position.
    pub closed spec fn pos(&self) -> int {
        self.idx as int
    }

    pub open spec fn wf(&self) -> bool {
        0 <= self.pos() <= self.data().len()
    }

    /// A reader at the start of `bytes`.
    pub fn new(bytes: &'a [u8]) -> (r: Self)
        ensures
            r.data() == bytes@,
            r.pos() == 0,
            r.wf(),
    {
        Reader { bytes, idx: 0 }
    }

    /// Reads a value at the current position without moving.
    pub fn peek<P: Primitive>(&self) -> (r: Result<P, ReaderError>)
        requires
            self.wf(),
        ensures
            self.pos() + P::width() <= self.data().len() ==> r == Ok::<P, ReaderError>(
                P::decode(self.data().subrange(self.pos(), self.pos() + P::width())),
            ),
            self.pos() + P::width() > self.data().len() ==> r == Err::<P, ReaderError>(
                ReaderError::OutOfBounds(self.pos() as usize, self.data().len() as usize),
            ),
    {
        let width = P::byte_width();
        if width > self.bytes.len() - self.idx {
            return Err(ReaderError::OutOfBounds(self.idx, self.bytes.len()));
        }
        let bytes = vstd::slice::slice_subrange(self.bytes, self.idx, self.idx + width);
        proof {
            assert(bytes@.take(P::width() as int) =~= bytes@);
        }
        P::read(bytes)
    }

    /// Reads a value at the current position and moves past it.
    pub fn read<P: Primitive>(&mut self) -> (r: Result<P, ReaderError>)
        requires
            old(self).wf(),
        ensures
            final(self).wf(),
            final(self).data() == old(self).data(),
            old(self).pos() + P::width() <= old(self).data().len() ==> r == Ok::<P, ReaderError>(
                P::decode(old(self).data().subrange(old(self).pos(), old(self).pos() + P::width())),
            ) && final(self).pos() == old(self).pos() + P::width(),
            old(self).pos() + P::width() > old(self).data().len() ==> r == Err::<P, ReaderError>(
                ReaderError::OutOfBounds(old(self).pos() as usize, old(self).data().len() as usize),
            ) && final(self).pos() == old(self).pos(),
    {
        let width = P::byte_width();
        let value = self.peek::<P>();
        if width <= self.bytes.len() - self.idx {
            self.idx = self.idx + width;
        }
        value
    }

    /// The next `len` bytes, without moving; `None` when fewer are left.
    pub fn peek_bytes(&self, len: usize) -> (r: Option<&'a [u8]>)
        requires
            self.wf(),
        ensures
            r is Some <==> self.pos() + len <= self.data().len(),
            r matches Some(b) ==> b@ == self.data().subrange(self.pos(), self.pos() + len),
    {
        if len > self.bytes.len() - self.idx {
            return None;
        }
        Some(vstd::slice::slice_subrange(self.bytes, self.idx, self.idx + len))
    }

    /// The next `len` bytes, moving past them.
    pub fn read_bytes(&mut self, len: usize) -> (r: Result<&'a [u8], ReaderError>)
        requires
            old(self).wf(),
        ensures
            final(self).wf(),
            final(self).data() == old(self).data(),
            old(self).pos() + len <= old(self).data().len() ==> r is Ok && r.unwrap()@ == old(
                self).data().subrange(old(self).pos(), old(self).pos() + len) && final(self).pos()
                == old(self).pos() + len,
            old(self).pos() + len > old(self).data().len() ==> r == Err::<&'a [u8], ReaderError>(
                ReaderError::OutOfBounds(old(self).pos() as usize, old(self).data().len() as usize),
            ) && final(self).pos() == old(self).pos(),
    {
        if len > self.bytes.len() - self.idx {
            return Err(ReaderError::OutOfBounds(self.idx, self.bytes.len()));
        }
        let bytes = vstd::slice::slice_subrange(self.bytes, self.idx, self.idx + len);
        self.idx = self.idx + len;
        Ok(bytes)
    }

    /// Moves forward by `len` bytes, stopping at the end of the data.
    pub fn skip(&mut self, len: usize)
        requires
            old(self).wf(),
        ensures
            final(self).wf(),
            final(self).data() == old(self).data(),
            final(self).pos() == if old(self).pos() + len < old(self).data().len() {
                old(self).pos() + len
            } else {
                old(self).data().len() as int
            },
    {
        if len < self.bytes.len() - self.idx {
            self.idx = self.idx + len;
        } else {
            self.idx = self.bytes.len();
        }
    }

    /// Moves to `offset`, which may be the end of the data but not past it.
    pub fn seek(&mut self, offset: usize) -> (r: Result<(), ReaderError>)
        requires
            old(self).wf(),
        ensures
            final(self).wf(),
            final(self).data() == old(self).data(),
            offset <= old(self).data().len() ==> r is Ok && final(self).pos() == offset,
            offset > old(self).data().len() ==> r == Err::<(), ReaderError>(
                ReaderError::OutOfBounds(offset, old(self).data().len() as usize),
            ) && final(self).pos() == old(self).pos(),
    {
        if offset > self.bytes.len() {
            return Err(ReaderError::OutOfBounds(offset, self.bytes.len()));
        }
        self.idx = offset;
        Ok(())
    }

    /// The current position.
    pub fn offset(&self) -> (r: usize)
        ensures
            r == self.pos(),
    {
        self.idx
    }
}

} // verus!
