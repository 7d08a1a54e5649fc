use std::collections::VecDeque;
use vstd::prelude::*;

verus! {

broadcast use vstd::std_specs::vecdeque::group_vec_dequeue_axioms;

/// Raised when a read or peek reaches past the unread bytes.
#[derive(Debug, Clone, Copy, PartialEq, Eq, Structural)]
pub enum BufferError {
    InsufficientData,
}

/// The value of two bytes read as a little-endian 16-bit integer.
pub open spec fn le_u16(lo: u8, hi: u8) -> nat {
    lo as nat + 256 * hi as nat
}

/// A byte FIFO: bytes are appended at the back and read from the front.
/// Its view is the sequence of unread bytes.
pub struct Buffer {
    bytes: VecDeque<u8>,
}

impl View for Buffer {
    type V = Seq<u8>;

    closed spec fn view(&self) -> Seq<u8> {
        self.bytes@
    }
}

impl Buffer {
    pub fn new() -> (r: Buffer)
        ensures
            r@ == Seq::<u8>::empty(),
    {
        Buffer { bytes: VecDeque::new() }
    }

    /// Number of unread bytes.
    pub fn bytes_remaining(&self) -> (r: usize)
        ensures
            r == self@.len(),
    {
        self.bytes.len()
    }

    pub fn append(&mut self, data: &[u8])
        ensures
            final(self)@ == old(self)@ + data@,
    {
        let mut i: usize = 0;
        while i < data.len()
            invariant
                0 <= i <= data@.len(),
                self@ == old(self)@ + data@.subrange(0, i as int),
            decreases data@.len() - i,
        {
            self.bytes.push_back(data[i]);
            i = i + 1;
            assert(data@.subrange(0, i as int) == data@.subrange(0, i - 1) + seq![data@[i - 1]]);
        }
        assert(data@.subrange(0, data@.len() as int) == data@);
    }

    /// The byte at `offset`, without consuming anything.
    pub fn peek_u8(&self, offset: usize) -> (r: Result<u8, BufferError>)
        ensures
            offset < self@.len() ==> r == Ok::<u8, BufferError>(self@[offset as int]),
            offset >= self@.len() ==> r == Err::<u8, BufferError>(BufferError::InsufficientData),
    {
        if offset < self.bytes.len() {
            Ok(self.bytes[offset])
        } else {
            Err(BufferError::InsufficientData)
        }
    }

    /// The little-endian 16-bit value at `offset`, without consuming anything.
    pub fn peek_u16(&self, offset: usize) -> (r: Result<u16, BufferError>)
        ensures
            offset + 2 <= self@.len() ==> r == Ok::<u16, BufferError>(
                le_u16(self@[offset as int], self@[offset + 1]) as u16,
            ),
            offset + 2 > self@.len() ==> r == Err::<u16, BufferError>(BufferError::InsufficientData),
    {
        let len = self.bytes.len();
        if offset < len && len - offset >= 2 {
            let lo = self.bytes[offset];
            let hi = self.bytes[offset + 1];
            Ok(lo as u16 + (hi as u16) * 256)
        } else {
            Err(BufferError::InsufficientData)
        }
    }

    /// Copies up to `limit` bytes starting at `offset`, without consuming anything.
    pub fn peek_max(&self, offset: usize, limit: usize) -> (r: Result<Vec<u8>, BufferError>)
        ensures
            offset > self@.len() ==> r == Err::<Vec<u8>, BufferError>(BufferError::InsufficientData),
            offset <= self@.len() ==> (r matches Ok(v) && v@ == self@.subrange(
                offset as int,
                offset + if limit <= self@.len() - offset { limit as int } else { self@.len() - offset },
            )),
    {
        let len = self.bytes.len();
        if offset > len {
            return Err(BufferError::InsufficientData);
        }
        let count: usize = if limit <= len - offset { limit } else { len - offset };
        let mut out: Vec<u8> = Vec::new();
        let mut i: usize = 0;
        while i < count
            invariant
                offset + count <= len,
                len == self@.len(),
                0 <= i <= count,
                out@ == self@.subrange(offset as int, offset + i),
            decreases count - i,
        {
            out.push(self.bytes[offset + i]);
            i = i + 1;
        }
        Ok(out)
    }

    /// Consumes the first `n` unread bytes; nothing is consumed when fewer are there.
    pub fn advance_read(&mut self, n: usize) -> (r: Result<(), BufferError>)
        ensures
            n <= old(self)@.len() ==> r is Ok && final(self)@ == old(self)@.skip(n as int),
            n > old(self)@.len() ==> r == Err::<(), BufferError>(BufferError::InsufficientData)
                && final(self)@ == old(self)@,
    {
        if n > self.bytes.len() {
            return Err(BufferError::InsufficientData);
        }
        let mut i: usize = 0;
        while i < n
            invariant
                0 <= i <= n,
                n <= old(self)@.len(),
                self@ == old(self)@.skip(i as int),
            decreases n - i,
        {
            let _ = self.bytes.pop_front();
            i = i + 1;
        }
        Ok(())
    }

    /// Reads and consumes a little-endian 16-bit value.
    pub fn read_u16(&mut self) -> (r: Result<u16, BufferError>)
        ensures
            old(self)@.len() >= 2 ==> r == Ok::<u16, BufferError>(
                le_u16(old(self)@[0], old(self)@[1]) as u16,
            ) && final(self)@ == old(self)@.skip(2),
            old(self)@.len() < 2 ==> r == Err::<u16, BufferError>(BufferError::InsufficientData)
                && final(self)@ == old(self)@,
    {
        let v = self.peek_u16(0);
        if v.is_ok() {
            let _ = self.advance_read(2);
        }
        v
    }

    /// Reads and consumes `n` bytes; nothing is consumed when fewer are there.
    pub fn read_bytes(&mut self, n: usize) -> (r: Result<Vec<u8>, BufferError>)
        ensures
            n <= old(self)@.len() ==> (r matches Ok(v) && v@ == old(self)@.take(n as int)
                && final(self)@ == old(self)@.skip(n as int)),
            n > old(self)@.len() ==> r == Err::<Vec<u8>, BufferError>(BufferError::InsufficientData)
                && final(self)@ == old(self)@,
    {
        if n > self.bytes.len() {
            return Err(BufferError::InsufficientData);
        }
        let out = self.peek_max(0, n);
        let _ = self.advance_read(n);
        out
    }
}

} // verus!
