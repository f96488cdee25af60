//! The byte stream that codecs read from and write to.
//!
//! A [`ByteStream`] holds a byte buffer together with a read position.
//! Decoding consumes bytes from the position onward; encoding appends bytes
//! at the end of the buffer. Transport concerns (framing, compression,
//! encryption, blocking I/O) are assumed to wrap the buffer before it
//! reaches the codec.

use vstd::prelude::*;

verus! {

/// An error raised by a codec while reading from or writing to a stream.
#[derive(Clone, Copy, Debug, PartialEq, Eq, Structural)]
pub enum CodecError {
    /// The stream ended before the value was fully read.
    ShortRead,
    /// The bytes read cannot denote any value of the expected shape.
    InvalidData,
}

/// A byte buffer with a read position.
pub struct ByteStream {
    data: Vec<u8>,
    pos: usize,
}

impl ByteStream {
    /// The whole underlying buffer.
    pub closed spec fn buf(&self) -> Seq<u8> {
        self.data@
    }

    /// The current read position.
    pub closed spec fn pos(&self) -> nat {
        self.pos as nat
    }

    /// The read position never passes the end of the buffer.
    pub open spec fn wf(&self) -> bool {
        self.pos() <= self.buf().len()
    }

    /// The bytes not yet consumed.
    pub open spec fn remaining(&self) -> Seq<u8> {
        self.buf().skip(self.pos() as int)
    }

    pub fn new(data: Vec<u8>) -> (s: Self)
        ensures
            s.buf() == data@,
            s.pos() == 0,
            s.wf(),
    {
        ByteStream { data, pos: 0 }
    }

    /// How many bytes remain to be read.
    pub fn remaining_len(&self) -> (n: usize)
        requires
            self.wf(),
        ensures
            n == self.remaining().len(),
    {
        self.data.len() - self.pos
    }

    /// The current read position, as a count of consumed bytes.
    pub fn position(&self) -> (n: usize)
        ensures
            n == self.pos(),
    {
        self.pos
    }

    /// Gives the buffer back, e.g. to hand encoded bytes to a transport.
    pub fn into_vec(self) -> (v: Vec<u8>)
        ensures
            v@ == self.buf(),
    {
        self.data
    }

    /// Consumes and returns the next byte, or fails at the end of the buffer.
    pub fn read_byte(&mut self) -> (r: Result<u8, CodecError>)
        requires
            old(self).wf(),
        ensures
            final(self).wf(),
            final(self).buf() == old(self).buf(),
            if old(self).remaining().len() > 0 {
                r == Ok::<u8, CodecError>(old(self).remaining()[0])
                    && final(self).pos() == old(self).pos() + 1
            } else {
                r == Err::<u8, CodecError>(CodecError::ShortRead)
                    && final(self).pos() == old(self).pos()
            },
    {
        if self.pos < self.data.len() {
            let b = self.data[self.pos];
            self.pos = self.pos + 1;
            Ok(b)
        } else {
            Err(CodecError::ShortRead)
        }
    }

    /// Consumes and returns the next `n` bytes, or fails without moving the
    /// position if fewer than `n` remain.
    pub fn read_bytes(&mut self, n: usize) -> (r: Result<Vec<u8>, CodecError>)
        requires
            old(self).wf(),
        ensures
            final(self).wf(),
            final(self).buf() == old(self).buf(),
            if old(self).remaining().len() >= n {
                r matches Ok(v) && v@ == old(self).remaining().take(n as int)
                    && final(self).pos() == old(self).pos() + n
            } else {
                r == Err::<Vec<u8>, CodecError>(CodecError::ShortRead)
                    && final(self).pos() == old(self).pos()
            },
    {
        if n > self.data.len() - self.pos {
            return Err(CodecError::ShortRead);
        }
        let mut v: Vec<u8> = Vec::new();
        let mut i: usize = 0;
        while i < n
            invariant
                i <= n,
                n <= self.data.len() - self.pos,
                self.wf(),
                self.buf() == old(self).buf(),
                self.pos() == old(self).pos(),
                v@ == old(self).remaining().take(i as int),
            decreases n - i,
        {
            v.push(self.data[self.pos + i]);
            i = i + 1;
            assert(v@ =~= old(self).remaining().take(i as int));
        }
        assert(v@ =~= old(self).remaining().take(n as int));
        self.pos = self.pos + n;
        Ok(v)
    }

    /// Appends one byte at the end of the buffer.
    pub fn write_byte(&mut self, b: u8)
        requires
            old(self).wf(),
        ensures
            final(self).wf(),
            final(self).buf() == old(self).buf() + seq![b],
            final(self).pos() == old(self).pos(),
    {
        self.data.push(b);
    }

    /// Appends a run of bytes at the end of the buffer.
    pub fn write_bytes(&mut self, bytes: &Vec<u8>)
        requires
            old(self).wf(),
        ensures
            final(self).wf(),
            final(self).buf() == old(self).buf() + bytes@,
            final(self).pos() == old(self).pos(),
    {
        let mut i: usize = 0;
        while i < bytes.len()
            invariant
                i <= bytes.len(),
                self.wf(),
                self.pos() == old(self).pos(),
                self.buf() == old(self).buf() + bytes@.take(i as int),
            decreases bytes.len() - i,
        {
            self.data.push(bytes[i]);
            i = i + 1;
            assert(self.buf() =~= old(self).buf() + bytes@.take(i as int));
        }
        assert(self.buf() =~= old(self).buf() + bytes@);
    }
}

} // verus!
