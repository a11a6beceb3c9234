//! The binary cursor: little-endian integers and byte runs read from, or
//! written to, a buffer in memory at a position.
use vstd::prelude::*;
use vstd::slice::slice_to_vec;
use crate::error::CodecError;
use crate::wire::{le_u16, le_u32, u16_le, u16_to_le, u32_le, u32_to_le};

verus! {

/// A read position in a borrowed buffer. The position may lie beyond the end
/// of the buffer: every read from there fails.
pub struct Reader<'a> {
    pub data: &'a [u8],
    pub pos: usize,
}

impl<'a> Reader<'a> {
    /// The bytes from the position to the end: none, if the position lies
    /// beyond the end.
    pub open spec fn rest(&self) -> Seq<u8> {
        if self.pos <= self.data@.len() {
            self.data@.subrange(self.pos as int, self.data@.len() as int)
        } else {
            Seq::empty()
        }
    }

    /// Whether `n` bytes can be read at the current position.
    pub open spec fn has(&self, n: int) -> bool {
        n <= self.rest().len()
    }

    /// A reader at the start of `data`.
    pub fn new(data: &'a [u8]) -> (r: Self)
        ensures
            r.data@ == data@,
            r.pos == 0,
            r.rest() == data@,
    {
        let r = Reader { data, pos: 0 };
        assert(r.rest() =~= data@);
        r
    }

    /// The current position.
    pub fn position(&self) -> (p: usize)
        ensures
            p == self.pos,
    {
        self.pos
    }

    /// Moves to the absolute position `p`, which may lie beyond the end.
    pub fn set_position(&mut self, p: usize)
        ensures
            final(self).pos == p,
            final(self).data == old(self).data,
    {
        self.pos = p;
    }

    /// Moves by `d` bytes, forwards or backwards. A move to before the start
    /// of the buffer, or beyond what a position can hold, is refused and
    /// leaves the reader where it was.
    pub fn seek_relative(&mut self, d: i64) -> (r: Result<(), CodecError>)
        ensures
            final(self).data == old(self).data,
            0 <= old(self).pos + d <= usize::MAX ==> r == Ok::<(), CodecError>(())
                && final(self).pos == old(self).pos + d,
            !(0 <= old(self).pos + d <= usize::MAX) ==> r == Err::<(), CodecError>(
                CodecError::OffsetOutOfRange,
            ) && final(self).pos == old(self).pos,
    {
        let target: i128 = self.pos as i128 + d as i128;
        if target < 0 || target > usize::MAX as i128 {
            Err(CodecError::OffsetOutOfRange)
        } else {
            self.pos = target as usize;
            Ok(())
        }
    }

    /// The number of bytes between the position and the end.
    pub fn remaining(&self) -> (n: usize)
        ensures
            n == self.rest().len(),
    {
        if self.pos <= self.data.len() {
            self.data.len() - self.pos
        } else {
            0
        }
    }

    /// Reads one byte. At the end of the buffer the read fails and the
    /// reader stays where it was.
    pub fn read_u8(&mut self) -> (r: Result<u8, CodecError>)
        ensures
            final(self).data == old(self).data,
            old(self).has(1) ==> r == Ok::<u8, CodecError>(old(self).data@[old(self).pos as int])
                && final(self).pos == old(self).pos + 1,
            !old(self).has(1) ==> r == Err::<u8, CodecError>(CodecError::TruncatedInput)
                && final(self).pos == old(self).pos,
    {
        if self.remaining() < 1 {
            return Err(CodecError::TruncatedInput);
        }
        let v: u8 = self.data[self.pos];
        self.pos = self.pos + 1;
        Ok(v)
    }

    /// Reads a 16-bit little-endian integer. With fewer than two bytes left
    /// the read fails and the reader stays where it was.
    pub fn read_u16(&mut self) -> (r: Result<u16, CodecError>)
        ensures
            final(self).data == old(self).data,
            old(self).has(2) ==> r == Ok::<u16, CodecError>(
                le_u16(old(self).data@, old(self).pos as int),
            ) && final(self).pos == old(self).pos + 2,
            !old(self).has(2) ==> r == Err::<u16, CodecError>(CodecError::TruncatedInput)
                && final(self).pos == old(self).pos,
    {
        if self.remaining() < 2 {
            return Err(CodecError::TruncatedInput);
        }
        let b0: u16 = self.data[self.pos] as u16;
        let b1: u16 = self.data[self.pos + 1] as u16;
        self.pos = self.pos + 2;
        Ok(b0 + 256 * b1)
    }

    /// Reads a 32-bit little-endian integer. With fewer than four bytes left
    /// the read fails and the reader stays where it was.
    pub fn read_u32(&mut self) -> (r: Result<u32, CodecError>)
        ensures
            final(self).data == old(self).data,
            old(self).has(4) ==> r == Ok::<u32, CodecError>(
                le_u32(old(self).data@, old(self).pos as int),
            ) && final(self).pos == old(self).pos + 4,
            !old(self).has(4) ==> r == Err::<u32, CodecError>(CodecError::TruncatedInput)
                && final(self).pos == old(self).pos,
    {
        if self.remaining() < 4 {
            return Err(CodecError::TruncatedInput);
        }
        let b0: u32 = self.data[self.pos] as u32;
        let b1: u32 = self.data[self.pos + 1] as u32;
        let b2: u32 = self.data[self.pos + 2] as u32;
        let b3: u32 = self.data[self.pos + 3] as u32;
        self.pos = self.pos + 4;
        Ok(b0 + 256 * b1 + 65536 * b2 + 16777216 * b3)
    }

    /// Reads a run of exactly `n` bytes. With fewer than `n` bytes left the
    /// read fails and the reader stays where it was.
    pub fn read_exact(&mut self, n: usize) -> (r: Result<Vec<u8>, CodecError>)
        ensures
            final(self).data == old(self).data,
            old(self).has(n as int) ==> r is Ok && r->Ok_0@ == old(self).rest().subrange(
                0,
                n as int,
            ) && final(self).pos == old(self).pos + n,
            !old(self).has(n as int) ==> r == Err::<Vec<u8>, CodecError>(
                CodecError::TruncatedInput,
            ) && final(self).pos == old(self).pos,
    {
        if self.remaining() < n {
            return Err(CodecError::TruncatedInput);
        }
        if n == 0 {
            return Ok(Vec::new());
        }
        let len: usize = self.data.len();
        assert(self.pos + n <= len);
        let run: Vec<u8> = slice_to_vec(&self.data[self.pos..self.pos + n]);
        assert(run@ =~= self.rest().subrange(0, n as int));
        self.pos = self.pos + n;
        Ok(run)
    }
}

/// What a buffer holds after `data` was written at `pos`: the bytes under the
/// run are replaced, a gap between the old end and `pos` is filled with
/// zeros, and the buffer grows as far as the run reaches.
pub open spec fn write_at(buf: Seq<u8>, pos: int, data: Seq<u8>) -> Seq<u8> {
    let end = pos + data.len();
    let len = if end > buf.len() {
        end
    } else {
        buf.len() as int
    };
    Seq::new(
        len as nat,
        |j: int|
            if pos <= j < end {
                data[j - pos]
            } else if j < buf.len() {
                buf[j]
            } else {
                0u8
            },
    )
}

/// A write at the end of the buffer appends.
pub proof fn lemma_write_at_end(buf: Seq<u8>, data: Seq<u8>)
    ensures
        write_at(buf, buf.len() as int, data) == buf + data,
{
    assert(write_at(buf, buf.len() as int, data) =~= buf + data);
}

/// A write position in an owned buffer that never grows beyond `limit`
/// bytes. With the largest limit the buffer grows as memory allows; with a
/// smaller one it stands for a buffer of fixed size.
pub struct Writer {
    pub buf: Vec<u8>,
    pub pos: usize,
    pub limit: usize,
}

impl Writer {
    /// Whether `n` bytes can be written at the current position.
    pub open spec fn fits(&self, n: int) -> bool {
        self.pos + n <= self.limit
    }

    /// Whether the position is the end of the buffer, so that a write
    /// appends.
    pub open spec fn at_end(&self) -> bool {
        self.pos == self.buf@.len()
    }

    /// An empty writer whose buffer may grow freely.
    pub fn new() -> (w: Self)
        ensures
            w.buf@ == Seq::<u8>::empty(),
            w.pos == 0,
            w.limit == usize::MAX,
    {
        Writer { buf: Vec::new(), pos: 0, limit: usize::MAX }
    }

    /// An empty writer whose buffer holds at most `limit` bytes.
    pub fn with_limit(limit: usize) -> (w: Self)
        ensures
            w.buf@ == Seq::<u8>::empty(),
            w.pos == 0,
            w.limit == limit,
    {
        Writer { buf: Vec::new(), pos: 0, limit }
    }

    /// A writer at the end of `buf`, which may grow freely.
    pub fn append_to(buf: Vec<u8>) -> (w: Self)
        ensures
            w.buf == buf,
            w.at_end(),
            w.limit == usize::MAX,
    {
        let pos: usize = buf.len();
        Writer { buf, pos, limit: usize::MAX }
    }

    /// A writer at the end of `buf`, which may grow to `limit` bytes.
    pub fn append_within(buf: Vec<u8>, limit: usize) -> (w: Self)
        ensures
            w.buf == buf,
            w.at_end(),
            w.limit == limit,
    {
        let pos: usize = buf.len();
        Writer { buf, pos, limit }
    }

    /// The current position.
    pub fn position(&self) -> (p: usize)
        ensures
            p == self.pos,
    {
        self.pos
    }

    /// Moves to the absolute position `p`, which may lie beyond the end.
    pub fn set_position(&mut self, p: usize)
        ensures
            final(self).pos == p,
            final(self).buf == old(self).buf,
            final(self).limit == old(self).limit,
    {
        self.pos = p;
    }

    /// Moves by `d` bytes, forwards or backwards. A move to before the start
    /// of the buffer, or beyond what a position can hold, is refused and
    /// leaves the writer where it was.
    pub fn seek_relative(&mut self, d: i64) -> (r: Result<(), CodecError>)
        ensures
            final(self).buf == old(self).buf,
            final(self).limit == old(self).limit,
            0 <= old(self).pos + d <= usize::MAX ==> r == Ok::<(), CodecError>(())
                && final(self).pos == old(self).pos + d,
            !(0 <= old(self).pos + d <= usize::MAX) ==> r == Err::<(), CodecError>(
                CodecError::OffsetOutOfRange,
            ) && final(self).pos == old(self).pos,
    {
        let target: i128 = self.pos as i128 + d as i128;
        if target < 0 || target > usize::MAX as i128 {
            Err(CodecError::OffsetOutOfRange)
        } else {
            self.pos = target as usize;
            Ok(())
        }
    }

    /// Writes the run `data` at the position and moves behind it. A run that
    /// would end beyond the limit is refused, and nothing is written.
    pub fn write_all(&mut self, data: &[u8]) -> (r: Result<(), CodecError>)
        ensures
            final(self).limit == old(self).limit,
            old(self).fits(data@.len() as int) ==> r == Ok::<(), CodecError>(())
                && final(self).buf@ == write_at(old(self).buf@, old(self).pos as int, data@)
                && final(self).pos == old(self).pos + data@.len(),
            old(self).fits(data@.len() as int) && old(self).at_end() ==> final(self).buf@ == old(self).buf@
                + data@,
            !old(self).fits(data@.len() as int) ==> r == Err::<(), CodecError>(
                CodecError::Overflow,
            ) && final(self).buf == old(self).buf && final(self).pos == old(self).pos,
    {
        let n: usize = data.len();
        if self.pos > self.limit || n > self.limit - self.pos {
            return Err(CodecError::Overflow);
        }
        while self.buf.len() < self.pos
            invariant
                self.pos == old(self).pos,
                self.limit == old(self).limit,
                old(self).buf@.len() <= self.buf@.len(),
                self.buf@.len() <= old(self).buf@.len() || self.buf@.len() <= self.pos,
                forall|j: int| 0 <= j < old(self).buf@.len() ==> self.buf@[j] == old(self).buf@[j],
                forall|j: int| old(self).buf@.len() <= j < self.buf@.len() ==> self.buf@[j] == 0,
            decreases self.pos - self.buf.len(),
        {
            self.buf.push(0u8);
        }
        let ghost padded = self.buf@;
        let mut i: usize = 0;
        while i < n
            invariant
                0 <= i <= n,
                n == data@.len(),
                self.pos == old(self).pos,
                self.limit == old(self).limit,
                self.pos + n <= usize::MAX,
                self.pos <= padded.len(),
                self.buf@.len() == if self.pos + i > padded.len() {
                    self.pos + i
                } else {
                    padded.len() as int
                },
                forall|j: int|
                    0 <= j < self.buf@.len() ==> self.buf@[j] == if self.pos <= j < self.pos + i {
                        data@[j - self.pos]
                    } else {
                        padded[j]
                    },
            decreases n - i,
        {
            if self.pos + i < self.buf.len() {
                self.buf[self.pos + i] = data[i];
            } else {
                self.buf.push(data[i]);
            }
            i = i + 1;
        }
        self.pos = self.pos + n;
        assert(self.buf@ =~= write_at(old(self).buf@, old(self).pos as int, data@));
        proof {
            if old(self).at_end() {
                lemma_write_at_end(old(self).buf@, data@);
            }
        }
        Ok(())
    }

    /// Writes one byte.
    pub fn write_u8(&mut self, v: u8) -> (r: Result<(), CodecError>)
        ensures
            final(self).limit == old(self).limit,
            old(self).fits(1) ==> r == Ok::<(), CodecError>(()) && final(self).buf@ == write_at(
                old(self).buf@,
                old(self).pos as int,
                seq![v],
            ) && final(self).pos == old(self).pos + 1,
            old(self).fits(1) && old(self).at_end() ==> final(self).buf@ == old(self).buf@ + seq![v],
            !old(self).fits(1) ==> r == Err::<(), CodecError>(CodecError::Overflow)
                && final(self).buf == old(self).buf && final(self).pos == old(self).pos,
    {
        let run: [u8; 1] = [v];
        assert(run@ =~= seq![v]);
        self.write_all(&run)
    }

    /// Writes a 16-bit integer, low byte first.
    pub fn write_u16(&mut self, v: u16) -> (r: Result<(), CodecError>)
        ensures
            final(self).limit == old(self).limit,
            old(self).fits(2) ==> r == Ok::<(), CodecError>(()) && final(self).buf@ == write_at(
                old(self).buf@,
                old(self).pos as int,
                u16_le(v),
            ) && final(self).pos == old(self).pos + 2,
            old(self).fits(2) && old(self).at_end() ==> final(self).buf@ == old(self).buf@ + u16_le(v),
            !old(self).fits(2) ==> r == Err::<(), CodecError>(CodecError::Overflow)
                && final(self).buf == old(self).buf && final(self).pos == old(self).pos,
    {
        let run: [u8; 2] = u16_to_le(v);
        self.write_all(&run)
    }

    /// Writes a 32-bit integer, low byte first.
    pub fn write_u32(&mut self, v: u32) -> (r: Result<(), CodecError>)
        ensures
            final(self).limit == old(self).limit,
            old(self).fits(4) ==> r == Ok::<(), CodecError>(()) && final(self).buf@ == write_at(
                old(self).buf@,
                old(self).pos as int,
                u32_le(v),
            ) && final(self).pos == old(self).pos + 4,
            old(self).fits(4) && old(self).at_end() ==> final(self).buf@ == old(self).buf@ + u32_le(v),
            !old(self).fits(4) ==> r == Err::<(), CodecError>(CodecError::Overflow)
                && final(self).buf == old(self).buf && final(self).pos == old(self).pos,
    {
        let run: [u8; 4] = u32_to_le(v);
        self.write_all(&run)
    }

    /// Gives the buffer away.
    pub fn into_bytes(self) -> (out: Vec<u8>)
        ensures
            out == self.buf,
    {
        self.buf
    }
}

} // verus!
