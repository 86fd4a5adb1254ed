//! Reading from a byte slice, and writing to a byte vector up to a limit.

use crate::error::{IoError, PicklebackError};
use crate::wire;
use vstd::prelude::*;

verus! {

/// What a parser finds at the start of some bytes, and the bytes that follow it.
pub type Parsed<T> = Result<(T, Seq<u8>), PicklebackError>;

/// The first `len` bytes as a big-endian number.
pub open spec fn parse_uint(s: Seq<u8>, len: nat) -> Parsed<nat> {
    if s.len() < len {
        Err(PicklebackError::Io(IoError::UnexpectedEof))
    } else {
        Ok((wire::be_nat(s.take(len as int)), s.skip(len as int)))
    }
}

/// The first byte.
pub open spec fn parse_u8(s: Seq<u8>) -> Parsed<u8> {
    if s.len() == 0 {
        Err(PicklebackError::Io(IoError::UnexpectedEof))
    } else {
        Ok((s[0], s.skip(1)))
    }
}

/// What parsing the bytes of a number gives back: the number and what follows.
pub proof fn lemma_parse_uint(n: nat, len: nat, rest: Seq<u8>)
    requires
        wire::be_nat(wire::be_bytes(n, len)) == n,
    ensures
        parse_uint(wire::be_bytes(n, len) + rest, len) == Ok::<_, PicklebackError>((n, rest)),
{
    wire::lemma_be_bytes_len(n, len);
    let s = wire::be_bytes(n, len) + rest;
    assert(s.take(len as int) =~= wire::be_bytes(n, len));
    assert(s.skip(len as int) =~= rest);
}

/// A one byte number is that byte.
pub proof fn lemma_parse_uint_u8(s: Seq<u8>)
    ensures
        parse_uint(s, 1) == (match parse_u8(s) {
            Ok((b, rest)) => Ok::<(nat, Seq<u8>), PicklebackError>((b as nat, rest)),
            Err(e) => Err(e),
        }),
{
    if s.len() > 0 {
        assert(s.take(1).drop_last() =~= Seq::empty());
        reveal_with_fuel(wire::be_nat, 2);
    }
}

/// A position in a slice of bytes that are read front to back.
pub struct Cursor<'a> {
    data: &'a [u8],
    pos: usize,
}

impl<'a> Cursor<'a> {
    /// The position lies within the data.
    pub closed spec fn wf(&self) -> bool {
        self.pos <= self.data@.len()
    }

    /// All the bytes, read or not.
    pub closed spec fn all(&self) -> Seq<u8> {
        self.data@
    }

    /// The bytes not read yet.
    pub closed spec fn rest(&self) -> Seq<u8> {
        self.data@.skip(self.pos as int)
    }

    /// The bytes not read yet are the end of all the bytes.
    pub proof fn lemma_rest(&self)
        requires
            self.wf(),
        ensures
            self.rest().len() <= self.all().len(),
            self.rest() == self.all().skip(self.all().len() - self.rest().len()),
    {
    }

    /// A cursor in front of `data`.
    pub fn new(data: &'a [u8]) -> (r: Self)
        ensures
            r.wf(),
            r.all() == data@,
            r.rest() == data@,
    {
        let r = Cursor { data, pos: 0 };
        assert(r.rest() =~= data@);
        r
    }

    /// How many bytes have been read.
    pub fn position(&self) -> (r: u64)
        requires
            self.wf(),
        ensures
            r == self.all().len() - self.rest().len(),
    {
        self.pos as u64
    }

    /// How many bytes are left.
    pub fn remaining(&self) -> (r: u64)
        requires
            self.wf(),
        ensures
            r == self.rest().len(),
    {
        (self.data.len() - self.pos) as u64
    }

    /// The bytes that are left.
    pub fn remaining_slice(&self) -> (r: &'a [u8])
        requires
            self.wf(),
        ensures
            r@ == self.rest(),
    {
        let r = &self.data[self.pos..self.data.len()];
        assert(r@ =~= self.rest());
        r
    }

    /// Whether no bytes are left.
    pub fn is_empty(&self) -> (r: bool)
        requires
            self.wf(),
        ensures
            r == (self.rest().len() == 0),
    {
        self.pos >= self.data.len()
    }

    /// The next `len` bytes, if there are as many. Else the cursor stays where it is.
    pub fn take(&mut self, len: usize) -> (r: Option<&'a [u8]>)
        requires
            old(self).wf(),
        ensures
            final(self).wf(),
            final(self).all() == old(self).all(),
            match r {
                Some(bytes) => {
                    &&& len <= old(self).rest().len()
                    &&& bytes@ == old(self).rest().take(len as int)
                    &&& final(self).rest() == old(self).rest().skip(len as int)
                },
                None => {
                    &&& len > old(self).rest().len()
                    &&& final(self).rest() == old(self).rest()
                },
            },
    {
        if self.data.len() - self.pos < len {
            return None;
        }
        let r = &self.data[self.pos..self.pos + len];
        self.pos = self.pos + len;
        assert(r@ =~= old(self).rest().take(len as int));
        assert(self.rest() =~= old(self).rest().skip(len as int));
        Some(r)
    }

    /// Reads one byte.
    pub fn read_u8(&mut self) -> (r: Result<u8, PicklebackError>)
        requires
            old(self).wf(),
        ensures
            final(self).wf(),
            final(self).all() == old(self).all(),
            match r {
                Ok(v) => parse_u8(old(self).rest()) == Ok::<_, PicklebackError>(
                    (v, final(self).rest()),
                ),
                Err(e) => parse_u8(old(self).rest()) == Err::<(u8, Seq<u8>), _>(e) 
                    && final(self).rest() == old(self).rest(),
            },
    {
        match self.take(1) {
            Some(bytes) => Ok(bytes[0]),
            None => Err(PicklebackError::Io(IoError::UnexpectedEof)),
        }
    }

    /// Reads a two byte number.
    pub fn read_u16(&mut self) -> (r: Result<u16, PicklebackError>)
        requires
            old(self).wf(),
        ensures
            final(self).wf(),
            final(self).all() == old(self).all(),
            match r {
                Ok(v) => parse_uint(old(self).rest(), 2) == Ok::<_, PicklebackError>(
                    (v as nat, final(self).rest()),
                ),
                Err(e) => parse_uint(old(self).rest(), 2) == Err::<(nat, Seq<u8>), _>(e) 
                    && final(self).rest() == old(self).rest(),
            },
    {
        match self.take(2) {
            Some(bytes) => {
                assert(bytes@.take(2) =~= bytes@);
                Ok(wire::read_u16(bytes))
            },
            None => Err(PicklebackError::Io(IoError::UnexpectedEof)),
        }
    }

    /// Reads a four byte number.
    pub fn read_u32(&mut self) -> (r: Result<u32, PicklebackError>)
        requires
            old(self).wf(),
        ensures
            final(self).wf(),
            final(self).all() == old(self).all(),
            match r {
                Ok(v) => parse_uint(old(self).rest(), 4) == Ok::<_, PicklebackError>(
                    (v as nat, final(self).rest()),
                ),
                Err(e) => parse_uint(old(self).rest(), 4) == Err::<(nat, Seq<u8>), _>(e) 
                    && final(self).rest() == old(self).rest(),
            },
    {
        match self.take(4) {
            Some(bytes) => {
                assert(bytes@.take(4) =~= bytes@);
                Ok(wire::read_u32(bytes))
            },
            None => Err(PicklebackError::Io(IoError::UnexpectedEof)),
        }
    }

    /// Reads an eight byte number.
    pub fn read_u64(&mut self) -> (r: Result<u64, PicklebackError>)
        requires
            old(self).wf(),
        ensures
            final(self).wf(),
            final(self).all() == old(self).all(),
            match r {
                Ok(v) => parse_uint(old(self).rest(), 8) == Ok::<_, PicklebackError>(
                    (v as nat, final(self).rest()),
                ),
                Err(e) => parse_uint(old(self).rest(), 8) == Err::<(nat, Seq<u8>), _>(e) 
                    && final(self).rest() == old(self).rest(),
            },
    {
        match self.take(8) {
            Some(bytes) => {
                assert(bytes@.take(8) =~= bytes@);
                Ok(wire::read_u64(bytes))
            },
            None => Err(PicklebackError::Io(IoError::UnexpectedEof)),
        }
    }
}

/// What has been written to a limited output, and how many more bytes it takes.
#[verifier::ext_equal]
pub struct LimitedOutput {
    pub out: Seq<u8>,
    pub room: nat,
}

impl LimitedOutput {
    /// With as much of `bytes` appended as there is room for.
    pub open spec fn after(self, bytes: Seq<u8>) -> Self {
        let n = if bytes.len() <= self.room {
            bytes.len()
        } else {
            self.room
        };
        LimitedOutput { out: self.out + bytes.take(n as int), room: (self.room - n) as nat }
    }

    /// Writing two pieces one after the other is writing them joined together.
    pub proof fn lemma_after(self, a: Seq<u8>, b: Seq<u8>)
        ensures
            self.after(a).after(b) == self.after(a + b),
            a.len() > self.room ==> self.after(a) == self.after(a + b),
            self.after(Seq::empty()) == self,
            a.len() <= self.room ==> self.after(a) == (LimitedOutput {
                out: self.out + a,
                room: (self.room - a.len()) as nat,
            }),
    {
        assert(self.after(a).after(b) =~= self.after(a + b));
        if a.len() > self.room {
            assert(self.after(a) =~= self.after(a + b));
        } else {
            assert(a.take(a.len() as int) =~= a);
        }
        assert(self.after(Seq::empty()) =~= self);
    }
}

/// Appends to a byte vector until a limit is reached.
pub struct WriteLimiter {
    writer: Vec<u8>,
    limit: usize,
    written: usize,
}

/// The writer that packets are composed with.
pub type BufferLimitedWriter = WriteLimiter;

impl View for WriteLimiter {
    type V = LimitedOutput;

    closed spec fn view(&self) -> LimitedOutput {
        LimitedOutput {
            out: self.writer@,
            room: if self.written <= self.limit {
                (self.limit - self.written) as nat
            } else {
                0
            },
        }
    }
}

impl WriteLimiter {
    /// Takes up to `limit` bytes behind those that are in `writer`.
    pub fn new(writer: Vec<u8>, limit: usize) -> (r: Self)
        ensures
            r@ == (LimitedOutput { out: writer@, room: limit as nat }),
    {
        WriteLimiter { writer, limit, written: 0 }
    }

    /// How many more bytes can be written.
    pub fn remaining(&self) -> (r: usize)
        ensures
            r == self@.room,
    {
        self.limit.saturating_sub(self.written)
    }

    /// The vector with what was written to it.
    pub fn into_inner(self) -> (r: Vec<u8>)
        ensures
            r@ == self@.out,
    {
        self.writer
    }

    /// Writes as much of `buf` as there is room for, and returns how much that was.
    pub fn write(&mut self, buf: &[u8]) -> (r: usize)
        ensures
            final(self)@ == old(self)@.after(buf@),
            r == old(self)@.room - final(self)@.room,
    {
        if self.written >= self.limit {
            assert(self@ =~= old(self)@.after(buf@));
            return 0;
        }
        let allowed_to_write = self.limit - self.written;
        let to_write = if allowed_to_write < buf.len() {
            allowed_to_write
        } else {
            buf.len()
        };
        let piece = &buf[0..to_write];
        self.writer.extend_from_slice(piece);
        self.written = self.written + to_write;
        assert(piece@ =~= buf@.take(to_write as int));
        assert(self@ =~= old(self)@.after(buf@));
        to_write
    }

    /// Writes the whole of `buf`. Fails, with what there is room for written, where it does not
    /// fit.
    pub fn write_all(&mut self, buf: &[u8]) -> (r: Result<(), PicklebackError>)
        ensures
            final(self)@ == old(self)@.after(buf@),
            r == write_result(buf@.len(), old(self)@.room),
    {
        let n = self.write(buf);
        if n < buf.len() {
            return Err(PicklebackError::Io(IoError::WriteZero));
        }
        Ok(())
    }

    /// Writes one byte.
    pub fn write_u8(&mut self, n: u8) -> (r: Result<(), PicklebackError>)
        ensures
            final(self)@ == old(self)@.after(seq![n]),
            r == write_result(1, old(self)@.room),
    {
        let tmp: [u8; 1] = [n];
        assert(tmp@ =~= seq![n]);
        self.write_all(&tmp)
    }

    /// Writes a two byte number.
    pub fn write_u16(&mut self, n: u16) -> (r: Result<(), PicklebackError>)
        ensures
            final(self)@ == old(self)@.after(wire::be_bytes(n as nat, 2)),
            r == write_result(2, old(self)@.room),
    {
        let mut tmp: [u8; 2] = [0, 0];
        wire::write_u16(&mut tmp, n);
        proof {
            wire::lemma_be_bytes_len(n as nat, 2);
            assert(tmp@ =~= wire::be_bytes(n as nat, 2));
        }
        self.write_all(&tmp)
    }

    /// Writes a four byte number.
    pub fn write_u32(&mut self, n: u32) -> (r: Result<(), PicklebackError>)
        ensures
            final(self)@ == old(self)@.after(wire::be_bytes(n as nat, 4)),
            r == write_result(4, old(self)@.room),
    {
        let mut tmp: [u8; 4] = [0, 0, 0, 0];
        wire::write_u32(&mut tmp, n);
        proof {
            wire::lemma_be_bytes_len(n as nat, 4);
            assert(tmp@ =~= wire::be_bytes(n as nat, 4));
        }
        self.write_all(&tmp)
    }

    /// Writes an eight byte number.
    pub fn write_u64(&mut self, n: u64) -> (r: Result<(), PicklebackError>)
        ensures
            final(self)@ == old(self)@.after(wire::be_bytes(n as nat, 8)),
            r == write_result(8, old(self)@.room),
    {
        let mut tmp: [u8; 8] = [0, 0, 0, 0, 0, 0, 0, 0];
        wire::write_u64(&mut tmp, n);
        proof {
            wire::lemma_be_bytes_len(n as nat, 8);
            assert(tmp@ =~= wire::be_bytes(n as nat, 8));
        }
        self.write_all(&tmp)
    }
}

/// Whether `len` bytes can be written whole where there is room for `room`.
pub open spec fn write_result(len: nat, room: nat) -> Result<(), PicklebackError> {
    if len <= room {
        Ok(())
    } else {
        Err(PicklebackError::Io(IoError::WriteZero))
    }
}

} // verus!
