//! Little-endian binary primitives over in-memory byte buffers.

use vstd::prelude::*;

verus! {

/// Failures of the binary primitives.
#[derive(Debug, Clone, Copy, PartialEq, Eq, Structural)]
pub enum ExtError {
    /// Fewer bytes remain than the read asked for.
    UnexpectedEof,
    /// A name field did not hold valid UTF-8.
    InvalidData,
    /// A value was too large for the field it must fit in.
    InvalidInput,
}

/// The unsigned 16-bit value stored little-endian as the bytes `b0`, `b1`.
pub open spec fn le16(b0: u8, b1: u8) -> u16 {
    (b0 + b1 * 0x100) as u16
}

/// The unsigned 32-bit value stored little-endian as the bytes `b0`..`b3`.
pub open spec fn le32(b0: u8, b1: u8, b2: u8, b3: u8) -> u32 {
    (b0 + b1 * 0x100 + b2 * 0x10000 + b3 * 0x1000000) as u32
}

/// Reinterpret an unsigned 16-bit word as two's-complement signed.
pub open spec fn as_i16(u: u16) -> i16 {
    if u < 0x8000 {
        u as i16
    } else {
        (u - 0x10000) as i16
    }
}

/// Reinterpret a signed 16-bit value as its two's-complement word.
pub open spec fn as_u16(v: i16) -> u16 {
    if v >= 0 {
        v as u16
    } else {
        (v + 0x10000) as u16
    }
}

/// Reinterpret an unsigned 32-bit word as two's-complement signed.
pub open spec fn as_i32(u: u32) -> i32 {
    if u < 0x8000_0000 {
        u as i32
    } else {
        (u - 0x1_0000_0000) as i32
    }
}

/// Reinterpret a signed 32-bit value as its two's-complement word.
pub open spec fn as_u32(v: i32) -> u32 {
    if v >= 0 {
        v as u32
    } else {
        (v + 0x1_0000_0000) as u32
    }
}

/// The two little-endian bytes of an unsigned 16-bit value.
pub open spec fn u16_le(u: u16) -> Seq<u8> {
    seq![(u % 0x100) as u8, (u / 0x100) as u8]
}

/// The four little-endian bytes of an unsigned 32-bit value.
pub open spec fn u32_le(u: u32) -> Seq<u8> {
    seq![
        (u % 0x100) as u8,
        ((u / 0x100) % 0x100) as u8,
        ((u / 0x10000) % 0x100) as u8,
        (u / 0x1000000) as u8,
    ]
}

/// The two little-endian bytes of a signed 16-bit value.
pub open spec fn i16_le(v: i16) -> Seq<u8> {
    u16_le(as_u16(v))
}

/// The four little-endian bytes of a signed 32-bit value.
pub open spec fn i32_le(v: i32) -> Seq<u8> {
    u32_le(as_u32(v))
}

/// Encoding then decoding a 16-bit word is the identity, in both signs.
pub proof fn lemma_le16_round_trip(u: u16)
    ensures
        le16(u16_le(u)[0], u16_le(u)[1]) == u,
        as_u16(as_i16(u)) == u,
{
}

/// Encoding then decoding a 32-bit word is the identity, in both signs.
pub proof fn lemma_le32_round_trip(u: u32)
    ensures
        le32(u32_le(u)[0], u32_le(u)[1], u32_le(u)[2], u32_le(u)[3]) == u,
        as_u32(as_i32(u)) == u,
{
}

/// A sequence of `n` zero bytes.
pub open spec fn zeros(n: nat) -> Seq<u8> {
    Seq::new(n, |i: int| 0u8)
}

/// The prefix of `b` up to, and excluding, its first NUL byte; all of `b`
/// when no byte is NUL.
pub open spec fn spec_cstr(b: Seq<u8>) -> Seq<u8>
    decreases b.len(),
{
    if b.len() == 0 || b[0] == 0 {
        Seq::empty()
    } else {
        seq![b[0]] + spec_cstr(b.skip(1))
    }
}

/// The prefix up to the first NUL is the bytes before position `j`, when
/// everything before `j` is non-NUL and `j` is a NUL or the end.
pub proof fn lemma_cstr_char(b: Seq<u8>, j: int)
    requires
        0 <= j <= b.len(),
        forall|i: int| 0 <= i < j ==> b[i] != 0,
        j < b.len() ==> b[j] == 0,
    ensures
        spec_cstr(b) == b.take(j),
    decreases j, b.len(),
{
    if b.len() == 0 || b[0] == 0 {
        assert(j == 0);
        assert(b.take(0) =~= Seq::<u8>::empty());
    } else {
        assert(j > 0);
        assert forall|i: int| 0 <= i < j - 1 implies b.skip(1)[i] != 0 by {
            assert(b.skip(1)[i] == b[i + 1]);
        }
        if j - 1 < b.len() - 1 {
            assert(b.skip(1)[j - 1] == b[j]);
        }
        lemma_cstr_char(b.skip(1), j - 1);
        assert(seq![b[0]] + b.skip(1).take(j - 1) =~= b.take(j));
    }
}

/// Whether a byte sequence is valid UTF-8, as `str::from_utf8` decides it.
pub uninterp spec fn is_utf8(b: Seq<u8>) -> bool;

/// Relies on core::str::from_utf8: whether bytes are valid UTF-8 is a
/// function of the bytes alone.
#[verifier::external_body]
fn check_utf8(b: &Vec<u8>) -> (r: bool)
    ensures
        r == is_utf8(b@),
{
    core::str::from_utf8(b.as_slice()).is_ok()
}

/// Copy `n` bytes of `src` starting at `start` into a fresh vector.
pub fn copy_exact(src: &Vec<u8>, start: usize, n: usize) -> (r: Vec<u8>)
    requires
        start + n <= src.len(),
    ensures
        r@ == src@.subrange(start as int, start + n),
{
    let mut v: Vec<u8> = Vec::new();
    let mut i: usize = 0;
    while i < n
        invariant
            i <= n,
            start + n <= src.len(),
            v@ =~= src@.subrange(start as int, start + i),
        decreases n - i,
    {
        v.push(src[start + i]);
        assert(v@ =~= src@.subrange(start as int, start + i + 1));
        i = i + 1;
    }
    v
}

/// A sequential reader over an owned byte buffer.
pub struct MemReader {
    pub data: Vec<u8>,
    pub pos: usize,
}

impl MemReader {
    /// The cursor never passes the end of the buffer.
    pub open spec fn wf(&self) -> bool {
        self.pos <= self.data.len()
    }

    pub fn new(data: Vec<u8>) -> (r: Self)
        ensures
            r.wf(),
            r.data == data,
            r.pos == 0,
    {
        MemReader { data, pos: 0 }
    }

    /// Bytes left between the cursor and the end of the buffer.
    pub fn remaining(&self) -> (n: usize)
        requires
            self.wf(),
        ensures
            n == self.data.len() - self.pos,
    {
        self.data.len() - self.pos
    }

    /// Read exactly `n` bytes, or fail without moving when fewer remain.
    pub fn read_exact(&mut self, n: usize) -> (r: Result<Vec<u8>, ExtError>)
        requires
            old(self).wf(),
        ensures
            final(self).wf(),
            final(self).data == old(self).data,
            match r {
                Ok(v) => {
                    &&& old(self).pos + n <= old(self).data.len()
                    &&& v@ == old(self).data@.subrange(
                        old(self).pos as int,
                        old(self).pos + n,
                    )
                    &&& final(self).pos == old(self).pos + n
                },
                Err(e) => {
                    &&& e == ExtError::UnexpectedEof
                    &&& old(self).pos + n > old(self).data.len()
                    &&& final(self).pos == old(self).pos
                },
            },
    {
        if n > self.data.len() - self.pos {
            return Err(ExtError::UnexpectedEof);
        }
        let mut v: Vec<u8> = Vec::new();
        let mut i: usize = 0;
        while i < n
            invariant
                i <= n,
                self.pos + n <= self.data.len(),
                v@ == self.data@.subrange(self.pos as int, self.pos + i),
            decreases n - i,
        {
            v.push(self.data[self.pos + i]);
            assert(v@ =~= self.data@.subrange(self.pos as int, self.pos + i + 1));
            i = i + 1;
        }
        self.pos = self.pos + n;
        Ok(v)
    }

    pub fn read_u8(&mut self) -> (r: Result<u8, ExtError>)
        requires
            old(self).wf(),
        ensures
            final(self).wf(),
            final(self).data == old(self).data,
            match r {
                Ok(b) => {
                    &&& old(self).pos + 1 <= old(self).data.len()
                    &&& b == old(self).data[old(self).pos as int]
                    &&& final(self).pos == old(self).pos + 1
                },
                Err(e) => {
                    &&& e == ExtError::UnexpectedEof
                    &&& old(self).pos == old(self).data.len()
                    &&& final(self).pos == old(self).pos
                },
            },
    {
        if self.pos >= self.data.len() {
            return Err(ExtError::UnexpectedEof);
        }
        let b = self.data[self.pos];
        self.pos = self.pos + 1;
        Ok(b)
    }

    pub fn read_u16(&mut self) -> (r: Result<u16, ExtError>)
        requires
            old(self).wf(),
        ensures
            final(self).wf(),
            final(self).data == old(self).data,
            match r {
                Ok(u) => {
                    &&& old(self).pos + 2 <= old(self).data.len()
                    &&& u == le16(
                        old(self).data[old(self).pos as int],
                        old(self).data[old(self).pos + 1],
                    )
                    &&& final(self).pos == old(self).pos + 2
                },
                Err(e) => {
                    &&& e == ExtError::UnexpectedEof
                    &&& old(self).pos + 2 > old(self).data.len()
                    &&& final(self).pos == old(self).pos
                },
            },
    {
        if self.data.len() - self.pos < 2 {
            return Err(ExtError::UnexpectedEof);
        }
        let b0 = self.data[self.pos];
        let b1 = self.data[self.pos + 1];
        self.pos = self.pos + 2;
        Ok(b0 as u16 + (b1 as u16) * 0x100)
    }

    /// Read a signed 16-bit little-endian value.
    pub fn read_i16(&mut self) -> (r: Result<i16, ExtError>)
        requires
            old(self).wf(),
        ensures
            final(self).wf(),
            final(self).data == old(self).data,
            match r {
                Ok(v) => {
                    &&& old(self).pos + 2 <= old(self).data.len()
                    &&& v == as_i16(le16(
                        old(self).data[old(self).pos as int],
                        old(self).data[old(self).pos + 1],
                    ))
                    &&& final(self).pos == old(self).pos + 2
                },
                Err(e) => {
                    &&& e == ExtError::UnexpectedEof
                    &&& old(self).pos + 2 > old(self).data.len()
                    &&& final(self).pos == old(self).pos
                },
            },
    {
        let u = self.read_u16()?;
        if u < 0x8000 {
            Ok(u as i16)
        } else {
            Ok((u as i32 - 0x10000) as i16)
        }
    }

    pub fn read_u32(&mut self) -> (r: Result<u32, ExtError>)
        requires
            old(self).wf(),
        ensures
            final(self).wf(),
            final(self).data == old(self).data,
            match r {
                Ok(u) => {
                    &&& old(self).pos + 4 <= old(self).data.len()
                    &&& u == le32(
                        old(self).data[old(self).pos as int],
                        old(self).data[old(self).pos + 1],
                        old(self).data[old(self).pos + 2],
                        old(self).data[old(self).pos + 3],
                    )
                    &&& final(self).pos == old(self).pos + 4
                },
                Err(e) => {
                    &&& e == ExtError::UnexpectedEof
                    &&& old(self).pos + 4 > old(self).data.len()
                    &&& final(self).pos == old(self).pos
                },
            },
    {
        if self.data.len() - self.pos < 4 {
            return Err(ExtError::UnexpectedEof);
        }
        let b0 = self.data[self.pos];
        let b1 = self.data[self.pos + 1];
        let b2 = self.data[self.pos + 2];
        let b3 = self.data[self.pos + 3];
        self.pos = self.pos + 4;
        Ok(b0 as u32 + (b1 as u32) * 0x100 + (b2 as u32) * 0x10000 + (b3 as u32) * 0x1000000)
    }

    /// Read a fixed-width NUL-padded name field: exactly `size` bytes,
    /// keeping the prefix before the first NUL, which must be valid UTF-8.
    pub fn read_cstring_with_size(&mut self, size: usize) -> (r: Result<Vec<u8>, ExtError>)
        requires
            old(self).wf(),
        ensures
            final(self).wf(),
            final(self).data == old(self).data,
            match r {
                Ok(name) => {
                    &&& old(self).pos + size <= old(self).data.len()
                    &&& name@ == spec_cstr(
                        old(self).data@.subrange(old(self).pos as int, old(self).pos + size),
                    )
                    &&& is_utf8(name@)
                    &&& final(self).pos == old(self).pos + size
                },
                Err(e) => {
                    &&& (e == ExtError::UnexpectedEof || e == ExtError::InvalidData)
                    &&& (e == ExtError::UnexpectedEof <==> old(self).pos + size > old(
                        self,
                    ).data.len())
                    &&& e == ExtError::InvalidData ==> !is_utf8(
                        spec_cstr(
                            old(self).data@.subrange(old(self).pos as int, old(self).pos + size),
                        ),
                    )
                },
            },
    {
        let field = self.read_exact(size)?;
        let ghost f = field@;
        let mut j: usize = 0;
        while j < field.len() && field[j] != 0
            invariant
                j <= f.len(),
                f == field@,
                forall|i: int| 0 <= i < j ==> f[i] != 0,
            decreases f.len() - j,
        {
            j = j + 1;
        }
        proof {
            lemma_cstr_char(f, j as int);
        }
        let mut name: Vec<u8> = Vec::new();
        let mut i: usize = 0;
        while i < j
            invariant
                i <= j <= f.len(),
                f == field@,
                name@ =~= f.take(j as int).take(i as int),
            decreases j - i,
        {
            name.push(field[i]);
            assert(name@ =~= f.take(j as int).take(i + 1));
            i = i + 1;
        }
        assert(name@ =~= f.take(j as int));
        if !check_utf8(&name) {
            return Err(ExtError::InvalidData);
        }
        Ok(name)
    }

    /// Read a signed 32-bit little-endian value.
    pub fn read_i32(&mut self) -> (r: Result<i32, ExtError>)
        requires
            old(self).wf(),
        ensures
            final(self).wf(),
            final(self).data == old(self).data,
            match r {
                Ok(v) => {
                    &&& old(self).pos + 4 <= old(self).data.len()
                    &&& v == as_i32(le32(
                        old(self).data[old(self).pos as int],
                        old(self).data[old(self).pos + 1],
                        old(self).data[old(self).pos + 2],
                        old(self).data[old(self).pos + 3],
                    ))
                    &&& final(self).pos == old(self).pos + 4
                },
                Err(e) => {
                    &&& e == ExtError::UnexpectedEof
                    &&& old(self).pos + 4 > old(self).data.len()
                    &&& final(self).pos == old(self).pos
                },
            },
    {
        let u = self.read_u32()?;
        if u < 0x8000_0000 {
            Ok(u as i32)
        } else {
            Ok((u as i64 - 0x1_0000_0000) as i32)
        }
    }
}

/// An append-only writer over an owned byte buffer.
pub struct MemWriter {
    pub data: Vec<u8>,
}

impl MemWriter {
    pub fn new() -> (r: Self)
        ensures
            r.data@ == Seq::<u8>::empty(),
    {
        MemWriter { data: Vec::new() }
    }

    pub fn write_u8(&mut self, b: u8)
        ensures
            final(self).data@ == old(self).data@.push(b),
    {
        self.data.push(b);
    }

    pub fn write_all(&mut self, buf: &Vec<u8>)
        ensures
            final(self).data@ == old(self).data@ + buf@,
    {
        let mut i: usize = 0;
        while i < buf.len()
            invariant
                i <= buf.len(),
                self.data@ == old(self).data@ + buf@.subrange(0, i as int),
            decreases buf.len() - i,
        {
            self.data.push(buf[i]);
            assert(self.data@ =~= old(self).data@ + buf@.subrange(0, i + 1));
            i = i + 1;
        }
        assert(self.data@ =~= old(self).data@ + buf@);
    }

    pub fn write_u16(&mut self, u: u16)
        ensures
            final(self).data@ == old(self).data@ + u16_le(u),
    {
        self.data.push((u % 0x100) as u8);
        self.data.push((u / 0x100) as u8);
        assert(self.data@ =~= old(self).data@ + u16_le(u));
    }

    pub fn write_i16(&mut self, v: i16)
        ensures
            final(self).data@ == old(self).data@ + i16_le(v),
    {
        let u: u16 = if v >= 0 {
            v as u16
        } else {
            (v as i32 + 0x10000) as u16
        };
        assert(u == as_u16(v));
        self.write_u16(u);
    }

    pub fn write_u32(&mut self, u: u32)
        ensures
            final(self).data@ == old(self).data@ + u32_le(u),
    {
        self.data.push((u % 0x100) as u8);
        self.data.push(((u / 0x100) % 0x100) as u8);
        self.data.push(((u / 0x10000) % 0x100) as u8);
        self.data.push((u / 0x1000000) as u8);
        assert(self.data@ =~= old(self).data@ + u32_le(u));
    }

    /// Write a fixed-width NUL-padded name field: the name's bytes, then
    /// zeros up to `size`; a name longer than the field is refused.
    pub fn write_cstring_with_size(&mut self, s: &Vec<u8>, size: usize) -> (r: Result<
        (),
        ExtError,
    >)
        ensures
            match r {
                Ok(()) => {
                    &&& s@.len() <= size
                    &&& final(self).data@ == old(self).data@ + s@ + zeros((size - s@.len()) as nat)
                },
                Err(e) => {
                    &&& e == ExtError::InvalidInput
                    &&& s@.len() > size
                    &&& final(self).data@ == old(self).data@
                },
            },
    {
        if s.len() > size {
            return Err(ExtError::InvalidInput);
        }
        self.write_all(s);
        let ghost mid = self.data@;
        let pad: usize = size - s.len();
        let mut i: usize = 0;
        while i < pad
            invariant
                i <= pad,
                self.data@ =~= mid + zeros(i as nat),
            decreases pad - i,
        {
            self.data.push(0);
            assert(self.data@ =~= mid + zeros((i + 1) as nat));
            i = i + 1;
        }
        assert(self.data@ =~= old(self).data@ + s@ + zeros(pad as nat));
        Ok(())
    }

    pub fn write_i32(&mut self, v: i32)
        ensures
            final(self).data@ == old(self).data@ + i32_le(v),
    {
        let u: u32 = if v >= 0 {
            v as u32
        } else {
            (v as i64 + 0x1_0000_0000) as u32
        };
        assert(u == as_u32(v));
        self.write_u32(u);
    }
}

} // verus!
