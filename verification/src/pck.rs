//! The PCK flat archive: a reader that cross-validates the duplicated
//! index and hands out bounded sub-file readers, and a writer that authors
//! a new archive and can grow its reserved header region mid-write.

use vstd::prelude::*;

verus! {

use crate::ext::{le32, u32_le, zeros, spec_cstr, is_utf8, MemReader, MemWriter, ExtError};

/// Failures of PCK parsing, reading and authoring.
#[derive(Debug, Clone, PartialEq, Eq)]
pub enum PckError {
    /// The short and long index tables disagree for the named entry.
    IndexMismatch(Vec<u8>),
    /// A seek outside a sub-file's bounds, or a name too long for its
    /// fixed-width field.
    InvalidInput,
    /// The stream ends inside the index.
    UnexpectedEof,
    /// A name field does not hold valid UTF-8.
    InvalidData,
}

/// The mathematical value of a [`PckError`].
pub enum PckErrModel {
    IndexMismatch(Seq<u8>),
    InvalidInput,
    UnexpectedEof,
    InvalidData,
}

impl View for PckError {
    type V = PckErrModel;

    open spec fn view(&self) -> PckErrModel {
        match self {
            PckError::IndexMismatch(name) => PckErrModel::IndexMismatch(name@),
            PckError::InvalidInput => PckErrModel::InvalidInput,
            PckError::UnexpectedEof => PckErrModel::UnexpectedEof,
            PckError::InvalidData => PckErrModel::InvalidData,
        }
    }
}

/// One index entry: a name of at most 0x38 bytes, and the entry's absolute
/// offset and size in bytes.
#[derive(Debug, Clone, PartialEq, Eq)]
pub struct PckFileHeader {
    pub name: Vec<u8>,
    pub offset: u32,
    pub size: u32,
}

/// The mathematical value of a [`PckFileHeader`].
pub struct HeaderModel {
    pub name: Seq<u8>,
    pub offset: u32,
    pub size: u32,
}

impl View for PckFileHeader {
    type V = HeaderModel;

    open spec fn view(&self) -> HeaderModel {
        HeaderModel { name: self.name@, offset: self.offset, size: self.size }
    }
}

/// The models of a list of index entries.
pub open spec fn header_models(hs: Seq<PckFileHeader>) -> Seq<HeaderModel> {
    Seq::new(hs.len(), |i: int| hs[i]@)
}

/// The unsigned 32-bit word at offset `p` of `d`, little-endian.
pub open spec fn p_u32(d: Seq<u8>, p: int) -> u32 {
    le32(d[p], d[p + 1], d[p + 2], d[p + 3])
}

/// Parse the long index entries `i..n` of a PCK stream and hold them
/// against the short table: each entry is a 0x38-byte NUL-padded name and
/// its offset and size, which must repeat the short table's pair.
pub open spec fn spec_parse_entries(d: Seq<u8>, n: int, i: int) -> Result<
    Seq<HeaderModel>,
    PckErrModel,
>
    decreases n - i,
{
    if i >= n {
        Ok(Seq::empty())
    } else {
        let base = 4 + 8 * n + 0x40 * i;
        if d.len() < base + 0x38 {
            Err(PckErrModel::UnexpectedEof)
        } else {
            let name = spec_cstr(d.subrange(base, base + 0x38));
            if !is_utf8(name) {
                Err(PckErrModel::InvalidData)
            } else if d.len() < base + 0x40 {
                Err(PckErrModel::UnexpectedEof)
            } else {
                let off = p_u32(d, base + 0x38);
                let sz = p_u32(d, base + 0x3C);
                if p_u32(d, 4 + 8 * i) != off || p_u32(d, 8 + 8 * i) != sz {
                    Err(PckErrModel::IndexMismatch(name))
                } else {
                    match spec_parse_entries(d, n, i + 1) {
                        Err(e) => Err(e),
                        Ok(rest) => Ok(
                            seq![HeaderModel { name, offset: off, size: sz }] + rest,
                        ),
                    }
                }
            }
        }
    }
}

/// Parse a PCK index: the entry count, the short table of offset/size
/// pairs, then the long table, which must agree with the short one.
pub open spec fn spec_parse_pck(d: Seq<u8>) -> Result<Seq<HeaderModel>, PckErrModel> {
    if d.len() < 4 {
        Err(PckErrModel::UnexpectedEof)
    } else {
        let n = p_u32(d, 0) as int;
        if d.len() < 4 + 8 * n {
            Err(PckErrModel::UnexpectedEof)
        } else {
            spec_parse_entries(d, n, 0)
        }
    }
}

/// An open PCK archive: the underlying byte stream and its validated
/// index.
pub struct PckReader {
    pub reader: MemReader,
    pub file_headers: Vec<PckFileHeader>,
}

/// Chaining one parsed entry onto an entry-parse continuation.
proof fn lemma_parse_entries_compose(
    d: Seq<u8>,
    n: int,
    i: int,
    pre: Seq<HeaderModel>,
    h: HeaderModel,
)
    requires
        0 <= i < n,
        spec_parse_entries(d, n, i) == (match spec_parse_entries(d, n, i + 1) {
            Ok(rest) => Ok::<Seq<HeaderModel>, PckErrModel>(seq![h] + rest),
            Err(e) => Err::<Seq<HeaderModel>, PckErrModel>(e),
        }),
        spec_parse_entries(d, n, 0) == (match spec_parse_entries(d, n, i) {
            Ok(t) => Ok::<Seq<HeaderModel>, PckErrModel>(pre + t),
            Err(e) => Err::<Seq<HeaderModel>, PckErrModel>(e),
        }),
    ensures
        spec_parse_entries(d, n, 0) == (match spec_parse_entries(d, n, i + 1) {
            Ok(t) => Ok::<Seq<HeaderModel>, PckErrModel>((pre + seq![h]) + t),
            Err(e) => Err::<Seq<HeaderModel>, PckErrModel>(e),
        }),
{
    match spec_parse_entries(d, n, i + 1) {
        Ok(t) => {
            assert(pre + (seq![h] + t) =~= (pre + seq![h]) + t);
        },
        Err(e) => {},
    }
}

/// Read one long-index entry: the 0x38-byte name field, then the entry's
/// offset and size.
fn read_long_entry(file: &mut MemReader) -> (r: Result<(Vec<u8>, u32, u32), PckError>)
    requires
        old(file).wf(),
    ensures
        final(file).wf(),
        final(file).data == old(file).data,
        match r {
            Ok(t) => {
                &&& old(file).pos + 0x40 <= old(file).data.len()
                &&& t.0@ == spec_cstr(
                    old(file).data@.subrange(old(file).pos as int, old(file).pos + 0x38),
                )
                &&& is_utf8(t.0@)
                &&& t.1 == p_u32(old(file).data@, old(file).pos + 0x38)
                &&& t.2 == p_u32(old(file).data@, old(file).pos + 0x3C)
                &&& final(file).pos == old(file).pos + 0x40
            },
            Err(e) => match e@ {
                PckErrModel::UnexpectedEof => old(file).pos + 0x38 > old(file).data.len() || (
                is_utf8(
                    spec_cstr(
                        old(file).data@.subrange(old(file).pos as int, old(file).pos + 0x38),
                    ),
                ) && old(file).pos + 0x40 > old(file).data.len()),
                PckErrModel::InvalidData => old(file).pos + 0x38 <= old(file).data.len()
                    && !is_utf8(
                    spec_cstr(
                        old(file).data@.subrange(old(file).pos as int, old(file).pos + 0x38),
                    ),
                ),
                _ => false,
            },
        },
{
    let name = match file.read_cstring_with_size(0x38) {
        Ok(v) => v,
        Err(ExtError::InvalidData) => {
            return Err(PckError::InvalidData);
        },
        Err(_) => {
            return Err(PckError::UnexpectedEof);
        },
    };
    let off = match file.read_u32() {
        Ok(v) => v,
        Err(_) => {
            return Err(PckError::UnexpectedEof);
        },
    };
    let sz = match file.read_u32() {
        Ok(v) => v,
        Err(_) => {
            return Err(PckError::UnexpectedEof);
        },
    };
    Ok((name, off, sz))
}

impl PckReader {
    /// The underlying stream is intact and the held index is what parsing
    /// the stream yields.
    pub open spec fn wf(&self) -> bool {
        &&& self.reader.wf()
        &&& spec_parse_pck(self.reader.data@) == Ok::<Seq<HeaderModel>, PckErrModel>(
            header_models(self.file_headers@),
        )
    }

    /// Open an archive over a byte stream: read the entry count, the short
    /// table, then the long table, refusing any disagreement between them.
    #[verifier::rlimit(100)]
    #[verifier::spinoff_prover]
    pub fn new(reader: MemReader) -> (r: Result<PckReader, PckError>)
        requires
            reader.wf(),
            reader.pos == 0,
        ensures
            match r {
                Ok(p) => {
                    &&& spec_parse_pck(reader.data@) == Ok::<Seq<HeaderModel>, PckErrModel>(
                        header_models(p.file_headers@),
                    )
                    &&& p.reader.data@ == reader.data@
                    &&& p.wf()
                },
                Err(e) => spec_parse_pck(reader.data@) == Err::<Seq<HeaderModel>, PckErrModel>(
                    e@,
                ),
            },
    {
        let ghost d = reader.data@;
        let mut file = reader;
        let count = match file.read_u32() {
            Ok(v) => v,
            Err(_) => {
                return Err(PckError::UnexpectedEof);
            },
        };
        assert(count == p_u32(d, 0));
        let ghost n = count as int;
        let mut offset_list: Vec<(u32, u32)> = Vec::new();
        let mut i: u32 = 0;
        while i < count
            invariant
                0 <= i <= count,
                file.wf(),
                file.data@ == d,
                d == reader.data@,
                file.pos == 4 + 8 * i,
                count == p_u32(d, 0),
                n == count as int,
                d.len() >= 4,
                offset_list@.len() == i,
                forall|j: int|
                    0 <= j < i ==> #[trigger] offset_list@[j] == (
                    p_u32(d, 4 + 8 * j),
                    p_u32(d, 8 + 8 * j),
                ),
            decreases count - i,
        {
            let off = match file.read_u32() {
                Ok(v) => v,
                Err(_) => {
                    return Err(PckError::UnexpectedEof);
                },
            };
            let sz = match file.read_u32() {
                Ok(v) => v,
                Err(_) => {
                    return Err(PckError::UnexpectedEof);
                },
            };
            offset_list.push((off, sz));
            i = i + 1;
        }
        assert(d.len() >= 4 + 8 * n);
        let mut file_headers: Vec<PckFileHeader> = Vec::new();
        let mut i2: u32 = 0;
        proof {
            match spec_parse_entries(d, n, 0) {
                Ok(t) => {
                    assert(Seq::<HeaderModel>::empty() + t =~= t);
                },
                Err(_) => {},
            }
        }
        while i2 < count
            invariant
                0 <= i2 <= count,
                file.wf(),
                file.data@ == d,
                d == reader.data@,
                file.pos == 4 + 8 * (count as int) + 0x40 * (i2 as int),
                count == p_u32(d, 0),
                n == count as int,
                d.len() >= 4 + 8 * n,
                offset_list@.len() == count,
                forall|j: int|
                    0 <= j < count ==> #[trigger] offset_list@[j] == (
                    p_u32(d, 4 + 8 * j),
                    p_u32(d, 8 + 8 * j),
                ),
                file_headers@.len() == i2,
                spec_parse_entries(d, n, 0) == (match spec_parse_entries(d, n, i2 as int) {
                    Ok(t) => Ok::<Seq<HeaderModel>, PckErrModel>(
                        header_models(file_headers@) + t,
                    ),
                    Err(e) => Err::<Seq<HeaderModel>, PckErrModel>(e),
                }),
            decreases count - i2,
        {
            let ghost base = 4 + 8 * n + 0x40 * (i2 as int);
            let ghost pre = header_models(file_headers@);
            let (name, off, sz) = match read_long_entry(&mut file) {
                Ok(t) => t,
                Err(e) => {
                    proof {
                        assert(spec_parse_entries(d, n, i2 as int) == Err::<
                            Seq<HeaderModel>,
                            PckErrModel,
                        >(e@));
                    }
                    return Err(e);
                },
            };
            let ori = offset_list[i2 as usize];
            if ori.0 != off || ori.1 != sz {
                return Err(PckError::IndexMismatch(name));
            }
            let ghost h = HeaderModel { name: name@, offset: off, size: sz };
            file_headers.push(PckFileHeader { name, offset: off, size: sz });
            proof {
                lemma_parse_entries_compose(d, n, i2 as int, pre, h);
                assert(header_models(file_headers@) =~= pre + seq![h]);
            }
            i2 = i2 + 1;
        }
        proof {
            assert(spec_parse_entries(d, n, n) == Ok::<Seq<HeaderModel>, PckErrModel>(
                Seq::empty(),
            ));
            assert(header_models(file_headers@) + Seq::<HeaderModel>::empty() =~= header_models(
                file_headers@,
            ));
        }
        Ok(PckReader { reader: file, file_headers })
    }

    /// How many sub-files the archive holds.
    pub fn len(&self) -> (n: usize)
        ensures
            n == self.file_headers@.len(),
    {
        self.file_headers.len()
    }

    /// A bounded reader over the sub-file at `index`; use one at a time.
    pub fn file_reader(&self, index: usize) -> (r: PckFileReaderMut)
        requires
            index < self.file_headers@.len(),
        ensures
            r.offset == self.file_headers@[index as int].offset,
            r.size == self.file_headers@[index as int].size,
            r.pos == 0,
            r.wf(),
    {
        PckFileReaderMut {
            offset: self.file_headers[index].offset,
            size: self.file_headers[index].size,
            pos: 0,
        }
    }
}

/// A seek target, relative to the start, the end, or the cursor of a
/// sub-file.
#[derive(Debug, Clone, Copy)]
pub enum SeekFrom {
    Start(u64),
    End(i64),
    Current(i64),
}

/// Where a seek asks to put the cursor of a sub-file of length `size`
/// whose cursor is at `pos`.
pub open spec fn seek_target(from: SeekFrom, size: u32, pos: u32) -> int {
    match from {
        SeekFrom::Start(o) => o as int,
        SeekFrom::End(o) => size + o,
        SeekFrom::Current(o) => pos + o,
    }
}

/// A bounded view `[offset, offset + size)` over the archive's stream,
/// with its own cursor.
pub struct PckFileReaderMut {
    pub offset: u32,
    pub size: u32,
    pub pos: u32,
}

impl PckFileReaderMut {
    /// The cursor never passes the end of the sub-file.
    pub open spec fn wf(&self) -> bool {
        self.pos <= self.size
    }

    /// Read up to `want` bytes at the cursor.  The request is clamped to
    /// the sub-file's remaining length, so no neighbouring data is ever
    /// returned; reading at the end yields no bytes.
    pub fn read(&mut self, pck: &PckReader, want: usize) -> (r: Vec<u8>)
        requires
            old(self).wf(),
        ensures
            final(self).wf(),
            final(self).offset == old(self).offset,
            final(self).size == old(self).size,
            ({
                let take = if want <= old(self).size - old(self).pos {
                    want as int
                } else {
                    old(self).size - old(self).pos
                };
                let a = old(self).offset + old(self).pos;
                let avail = if a <= pck.reader.data@.len() {
                    pck.reader.data@.len() - a
                } else {
                    0
                };
                let m = if take <= avail {
                    take
                } else {
                    avail
                };
                &&& a <= pck.reader.data@.len() ==> r@ == pck.reader.data@.subrange(a, a + m)
                &&& a > pck.reader.data@.len() ==> r@ == Seq::<u8>::empty()
                &&& final(self).pos == old(self).pos + m
                &&& r@.len() + old(self).pos <= old(self).size
            }),
    {
        let remaining: u32 = self.size - self.pos;
        let take: usize = if want <= remaining as usize {
            want
        } else {
            remaining as usize
        };
        let a64: u64 = self.offset as u64 + self.pos as u64;
        let dlen: usize = pck.reader.data.len();
        if a64 >= dlen as u64 {
            let r: Vec<u8> = Vec::new();
            if a64 == dlen as u64 {
                assert(pck.reader.data@.subrange(a64 as int, a64 as int)
                    =~= Seq::<u8>::empty());
            }
            return r;
        }
        let a: usize = a64 as usize;
        let avail: usize = dlen - a;
        let m: usize = if take <= avail {
            take
        } else {
            avail
        };
        let r = crate::ext::copy_exact(&pck.reader.data, a, m);
        self.pos = self.pos + m as u32;
        r
    }

    /// Move the cursor.  A target outside `0..=size` is refused and the
    /// cursor stays.
    pub fn seek(&mut self, from: SeekFrom) -> (r: Result<u64, PckError>)
        ensures
            final(self).offset == old(self).offset,
            final(self).size == old(self).size,
            match r {
                Ok(np) => {
                    &&& 0 <= seek_target(from, old(self).size, old(self).pos) <= old(self).size
                    &&& np == seek_target(from, old(self).size, old(self).pos)
                    &&& final(self).pos == np
                    &&& final(self).wf()
                },
                Err(e) => {
                    &&& e@ == PckErrModel::InvalidInput
                    &&& !(0 <= seek_target(from, old(self).size, old(self).pos) <= old(self).size)
                    &&& final(self).pos == old(self).pos
                },
            },
    {
        let target: i128 = match from {
            SeekFrom::Start(o) => o as i128,
            SeekFrom::End(o) => self.size as i128 + o as i128,
            SeekFrom::Current(o) => self.pos as i128 + o as i128,
        };
        if target < 0 || target > self.size as i128 {
            return Err(PckError::InvalidInput);
        }
        self.pos = target as u32;
        Ok(target as u64)
    }

    /// The cursor's position inside the sub-file.
    pub fn stream_position(&self) -> (r: u64)
        ensures
            r == self.pos,
    {
        self.pos as u64
    }

    /// Put the cursor back at the start of the sub-file.
    pub fn rewind(&mut self)
        ensures
            final(self).offset == old(self).offset,
            final(self).size == old(self).size,
            final(self).pos == 0,
            final(self).wf(),
    {
        self.pos = 0;
    }
}

/// The short index table: one offset/size pair per entry.
pub open spec fn short_bytes(hs: Seq<HeaderModel>) -> Seq<u8>
    decreases hs.len(),
{
    if hs.len() == 0 {
        Seq::empty()
    } else {
        u32_le(hs[0].offset) + u32_le(hs[0].size) + short_bytes(hs.skip(1))
    }
}

/// The long index table: one NUL-padded name field and offset/size pair
/// per entry.
pub open spec fn long_bytes(hs: Seq<HeaderModel>) -> Seq<u8>
    decreases hs.len(),
{
    if hs.len() == 0 {
        Seq::empty()
    } else {
        hs[0].name + zeros((0x38 - hs[0].name.len()) as nat) + u32_le(hs[0].offset) + u32_le(
            hs[0].size,
        ) + long_bytes(hs.skip(1))
    }
}

/// The full header block `write_header` writes: the entry count, the short
/// table, then the long table.
pub open spec fn spec_header_bytes(hs: Seq<HeaderModel>) -> Seq<u8> {
    u32_le(hs.len() as u32) + short_bytes(hs) + long_bytes(hs)
}

/// Every name fits its fixed-width field.
pub open spec fn names_fit(hs: Seq<HeaderModel>) -> bool {
    forall|i: int| 0 <= i < hs.len() ==> (#[trigger] hs[i].name).len() <= 0x38
}

/// An archive being authored in memory: the file image, the index held in
/// memory until `write_header`, and the reserved header size.
pub struct PckWriter {
    pub file: Vec<u8>,
    pub file_headers: Vec<PckFileHeader>,
    pub header_max_size: u32,
}

/// A handle for appending bytes to the entry it was created for.
pub struct PckFileWriter {
    pub index: usize,
}

impl PckWriter {
    /// Where the payload region currently ends: the end of the last entry,
    /// or the reserved header block when there is none.
    pub open spec fn payload_end(&self) -> int {
        if self.file_headers@.len() == 0 {
            self.header_max_size as int
        } else {
            self.file_headers@.last().offset + self.file_headers@.last().size
        }
    }

    /// The byte at absolute position `a` of the file being authored;
    /// positions that were never written read as zero.
    pub open spec fn file_byte(&self, a: int) -> u8 {
        if 0 <= a < self.file@.len() {
            self.file@[a]
        } else {
            0
        }
    }

    /// The payload bytes of entry `i`.
    pub open spec fn entry_bytes(&self, i: int) -> Seq<u8> {
        Seq::new(
            self.file_headers@[i].size as nat,
            |j: int| self.file_byte(self.file_headers@[i].offset + j),
        )
    }

    /// A sound writer: an aligned reserved block with room for the index,
    /// entries laid out contiguously from the block's end, and a file
    /// image that never reaches past the payload's end.
    pub open spec fn wf(&self) -> bool {
        &&& self.header_max_size as int % 0x800 == 0
        &&& self.header_max_size >= 0x800
        &&& self.file_headers@.len() * 0x48 + 4 < self.header_max_size
        &&& self.file_headers@.len() > 0 ==> self.file_headers@[0].offset
            == self.header_max_size
        &&& forall|i: int|
            1 <= i < self.file_headers@.len() ==> (#[trigger] self.file_headers@[i]).offset
                == self.file_headers@[i - 1].offset + self.file_headers@[i - 1].size
        &&& forall|i: int|
            0 <= i < self.file_headers@.len() ==> self.header_max_size <= (
            #[trigger] self.file_headers@[i]).offset && self.file_headers@[i].offset
                + self.file_headers@[i].size <= self.payload_end()
        &&& self.file@.len() <= self.payload_end()
        &&& self.payload_end() <= 0xFFFF_F7FF
    }

    /// Author a new archive into an empty file image, reserving
    /// `header_max_size` bytes for the index.
    pub fn new(file: Vec<u8>, header_max_size: u32) -> (r: PckWriter)
        requires
            file@.len() == 0,
            header_max_size as int % 0x800 == 0,
            0x800 <= header_max_size <= 0xFFFF_F7FF,
        ensures
            r.wf(),
            r.file@ == file@,
            r.file_headers@.len() == 0,
            r.header_max_size == header_max_size,
    {
        PckWriter { file, file_headers: Vec::new(), header_max_size }
    }

    /// The smallest multiple of 0x800 with room for `file_count` index
    /// entries.
    pub fn calculate_header_size(file_count: u32) -> (r: u32)
        requires
            file_count < 0x38E38C0,
        ensures
            r as int % 0x800 == 0,
            file_count * 0x48 + 4 <= r < file_count * 0x48 + 4 + 0x800,
    {
        let mut header_size: u32 = file_count * 0x48 + 4;
        let a = header_size % 0x800;
        if a != 0 {
            header_size += 0x800 - a;
        }
        header_size
    }

    /// Grow the reserved header block by 0x800 bytes when the index no
    /// longer fits, relocating the payload forward and shifting every
    /// entry's offset.
    fn check_header_capacity(&mut self)
        requires
            old(self).header_max_size as int % 0x800 == 0,
            old(self).header_max_size >= 0x800,
            old(self).file_headers@.len() * 0x48 + 4 < old(self).header_max_size + 0x800,
            old(self).file_headers@.len() > 0 ==> old(self).file_headers@[0].offset == old(self).header_max_size,
            forall|i: int|
                1 <= i < old(self).file_headers@.len() ==> (#[trigger] old(self).file_headers@[i]).offset == old(self).file_headers@[i - 1].offset + old(self).file_headers@[i - 1].size,
            forall|i: int|
                0 <= i < old(self).file_headers@.len() ==> old(self).header_max_size <= (
                #[trigger] old(self).file_headers@[i]).offset && old(self).file_headers@[i].offset + old(self).file_headers@[i].size <= old(self).payload_end(),
            old(self).file@.len() <= old(self).payload_end(),
            old(self).payload_end() <= 0xFFFF_EFFF,
        ensures
            final(self).wf(),
            final(self).file_headers@.len() == old(self).file_headers@.len(),
            ({
                let grown = old(self).file_headers@.len() * 0x48 + 4
                    >= old(self).header_max_size;
                let shift: int = if grown {
                    0x800
                } else {
                    0
                };
                &&& final(self).header_max_size == old(self).header_max_size + shift
                &&& forall|i: int|
                    0 <= i < old(self).file_headers@.len()
                        ==> (#[trigger] final(self).file_headers@[i]).name
                        == old(self).file_headers@[i].name
                        && final(self).file_headers@[i].offset
                        == old(self).file_headers@[i].offset + shift
                        && final(self).file_headers@[i].size == old(self).file_headers@[i].size
                &&& final(self).payload_end() == old(self).payload_end() + shift
                &&& forall|i: int|
                    0 <= i < old(self).file_headers@.len()
                        ==> #[trigger] final(self).entry_bytes(i) == old(self).entry_bytes(i)
                &&& forall|a: int|
                    0 <= a < old(self).header_max_size ==> #[trigger] final(self).file_byte(a)
                        == old(self).file_byte(a)
                &&& !grown ==> *final(self) == *old(self)
            }),
    {
        let n: u64 = self.file_headers.len() as u64;
        if n * 0x48 + 4 < self.header_max_size as u64 {
            return ;
        }
        let hms: usize = self.header_max_size as usize;
        let plen: usize = self.file.len();
        let pre: usize = if plen < hms {
            plen
        } else {
            hms
        };
        let mut nf = crate::ext::copy_exact(&self.file, 0, pre);
        let ghost oldfile = self.file@;
        let mut p: usize = pre;
        while p < hms
            invariant
                pre <= p <= hms,
                nf@ =~= oldfile.subrange(0, pre as int) + zeros((p - pre) as nat),
            decreases hms - p,
        {
            nf.push(0);
            assert(nf@ =~= oldfile.subrange(0, pre as int) + zeros((p + 1 - pre) as nat));
            p = p + 1;
        }
        let mut z: usize = 0;
        let ghost nf_hms = nf@;
        while z < 0x800
            invariant
                z <= 0x800,
                nf@ =~= nf_hms + zeros(z as nat),
            decreases 0x800 - z,
        {
            nf.push(0);
            assert(nf@ =~= nf_hms + zeros((z + 1) as nat));
            z = z + 1;
        }
        let ghost nf_mid = nf@;
        if plen > hms {
            let mut t: usize = hms;
            proof {
                assert(nf@ =~= nf_mid + oldfile.subrange(hms as int, hms as int));
            }
            while t < plen
                invariant
                    hms <= t <= plen,
                    plen == self.file@.len(),
                    self.file@ == oldfile,
                    nf@ =~= nf_mid + oldfile.subrange(hms as int, t as int),
                decreases plen - t,
            {
                nf.push(self.file[t]);
                assert(nf@ =~= nf_mid + oldfile.subrange(hms as int, t + 1));
                t = t + 1;
            }
        }
        let ghost newfile = nf@;
        self.file = nf;
        let ghost oldh = self.file_headers@;
        let mut k: usize = 0;
        while k < self.file_headers.len()
            invariant
                k <= self.file_headers@.len(),
                self.file_headers@.len() == oldh.len(),
                self.file@ == newfile,
                self.header_max_size == old(self).header_max_size,
                forall|i: int|
                    0 <= i < oldh.len() ==> (#[trigger] oldh[i]).offset + 0x800 <= u32::MAX,
                forall|i: int|
                    0 <= i < k ==> (#[trigger] self.file_headers@[i]).name == oldh[i].name
                        && self.file_headers@[i].offset == oldh[i].offset + 0x800
                        && self.file_headers@[i].size == oldh[i].size,
                forall|i: int| k <= i < oldh.len() ==> self.file_headers@[i] == oldh[i],
            decreases self.file_headers@.len() - k,
        {
            let mut h = self.file_headers.remove(k);
            assert(h == oldh[k as int]);
            h.offset = h.offset + 0x800;
            self.file_headers.insert(k, h);
            k = k + 1;
        }
        self.header_max_size = self.header_max_size + 0x800;
        proof {
            let s = *self;
            let o = *old(self);
            let hmsi = o.header_max_size as int;
            assert(newfile.len() == (if o.file@.len() > hmsi {
                o.file@.len() as int
            } else {
                hmsi
            }) + 0x800);
            assert forall|a: int| 0 <= a < hmsi implies #[trigger] s.file_byte(a) == o.file_byte(
                a,
            ) by {
                if a < pre {
                    assert(newfile[a] == oldfile.subrange(0, pre as int)[a]);
                }
            }
            assert forall|a: int| hmsi + 0x800 <= a < newfile.len() implies #[trigger] s.file_byte(
                a,
            ) == o.file_byte(a - 0x800) by {
                assert(newfile[a] == oldfile.subrange(hms as int, plen as int)[a - hmsi - 0x800]);
            }
            assert forall|a: int| hmsi <= a < hmsi + 0x800 implies #[trigger] s.file_byte(a)
                == 0 by {
                if a < newfile.len() {
                    if a < hmsi + 0x800 && a >= hmsi {
                        if plen > hms {
                            assert(newfile[a] == nf_mid[a]);
                        }
                        if a >= pre {
                        }
                    }
                }
            }
            assert forall|i: int| 0 <= i < oldh.len() implies #[trigger] s.entry_bytes(i)
                == o.entry_bytes(i) by {
                assert forall|j: int| 0 <= j < oldh[i].size implies #[trigger] s.file_byte(
                    s.file_headers@[i].offset + j,
                ) == o.file_byte(oldh[i].offset + j) by {
                    let a = s.file_headers@[i].offset + j;
                    assert(a == oldh[i].offset + j + 0x800);
                    assert(oldh[i].offset >= hmsi);
                    if a < newfile.len() {
                        assert(s.file_byte(a) == o.file_byte(a - 0x800));
                    } else {
                        assert(s.file_byte(a) == 0);
                        assert(oldh[i].offset + j >= oldfile.len() || a < newfile.len());
                    }
                }
                assert(s.entry_bytes(i) =~= o.entry_bytes(i));
            }
        }
    }
}

impl PckWriter {
    /// Append a new, empty entry right after the last one, growing the
    /// reserved header block when its index record no longer fits.  A
    /// growth relocates the payload: every existing entry's offset rises
    /// by 0x800 and its bytes are left intact.
    pub fn add_file(&mut self, name: Vec<u8>) -> (w: PckFileWriter)
        requires
            old(self).wf(),
            old(self).payload_end() <= 0xFFFF_EFFF,
        ensures
            final(self).wf(),
            w.index == old(self).file_headers@.len(),
            final(self).file_headers@.len() == old(self).file_headers@.len() + 1,
            ({
                let grown = (old(self).file_headers@.len() + 1) * 0x48 + 4 >= old(self).header_max_size;
                let shift: int = if grown {
                    0x800
                } else {
                    0
                };
                &&& final(self).header_max_size == old(self).header_max_size + shift
                &&& forall|i: int|
                    0 <= i < old(self).file_headers@.len()
                        ==> (#[trigger] final(self).file_headers@[i]).name
                        == old(self).file_headers@[i].name
                        && final(self).file_headers@[i].offset
                        == old(self).file_headers@[i].offset + shift
                        && final(self).file_headers@[i].size == old(self).file_headers@[i].size
                &&& forall|i: int|
                    0 <= i < old(self).file_headers@.len()
                        ==> #[trigger] final(self).entry_bytes(i) == old(self).entry_bytes(i)
                &&& final(self).file_headers@.last().name@ == name@
                &&& final(self).file_headers@.last().size == 0
                &&& final(self).file_headers@.last().offset == old(self).payload_end() + shift
                &&& final(self).payload_end() == old(self).payload_end() + shift
            }),
    {
        let n = self.file_headers.len();
        let offset: u32 = if n == 0 {
            self.header_max_size
        } else {
            let e = &self.file_headers[n - 1];
            e.offset + e.size
        };
        let ghost before = *self;
        self.file_headers.push(PckFileHeader { name, offset, size: 0 });
        proof {
            assert(self.payload_end() == before.payload_end());
            assert forall|i: int| 0 <= i < before.file_headers@.len() implies (
            #[trigger] self.file_headers@[i]) == before.file_headers@[i] by {}
            assert forall|i: int| 0 <= i < self.file_headers@.len() implies self.header_max_size
                <= (#[trigger] self.file_headers@[i]).offset && self.file_headers@[i].offset
                + self.file_headers@[i].size <= self.payload_end() by {
                if i < before.file_headers@.len() {
                    assert(before.file_headers@[i].offset + before.file_headers@[i].size
                        <= before.payload_end());
                }
            }
        }
        let ghost mid = *self;
        self.check_header_capacity();
        proof {
            assert forall|i: int| 0 <= i < before.file_headers@.len() implies #[trigger] self
                .entry_bytes(i) == before.entry_bytes(i) by {
                assert(self.entry_bytes(i) == mid.entry_bytes(i));
                assert(mid.entry_bytes(i) =~= before.entry_bytes(i));
            }
        }
        PckFileWriter { index: n }
    }
}

impl PckFileWriter {
    /// Append `buf` to the entry this handle was created for, which must
    /// still be the archive's last: the bytes land at the entry's current
    /// end and the entry grows by exactly the bytes written.
    pub fn write(&self, pck: &mut PckWriter, buf: &Vec<u8>) -> (r: usize)
        requires
            old(pck).wf(),
            self.index + 1 == old(pck).file_headers@.len(),
            old(pck).payload_end() + buf@.len() <= 0xFFFF_F7FF,
        ensures
            final(pck).wf(),
            r == buf@.len(),
            final(pck).header_max_size == old(pck).header_max_size,
            final(pck).file_headers@.len() == old(pck).file_headers@.len(),
            forall|i: int|
                0 <= i < old(pck).file_headers@.len() - 1
                    ==> #[trigger] final(pck).file_headers@[i] == old(pck).file_headers@[i],
            final(pck).file_headers@.last().name == old(pck).file_headers@.last().name,
            final(pck).file_headers@.last().offset == old(pck).file_headers@.last().offset,
            final(pck).file_headers@.last().size == old(pck).file_headers@.last().size
                + buf@.len(),
            final(pck).file@ == old(pck).file@ + zeros(
                (old(pck).payload_end() - old(pck).file@.len()) as nat,
            ) + buf@,
            final(pck).payload_end() == old(pck).payload_end() + buf@.len(),
            forall|i: int|
                0 <= i < old(pck).file_headers@.len() - 1
                    ==> #[trigger] final(pck).entry_bytes(i) == old(pck).entry_bytes(i),
            final(pck).entry_bytes(old(pck).file_headers@.len() - 1) == old(pck).entry_bytes(
                old(pck).file_headers@.len() - 1,
            ) + buf@,
    {
        let n = pck.file_headers.len();
        let pe: u32 = {
            let e = &pck.file_headers[n - 1];
            e.offset + e.size
        };
        let ghost before = *pck;
        let ghost oldfile = pck.file@;
        while pck.file.len() < pe as usize
            invariant
                pck.file@.len() <= pe,
                pck.file@ =~= oldfile + zeros((pck.file@.len() - oldfile.len()) as nat),
                oldfile.len() <= pck.file@.len(),
                pck.file_headers@ == before.file_headers@,
                pck.header_max_size == before.header_max_size,
            decreases pe - pck.file@.len(),
        {
            let ghost l = pck.file@.len();
            pck.file.push(0);
            assert(pck.file@ =~= oldfile + zeros((l + 1 - oldfile.len()) as nat));
        }
        let ghost padded = pck.file@;
        let mut b: usize = 0;
        while b < buf.len()
            invariant
                b <= buf@.len(),
                pck.file@ =~= padded + buf@.subrange(0, b as int),
                pck.file_headers@ == before.file_headers@,
                pck.header_max_size == before.header_max_size,
            decreases buf@.len() - b,
        {
            pck.file.push(buf[b]);
            assert(pck.file@ =~= padded + buf@.subrange(0, b + 1));
            b = b + 1;
        }
        assert(pck.file@ =~= padded + buf@);
        let mut h = pck.file_headers.remove(n - 1);
        h.size = h.size + buf.len() as u32;
        pck.file_headers.push(h);
        proof {
            let s = *pck;
            let o = *old(pck);
            assert(s.file@ =~= o.file@ + zeros((o.payload_end() - o.file@.len()) as nat)
                + buf@);
            assert forall|i: int| 0 <= i < o.file_headers@.len() - 1 implies #[trigger] s
                .entry_bytes(i) == o.entry_bytes(i) by {
                assert(o.file_headers@[i].offset + o.file_headers@[i].size <= o.payload_end());
                assert(s.entry_bytes(i) =~= o.entry_bytes(i));
            }
            assert(s.entry_bytes(o.file_headers@.len() - 1) =~= o.entry_bytes(
                o.file_headers@.len() - 1,
            ) + buf@);
        }
        buf.len()
    }
}

/// The short table is eight bytes per entry.
pub proof fn lemma_short_bytes_len(hs: Seq<HeaderModel>)
    ensures
        short_bytes(hs).len() == 8 * hs.len(),
    decreases hs.len(),
{
    if hs.len() > 0 {
        lemma_short_bytes_len(hs.skip(1));
    }
}

/// The long table is 0x40 bytes per entry when every name fits its field.
pub proof fn lemma_long_bytes_len(hs: Seq<HeaderModel>)
    requires
        names_fit(hs),
    ensures
        long_bytes(hs).len() == 0x40 * hs.len(),
    decreases hs.len(),
{
    if hs.len() > 0 {
        assert(hs[0] == hs[0]);
        assert forall|i: int| 0 <= i < hs.skip(1).len() implies (#[trigger] hs.skip(
            1,
        )[i]).name.len() <= 0x38 by {
            assert(hs.skip(1)[i] == hs[i + 1]);
        }
        lemma_long_bytes_len(hs.skip(1));
    }
}

impl PckWriter {
    /// Write the index at the front of the file: the entry count, the
    /// short table, then the long table.  A name longer than its field is
    /// refused before anything is written.  The payload region, which
    /// starts past the reserved block, is untouched.
    pub fn write_header(&mut self) -> (r: Result<(), PckError>)
        requires
            old(self).wf(),
        ensures
            final(self).wf(),
            final(self).file_headers@ == old(self).file_headers@,
            final(self).header_max_size == old(self).header_max_size,
            match r {
                Ok(()) => {
                    &&& names_fit(header_models(old(self).file_headers@))
                    &&& ({
                        let hb = spec_header_bytes(header_models(old(self).file_headers@));
                        final(self).file@ == hb + (if old(self).file@.len() > hb.len() {
                            old(self).file@.skip(hb.len() as int)
                        } else {
                            Seq::<u8>::empty()
                        })
                    })
                    &&& forall|i: int|
                        0 <= i < old(self).file_headers@.len() ==> #[trigger] final(self).entry_bytes(i) == old(self).entry_bytes(i)
                },
                Err(e) => {
                    &&& e@ == PckErrModel::InvalidInput
                    &&& !names_fit(header_models(old(self).file_headers@))
                    &&& *final(self) == *old(self)
                },
            },
    {
        let ghost models = header_models(self.file_headers@);
        let n = self.file_headers.len();
        let mut k: usize = 0;
        while k < n
            invariant
                k <= n,
                *self == *old(self),
                old(self).wf(),
                n == self.file_headers@.len(),
                models == header_models(self.file_headers@),
                forall|j: int| 0 <= j < k ==> (#[trigger] models[j]).name.len() <= 0x38,
            decreases n - k,
        {
            if self.file_headers[k].name.len() > 0x38 {
                assert(models[k as int].name.len() > 0x38);
                return Err(PckError::InvalidInput);
            }
            assert(models[k as int].name == self.file_headers@[k as int].name@);
            k = k + 1;
        }
        assert(names_fit(models));
        let mut w = MemWriter::new();
        w.write_u32(n as u32);
        let ghost cnt = u32_le(n as u32);
        assert(w.data@ =~= cnt);
        let mut k2: usize = 0;
        proof {
            assert(models.skip(0) =~= models);
        }
        while k2 < n
            invariant
                k2 <= n,
                *self == *old(self),
                n == self.file_headers@.len(),
                models == header_models(self.file_headers@),
                cnt + short_bytes(models) =~= w.data@ + short_bytes(models.skip(k2 as int)),
            decreases n - k2,
        {
            let ghost wbefore = w.data@;
            let (off, sz) = {
                let e = &self.file_headers[k2];
                (e.offset, e.size)
            };
            w.write_u32(off);
            w.write_u32(sz);
            proof {
                let suf = models.skip(k2 as int);
                assert(suf[0] == models[k2 as int]);
                assert(suf.skip(1) =~= models.skip(k2 + 1));
                assert(short_bytes(suf) == u32_le(off) + u32_le(sz) + short_bytes(
                    models.skip(k2 + 1),
                ));
                assert(wbefore + (u32_le(off) + u32_le(sz) + short_bytes(models.skip(k2 + 1)))
                    =~= w.data@ + short_bytes(models.skip(k2 + 1)));
            }
            k2 = k2 + 1;
        }
        proof {
            assert(short_bytes(models.skip(n as int)) =~= Seq::<u8>::empty());
            assert(w.data@ + Seq::<u8>::empty() =~= w.data@);
            assert(w.data@ =~= cnt + short_bytes(models));
        }
        let ghost head2 = w.data@;
        let mut k3: usize = 0;
        proof {
            assert(models.skip(0) =~= models);
        }
        while k3 < n
            invariant
                k3 <= n,
                *self == *old(self),
                n == self.file_headers@.len(),
                models == header_models(self.file_headers@),
                names_fit(models),
                head2 + long_bytes(models) =~= w.data@ + long_bytes(models.skip(k3 as int)),
            decreases n - k3,
        {
            let ghost wbefore = w.data@;
            let res = {
                let e = &self.file_headers[k3];
                w.write_cstring_with_size(&e.name, 0x38)
            };
            match res {
                Ok(()) => {},
                Err(_) => {
                    assert(models[k3 as int].name.len() <= 0x38);
                    assert(false);
                    return Err(PckError::InvalidInput);
                },
            }
            let (off, sz) = {
                let e = &self.file_headers[k3];
                (e.offset, e.size)
            };
            w.write_u32(off);
            w.write_u32(sz);
            proof {
                let suf = models.skip(k3 as int);
                assert(suf[0] == models[k3 as int]);
                assert(suf.skip(1) =~= models.skip(k3 + 1));
                let m = models[k3 as int];
                assert(long_bytes(suf) == m.name + zeros((0x38 - m.name.len()) as nat) + u32_le(
                    m.offset,
                ) + u32_le(m.size) + long_bytes(models.skip(k3 + 1)));
                assert(wbefore + (m.name + zeros((0x38 - m.name.len()) as nat) + u32_le(m.offset)
                    + u32_le(m.size) + long_bytes(models.skip(k3 + 1))) =~= w.data@ + long_bytes(
                    models.skip(k3 + 1),
                ));
            }
            k3 = k3 + 1;
        }
        proof {
            assert(long_bytes(models.skip(n as int)) =~= Seq::<u8>::empty());
            assert(w.data@ + Seq::<u8>::empty() =~= w.data@);
            assert(w.data@ =~= spec_header_bytes(models));
        }
        let mut nf = w.data;
        let hlen = nf.len();
        let ghost hdr = nf@;
        let flen = self.file.len();
        if flen > hlen {
            let mut t: usize = hlen;
            proof {
                assert(nf@ =~= hdr + self.file@.subrange(hlen as int, hlen as int));
            }
            while t < flen
                invariant
                    hlen <= t <= flen,
                    *self == *old(self),
                    flen == self.file@.len(),
                    nf@ =~= hdr + self.file@.subrange(hlen as int, t as int),
                decreases flen - t,
            {
                nf.push(self.file[t]);
                assert(nf@ =~= hdr + self.file@.subrange(hlen as int, t + 1));
                t = t + 1;
            }
        }
        self.file = nf;
        proof {
            lemma_short_bytes_len(models);
            lemma_long_bytes_len(models);
            assert(hdr.len() == 4 + 0x48 * models.len());
            let s = *self;
            let o = *old(self);
            if o.file@.len() > hdr.len() {
                assert(s.file@ =~= hdr + o.file@.skip(hdr.len() as int));
            } else {
                assert(s.file@ =~= hdr + Seq::<u8>::empty());
            }
            assert forall|i: int| 0 <= i < o.file_headers@.len() implies #[trigger] s
                .entry_bytes(i) == o.entry_bytes(i) by {
                assert(o.file_headers@[i].offset >= o.header_max_size);
                assert(s.entry_bytes(i) =~= o.entry_bytes(i));
            }
        }
        Ok(())
    }
}

/// Once the payload is fully materialized, each entry's bytes are exactly
/// the slice of the file image that the index points a reader at.
pub proof fn lemma_entry_bytes_in_file(w: &PckWriter, i: int)
    requires
        w.wf(),
        0 <= i < w.file_headers@.len(),
        w.file@.len() == w.payload_end(),
    ensures
        w.file_headers@[i].offset + w.file_headers@[i].size <= w.file@.len(),
        w.entry_bytes(i) == w.file@.subrange(
            w.file_headers@[i].offset as int,
            w.file_headers@[i].offset + w.file_headers@[i].size,
        ),
{
    assert(w.entry_bytes(i) =~= w.file@.subrange(
        w.file_headers@[i].offset as int,
        w.file_headers@[i].offset + w.file_headers@[i].size,
    ));
}

/// Index consistency: a sound writer's entries sit one after the other,
/// the first at the reserved block's end; the duplicated tables written
/// from them therefore agree entry by entry.
pub proof fn lemma_index_contiguous(w: &PckWriter)
    requires
        w.wf(),
    ensures
        forall|i: int|
            1 <= i < w.file_headers@.len() ==> (#[trigger] w.file_headers@[i]).offset
                == w.file_headers@[i - 1].offset + w.file_headers@[i - 1].size,
        w.file_headers@.len() > 0 ==> w.file_headers@[0].offset == w.header_max_size,
{
}

/// Entry `i`'s eight bytes of the short table.
proof fn lemma_short_at(hs: Seq<HeaderModel>, i: int)
    requires
        0 <= i < hs.len(),
    ensures
        short_bytes(hs).len() == 8 * hs.len(),
        short_bytes(hs).subrange(8 * i, 8 * i + 8) == u32_le(hs[i].offset) + u32_le(hs[i].size),
    decreases i,
{
    lemma_short_bytes_len(hs);
    lemma_short_bytes_len(hs.skip(1));
    if i == 0 {
        assert(short_bytes(hs).subrange(0, 8) =~= u32_le(hs[0].offset) + u32_le(hs[0].size));
    } else {
        lemma_short_at(hs.skip(1), i - 1);
        assert(hs.skip(1)[i - 1] == hs[i]);
        assert(short_bytes(hs).subrange(8 * i, 8 * i + 8) =~= short_bytes(hs.skip(1)).subrange(
            8 * (i - 1),
            8 * (i - 1) + 8,
        ));
    }
}

/// Entry `i`'s 0x40 bytes of the long table.
proof fn lemma_long_at(hs: Seq<HeaderModel>, i: int)
    requires
        0 <= i < hs.len(),
        names_fit(hs),
    ensures
        long_bytes(hs).len() == 0x40 * hs.len(),
        long_bytes(hs).subrange(0x40 * i, 0x40 * i + 0x40) == hs[i].name + zeros(
            (0x38 - hs[i].name.len()) as nat,
        ) + u32_le(hs[i].offset) + u32_le(hs[i].size),
    decreases i,
{
    lemma_long_bytes_len(hs);
    assert forall|k: int| 0 <= k < hs.skip(1).len() implies (#[trigger] hs.skip(
        1,
    )[k]).name.len() <= 0x38 by {
        assert(hs.skip(1)[k] == hs[k + 1]);
    }
    lemma_long_bytes_len(hs.skip(1));
    if i == 0 {
        assert(long_bytes(hs).subrange(0, 0x40) =~= hs[0].name + zeros(
            (0x38 - hs[0].name.len()) as nat,
        ) + u32_le(hs[0].offset) + u32_le(hs[0].size));
    } else {
        lemma_long_at(hs.skip(1), i - 1);
        assert(hs.skip(1)[i - 1] == hs[i]);
        assert(long_bytes(hs).subrange(0x40 * i, 0x40 * i + 0x40) =~= long_bytes(
            hs.skip(1),
        ).subrange(0x40 * (i - 1), 0x40 * (i - 1) + 0x40));
    }
}

/// Parsing the written tables back recovers the entries `i..`.
#[verifier::rlimit(100)]
proof fn lemma_parse_back_entries(hs: Seq<HeaderModel>, full: Seq<u8>, n: int, i: int)
    requires
        n == hs.len(),
        0 <= i <= n,
        names_fit(hs),
        forall|k: int| 0 <= k < n ==> is_utf8((#[trigger] hs[k]).name),
        forall|k: int, j: int|
            0 <= k < n && 0 <= j < hs[k].name.len() ==> #[trigger] hs[k].name[j] != 0,
        full.subrange(4, 4 + 8 * n) == short_bytes(hs),
        full.subrange(4 + 8 * n, 4 + 8 * n + 0x40 * n) == long_bytes(hs),
        full.len() >= 4 + 8 * n + 0x40 * n,
    ensures
        spec_parse_entries(full, n, i) == Ok::<Seq<HeaderModel>, PckErrModel>(hs.skip(i)),
    decreases n - i,
{
    if i >= n {
        assert(hs.skip(n) =~= Seq::<HeaderModel>::empty());
    } else {
        let base = 4 + 8 * n + 0x40 * i;
        lemma_short_at(hs, i);
        lemma_long_at(hs, i);
        let m = hs[i];
        let entry = m.name + zeros((0x38 - m.name.len()) as nat) + u32_le(m.offset) + u32_le(
            m.size,
        );
        assert(full.subrange(base, base + 0x40) =~= entry) by {
            assert forall|k: int| 0 <= k < 0x40 implies full.subrange(base, base + 0x40)[k]
                == entry[k] by {
                assert(full.subrange(base, base + 0x40)[k] == full[base + k]);
                assert(full[base + k] == full.subrange(4 + 8 * n, 4 + 8 * n + 0x40 * n)[0x40 * i
                    + k]);
            }
        }
        let field = full.subrange(base, base + 0x38);
        assert(field =~= entry.subrange(0, 0x38));
        assert(spec_cstr(field) == m.name) by {
            assert forall|q: int| 0 <= q < m.name.len() implies field[q] != 0 by {
                assert(field[q] == m.name[q]);
            }
            if m.name.len() < 0x38 {
                assert(field[m.name.len() as int] == zeros(
                    (0x38 - m.name.len()) as nat,
                )[0]);
            }
            crate::ext::lemma_cstr_char(field, m.name.len() as int);
            assert(field.take(m.name.len() as int) =~= m.name);
        }
        assert(p_u32(full, base + 0x38) == m.offset) by {
            assert forall|k: int| 0 <= k < 4 implies full[base + 0x38 + k] == u32_le(
                m.offset,
            )[k] by {
                assert(full[base + 0x38 + k] == entry[0x38 + k]);
            }
            crate::ext::lemma_le32_round_trip(m.offset);
        }
        assert(p_u32(full, base + 0x3C) == m.size) by {
            assert forall|k: int| 0 <= k < 4 implies full[base + 0x3C + k] == u32_le(
                m.size,
            )[k] by {
                assert(full[base + 0x3C + k] == entry[0x3C + k]);
            }
            crate::ext::lemma_le32_round_trip(m.size);
        }
        assert(p_u32(full, 4 + 8 * i) == m.offset) by {
            assert forall|k: int| 0 <= k < 4 implies full[4 + 8 * i + k] == u32_le(
                m.offset,
            )[k] by {
                assert(full[4 + 8 * i + k] == full.subrange(4, 4 + 8 * n)[8 * i + k]);
                assert(full.subrange(4, 4 + 8 * n)[8 * i + k] == short_bytes(hs).subrange(
                    8 * i,
                    8 * i + 8,
                )[k]);
                assert(short_bytes(hs).subrange(8 * i, 8 * i + 8)[k] == (u32_le(m.offset)
                    + u32_le(m.size))[k]);
            }
            crate::ext::lemma_le32_round_trip(m.offset);
        }
        assert(p_u32(full, 8 + 8 * i) == m.size) by {
            assert forall|k: int| 0 <= k < 4 implies full[8 + 8 * i + k] == u32_le(m.size)[k] by {
                assert(full[8 + 8 * i + k] == full.subrange(4, 4 + 8 * n)[8 * i + 4 + k]);
                assert(full.subrange(4, 4 + 8 * n)[8 * i + 4 + k] == short_bytes(hs).subrange(
                    8 * i,
                    8 * i + 8,
                )[4 + k]);
                assert(short_bytes(hs).subrange(8 * i, 8 * i + 8)[4 + k] == (u32_le(m.offset)
                    + u32_le(m.size))[4 + k]);
            }
            crate::ext::lemma_le32_round_trip(m.size);
        }
        lemma_parse_back_entries(hs, full, n, i + 1);
        assert(spec_parse_entries(full, n, i) == Ok::<Seq<HeaderModel>, PckErrModel>(
            seq![HeaderModel { name: m.name, offset: m.offset, size: m.size }] + hs.skip(i + 1),
        ));
        assert(HeaderModel { name: m.name, offset: m.offset, size: m.size } == m);
        assert(seq![m] + hs.skip(i + 1) =~= hs.skip(i));
    }
}

/// Archive round trip at the index level: the header block that
/// `write_header` lays down parses back to exactly the entries it was
/// written from, whatever payload follows it, provided every name fits its
/// field, holds no NUL byte, and is valid UTF-8.  In particular the short
/// and long tables agree on every entry.
#[verifier::rlimit(100)]
#[verifier::spinoff_prover]
pub proof fn lemma_write_header_parses_back(hs: Seq<HeaderModel>, tail: Seq<u8>)
    requires
        hs.len() <= u32::MAX,
        names_fit(hs),
    ensures
        (forall|k: int|
            0 <= k < hs.len() ==> is_utf8((#[trigger] hs[k]).name)) && (forall|k: int, j: int|
            0 <= k < hs.len() && 0 <= j < hs[k].name.len() ==> #[trigger] hs[k].name[j] != 0)
            ==> spec_parse_pck(spec_header_bytes(hs) + tail) == Ok::<
            Seq<HeaderModel>,
            PckErrModel,
        >(hs),
{
    if (forall|k: int| 0 <= k < hs.len() ==> is_utf8((#[trigger] hs[k]).name)) && (forall|
        k: int,
        j: int,
    |
        0 <= k < hs.len() && 0 <= j < hs[k].name.len() ==> #[trigger] hs[k].name[j] != 0) {
        let n = hs.len() as int;
        let full = spec_header_bytes(hs) + tail;
        lemma_short_bytes_len(hs);
        lemma_long_bytes_len(hs);
        crate::ext::lemma_le32_round_trip(hs.len() as u32);
        assert(p_u32(full, 0) == hs.len() as u32) by {
            assert forall|k: int| 0 <= k < 4 implies full[k] == u32_le(hs.len() as u32)[k] by {}
        }
        assert(full.subrange(4, 4 + 8 * n) =~= short_bytes(hs));
        assert(full.subrange(4 + 8 * n, 4 + 8 * n + 0x40 * n) =~= long_bytes(hs));
        lemma_parse_back_entries(hs, full, n, 0);
        assert(hs.skip(0) =~= hs);
    }
}

} // verus!
