//! The Fallout 4 archive: a header, one chunk header per file followed by its
//! chunk records, and an optional table of names.

use crate::bytes::{le16, le32, le64, push_slice, read_wstring, Bytes};
use crate::compress::{decoded, decompress_exact, Codec};
use vstd::prelude::*;
use vstd::slice::slice_subrange;

verus! {

/// The value that ends every chunk record.
pub const CHUNK_DATA_SENTINEL: u32 = 0xBAADF00D;
/// The chunk-size field of a general file.
pub const GENERAL_CHUNK_SIZE: u16 = 0x10;
/// The chunk-size field of a texture file.
pub const DX10_CHUNK_SIZE: u16 = 0x18;

/// Errors raised while reading a Fallout 4 archive.
#[derive(Debug, Clone, Copy, PartialEq, Eq, Structural)]
pub enum ReadError {
    Eof,
    InvalidMagic,
    InvalidVersion,
    UnsupportedFormat,
    InvalidChunkSize,
    InvalidChunkSentinel,
}

/// The on-disk version.
#[derive(Debug, Clone, Copy, PartialEq, Eq, Structural)]
pub enum Version {
    V1,
}

/// The payload kind of an archive.
#[derive(Debug, Clone, Copy, PartialEq, Eq, Structural)]
pub enum Format {
    General,
    DirectX,
}

/// The name hash of a file: file, extension and directory words.
#[derive(Debug, Clone, Copy, PartialEq, Eq, Structural)]
pub struct Hash {
    pub file: u32,
    pub extension: u32,
    pub directory: u32,
}

impl Hash {
    /// The hash of the file name.
    pub fn file(&self) -> (r: u32)
        ensures
            r == self.file,
    {
        self.file
    }

    /// The extension word.
    pub fn extension(&self) -> (r: u32)
        ensures
            r == self.extension,
    {
        self.extension
    }

    /// The hash of the directory.
    pub fn directory(&self) -> (r: u32)
        ensures
            r == self.directory,
    {
        self.directory
    }
}

/// The index of the data file that holds a file's chunks.
#[derive(Debug, Clone, Copy, PartialEq, Eq, Structural)]
pub struct DataFileIndex {
    pub index: u8,
}

/// The validated header.
#[derive(Debug, Clone, Copy, PartialEq, Eq, Structural)]
pub struct Header {
    pub version: Version,
    pub format: Format,
    pub file_count: u32,
    pub string_table_offset: u64,
}

/// The header of a general file's chunk list.
#[derive(Debug, Clone, Copy, PartialEq, Eq, Structural)]
pub struct GeneralChunkHeader {
    pub id: Hash,
    pub data_file_index: DataFileIndex,
    pub chunk_count: u8,
}

/// The header of a texture file's chunk list.
#[derive(Debug, Clone, Copy, PartialEq, Eq, Structural)]
pub struct DirectXChunkHeader {
    pub id: Hash,
    pub data_file_index: DataFileIndex,
    pub chunk_count: u8,
    pub height: u16,
    pub width: u16,
    pub mip_count: u8,
    pub format: u8,
    pub flags: u8,
    pub tile_mode: u8,
}

/// A chunk of a general file; a compressed size of 0 means stored.
#[derive(Debug, Clone, Copy, PartialEq, Eq, Structural)]
pub struct GeneralChunkData {
    pub data_file_offset: u64,
    pub compressed_size: u32,
    pub decompressed_size: u32,
    pub sentinel: u32,
}

/// A chunk of a texture file, with the range of mip levels it holds.
#[derive(Debug, Clone, Copy, PartialEq, Eq, Structural)]
pub struct DirectXChunkData {
    pub data_file_offset: u64,
    pub compressed_size: u32,
    pub decompressed_size: u32,
    pub mip_first: u16,
    pub mip_last: u16,
    pub sentinel: u32,
}

/// The header that the first 24 bytes of `b` hold, or the error of reading it.
pub open spec fn header_spec(b: Seq<u8>) -> Result<Header, ReadError> {
    if b.len() < 24 {
        Err(ReadError::Eof)
    } else if b.take(4) != seq![0x42u8, 0x54u8, 0x44u8, 0x58u8] {
        Err(ReadError::InvalidMagic)
    } else if le32(b.skip(4)) != 1 {
        Err(ReadError::InvalidVersion)
    } else if b.subrange(8, 12) != seq![0x47u8, 0x4Eu8, 0x52u8, 0x4Cu8]
        && b.subrange(8, 12) != seq![0x44u8, 0x58u8, 0x31u8, 0x30u8] {
        Err(ReadError::UnsupportedFormat)
    } else {
        Ok(Header {
            version: Version::V1,
            format: if b.subrange(8, 12) == seq![0x47u8, 0x4Eu8, 0x52u8, 0x4Cu8] {
                Format::General
            } else {
                Format::DirectX
            },
            file_count: le32(b.skip(12)) as u32,
            string_table_offset: le64(b.skip(16)) as u64,
        })
    }
}

fn four_eq(b: &[u8], x0: u8, x1: u8, x2: u8, x3: u8) -> (r: bool)
    requires
        b@.len() == 4,
    ensures
        r == (b@ == seq![x0, x1, x2, x3]),
{
    let r = b[0] == x0 && b[1] == x1 && b[2] == x2 && b[3] == x3;
    proof {
        if r {
            assert(b@ =~= seq![x0, x1, x2, x3]);
        } else {
            assert(seq![x0, x1, x2, x3][0] == x0);
            assert(seq![x0, x1, x2, x3][1] == x1);
            assert(seq![x0, x1, x2, x3][2] == x2);
            assert(seq![x0, x1, x2, x3][3] == x3);
        }
    }
    r
}

/// Reads and validates the header.
pub fn parse_header(b: &[u8]) -> (r: Result<Header, ReadError>)
    ensures
        r == header_spec(b@),
{
    if b.len() < 24 {
        return Err(ReadError::Eof);
    }
    if !four_eq(slice_subrange(b, 0, 4), 0x42, 0x54, 0x44, 0x58) {
        return Err(ReadError::InvalidMagic);
    }
    let mut c = Bytes::new(slice_subrange(b, 4, 24));
    let version = match c.read_u32() { Ok(v) => v, Err(_) => 0 };
    assert(b@.subrange(4, 24).take(4) =~= b@.skip(4).take(4));
    if version != 1 {
        return Err(ReadError::InvalidVersion);
    }
    let tag = slice_subrange(b, 8, 12);
    let general = four_eq(tag, 0x47, 0x4E, 0x52, 0x4C);
    let directx = four_eq(tag, 0x44, 0x58, 0x31, 0x30);
    if !general && !directx {
        return Err(ReadError::UnsupportedFormat);
    }
    let _ = c.skip(4);
    let file_count = match c.read_u32() { Ok(v) => v, Err(_) => 0 };
    let string_table_offset = match c.read_u64() { Ok(v) => v, Err(_) => 0 };
    proof {
        assert(b@.subrange(4, 24).skip(4).skip(4).take(4) =~= b@.skip(12).take(4));
        assert(b@.subrange(4, 24).skip(4).skip(4).skip(4).take(8) =~= b@.skip(16).take(8));
        assert(b@.subrange(4, 24).skip(4).skip(4).skip(4).subrange(4, 8) =~= b@.skip(16).subrange(4, 8));
    }
    Ok(Header {
        version: Version::V1,
        format: if general { Format::General } else { Format::DirectX },
        file_count,
        string_table_offset,
    })
}

/// A chunk of a file, in either layout.
#[derive(Debug, Clone, Copy, PartialEq, Eq, Structural)]
pub struct Chunk {
    pub data_file_offset: u64,
    pub compressed_size: u32,
    pub decompressed_size: u32,
    pub mip_first: u16,
    pub mip_last: u16,
    pub sentinel: u32,
}

/// A file of a parsed archive.
#[derive(Debug, Clone)]
pub struct Fo4File {
    pub id: Hash,
    pub data_file_index: DataFileIndex,
    pub texture: Option<DirectXChunkHeader>,
    pub chunks: Vec<Chunk>,
    pub name: Option<Vec<u8>>,
}

/// The directory of a parsed archive.
#[derive(Debug, Clone)]
pub struct Fo4Archive {
    pub header: Header,
    pub files: Vec<Fo4File>,
}

/// Whether every chunk of every file of `a` ends with the sentinel.
pub open spec fn sentinels_ok(a: Fo4Archive) -> bool {
    forall|i: int, j: int| 0 <= i < a.files@.len() && 0 <= j < a.files@[i].chunks@.len()
        ==> (#[trigger] a.files@[i].chunks@[j]).sentinel == CHUNK_DATA_SENTINEL
}

fn read_id(c: &mut Bytes) -> (r: Result<Hash, ReadError>)
    ensures
        r is Ok ==> final(c)@ == old(c)@.skip(12) && r->Ok_0.file == le32(old(c)@)
            && r->Ok_0.extension == le32(old(c)@.skip(4)) && r->Ok_0.directory == le32(old(c)@.skip(8)),
        r is Err <==> old(c)@.len() < 12,
{
    if c.len() < 12 {
        return Err(ReadError::Eof);
    }
    let file = match c.read_u32() { Ok(v) => v, Err(_) => 0 };
    let extension = match c.read_u32() { Ok(v) => v, Err(_) => 0 };
    let directory = match c.read_u32() { Ok(v) => v, Err(_) => 0 };
    proof {
        assert(old(c)@.skip(4).skip(4) =~= old(c)@.skip(8));
        assert(old(c)@.skip(8).skip(4) =~= old(c)@.skip(12));
    }
    Ok(Hash { file, extension, directory })
}

fn eof<T>(r: Result<T, crate::ReadBytesError>) -> (out: Result<T, ReadError>)
    ensures
        match r {
            Ok(v) => out == Ok::<T, ReadError>(v),
            Err(_) => out == Err::<T, ReadError>(ReadError::Eof),
        },
{
    match r {
        Ok(v) => Ok(v),
        Err(_) => Err(ReadError::Eof),
    }
}

/// The size of a file's chunk header in a format.
pub open spec fn header_len(f: Format) -> int {
    if f == Format::DirectX { 24 } else { 16 }
}

/// The size of a chunk record in a format.
pub open spec fn chunk_len(f: Format) -> int {
    if f == Format::DirectX { 24 } else { 20 }
}

/// What reading a chunk record from the start of `t` gives.
#[verifier::opaque]
pub open spec fn chunk_spec(t: Seq<u8>, f: Format) -> Result<Chunk, ReadError> {
    let cl = chunk_len(f);
    if t.len() < cl {
        Err(ReadError::Eof)
    } else if le32(t.skip(cl - 4)) != CHUNK_DATA_SENTINEL {
        Err(ReadError::InvalidChunkSentinel)
    } else {
        Ok(Chunk {
            data_file_offset: le64(t) as u64,
            compressed_size: le32(t.skip(8)) as u32,
            decompressed_size: le32(t.skip(12)) as u32,
            mip_first: if f == Format::DirectX { le16(t.skip(16)) as u16 } else { 0 },
            mip_last: if f == Format::DirectX { le16(t.skip(18)) as u16 } else { 0 },
            sentinel: CHUNK_DATA_SENTINEL,
        })
    }
}

/// The number of chunks that the file header at the start of `t` announces.
pub open spec fn chunk_count_of(t: Seq<u8>) -> int {
    t[13] as int
}

/// What checking the file header at the start of `t` gives.
pub open spec fn file_header_result(t: Seq<u8>, f: Format) -> Result<(), ReadError> {
    if t.len() < 16 {
        Err(ReadError::Eof)
    } else if le16(t.skip(14)) != (if f == Format::DirectX { DX10_CHUNK_SIZE } else { GENERAL_CHUNK_SIZE }) {
        Err(ReadError::InvalidChunkSize)
    } else if t.len() < header_len(f) {
        Err(ReadError::Eof)
    } else {
        Ok(())
    }
}

/// What reading the first `k` chunk records after the header at the start of
/// `t` gives: the first error, if any.
pub open spec fn chunks_result(t: Seq<u8>, f: Format, k: nat) -> Result<(), ReadError>
    decreases k,
{
    if k == 0 {
        Ok(())
    } else {
        match chunks_result(t, f, (k - 1) as nat) {
            Err(e) => Err(e),
            Ok(()) => match chunk_spec(t.skip(header_len(f) + chunk_len(f) * (k - 1)), f) {
                Err(e) => Err(e),
                Ok(_) => Ok(()),
            },
        }
    }
}

/// What reading one file's header and chunks from the start of `t` gives: the
/// number of bytes it takes, or the first error.
#[verifier::opaque]
pub open spec fn file_result(t: Seq<u8>, f: Format) -> Result<int, ReadError> {
    match file_header_result(t, f) {
        Err(e) => Err(e),
        Ok(()) => match chunks_result(t, f, chunk_count_of(t) as nat) {
            Err(e) => Err(e),
            Ok(()) => Ok(header_len(f) + chunk_len(f) * chunk_count_of(t)),
        },
    }
}

/// Where file `i` starts once the files before it have been read, or the first
/// error in them.
pub open spec fn files_result(b: Seq<u8>, f: Format, i: nat) -> Result<int, ReadError>
    decreases i,
{
    if i == 0 {
        Ok(24)
    } else {
        match files_result(b, f, (i - 1) as nat) {
            Err(e) => Err(e),
            Ok(p) => match file_result(b.skip(p), f) {
                Err(e) => Err(e),
                Ok(n) => Ok(p + n),
            },
        }
    }
}

/// What reading `k` length-prefixed names from the start of `t` gives: the
/// position after them, or `Eof`.
pub open spec fn names_result(t: Seq<u8>, k: nat) -> Result<int, ReadError>
    decreases k,
{
    if k == 0 {
        Ok(0)
    } else {
        match names_result(t, (k - 1) as nat) {
            Err(e) => Err(e),
            Ok(p) => if t.len() < p + 2 || t.len() < p + 2 + le16(t.skip(p)) {
                Err(ReadError::Eof)
            } else {
                Ok(p + 2 + le16(t.skip(p)))
            },
        }
    }
}

/// What parsing a Fallout 4 archive gives, up to the directory itself: `Ok` or
/// the first error.
pub open spec fn fo4_result(b: Seq<u8>) -> Result<(), ReadError> {
    match header_spec(b) {
        Err(e) => Err(e),
        Ok(h) => match files_result(b, h.format, h.file_count as nat) {
            Err(e) => Err(e),
            Ok(_) => if h.string_table_offset == 0 {
                Ok(())
            } else if h.string_table_offset > b.len() {
                Err(ReadError::Eof)
            } else {
                match names_result(b.skip(h.string_table_offset as int), h.file_count as nat) {
                    Err(e) => Err(e),
                    Ok(_) => Ok(()),
                }
            },
        },
    }
}

/// Whether `b` is a Fallout 4 archive that parses.
pub open spec fn fo4_well_formed(b: Seq<u8>) -> bool {
    fo4_result(b) is Ok
}

/// Reads one chunk record: `Eof` where it is short, `InvalidChunkSentinel` where
/// it does not end with the sentinel.
pub fn read_chunk(c: &mut Bytes, format: Format) -> (r: Result<Chunk, ReadError>)
    ensures
        r == chunk_spec(old(c)@, format),
        r is Ok ==> final(c)@ == old(c)@.skip(chunk_len(format)) && old(c)@.len() >= chunk_len(format),
{
    proof {
        reveal(chunk_spec);
    }
    let cl: usize = match format {
        Format::DirectX => 24,
        Format::General => 20,
    };
    if c.len() < cl {
        return Err(ReadError::Eof);
    }
    let ghost t = c@;
    let data_file_offset = eof(c.read_u64())?;
    let compressed_size = eof(c.read_u32())?;
    let decompressed_size = eof(c.read_u32())?;
    proof {
        assert(t.skip(8).skip(4) =~= t.skip(12));
        assert(t.skip(12).skip(4) =~= t.skip(16));
    }
    let (mip_first, mip_last) = match format {
        Format::DirectX => {
            let a = eof(c.read_u16())?;
            let b = eof(c.read_u16())?;
            proof {
                assert(t.skip(16).skip(2) =~= t.skip(18));
                assert(t.skip(18).skip(2) =~= t.skip(20));
            }
            (a, b)
        },
        Format::General => (0, 0),
    };
    let sentinel = eof(c.read_u32())?;
    proof {
        assert(c@ =~= t.skip(cl as int));
    }
    if sentinel != CHUNK_DATA_SENTINEL {
        return Err(ReadError::InvalidChunkSentinel);
    }
    Ok(Chunk { data_file_offset, compressed_size, decompressed_size, mip_first, mip_last, sentinel })
}

/// Whether `fi` is the file that the bytes `t` describe.
pub open spec fn file_matches(t: Seq<u8>, format: Format, fi: Fo4File) -> bool {
    &&& fi.id.file == le32(t) && fi.id.extension == le32(t.skip(4)) && fi.id.directory == le32(t.skip(8))
    &&& fi.data_file_index.index == t[12]
    &&& (fi.texture is Some <==> format == Format::DirectX)
    &&& fi.chunks@.len() == chunk_count_of(t)
    &&& forall|j: int| 0 <= j < fi.chunks@.len()
        ==> chunk_spec(t.skip(header_len(format) + chunk_len(format) * j), format)
            == Ok::<Chunk, ReadError>(#[trigger] fi.chunks@[j])
}

/// Reads one file's chunk header and its chunk records; the error is the first
/// one met.
#[verifier::rlimit(60)]
pub fn read_file(c: &mut Bytes, format: Format) -> (r: Result<Fo4File, ReadError>)
    ensures
        match file_result(old(c)@, format) {
            Err(e) => r == Err::<Fo4File, ReadError>(e),
            Ok(n) => r is Ok && 0 <= n <= old(c)@.len() && final(c)@ == old(c)@.skip(n) && r->Ok_0.name is None
                && file_matches(old(c)@, format, r->Ok_0),
        },
{
    proof {
        reveal(file_result);
    }
    let ghost t = c@;
    if c.len() < 16 {
        return Err(ReadError::Eof);
    }
    let id = read_id(c)?;
    let data_file_index = DataFileIndex { index: eof(c.read_u8())? };
    let chunk_count = eof(c.read_u8())?;
    let chunk_size = eof(c.read_u16())?;
    proof {
        assert(t.skip(12).skip(1) =~= t.skip(13));
        assert(t.skip(13).skip(1) =~= t.skip(14));
        assert(t.skip(14).skip(2) =~= t.skip(16));
    }
    let texture = match format {
        Format::General => {
            if chunk_size != GENERAL_CHUNK_SIZE {
                return Err(ReadError::InvalidChunkSize);
            }
            None
        },
        Format::DirectX => {
            if chunk_size != DX10_CHUNK_SIZE {
                return Err(ReadError::InvalidChunkSize);
            }
            if c.len() < 8 {
                return Err(ReadError::Eof);
            }
            let height = eof(c.read_u16())?;
            let width = eof(c.read_u16())?;
            let mip_count = eof(c.read_u8())?;
            let fmt = eof(c.read_u8())?;
            let flags = eof(c.read_u8())?;
            let tile_mode = eof(c.read_u8())?;
            proof {
                assert(c@ =~= t.skip(24));
            }
            Some(DirectXChunkHeader {
                id,
                data_file_index,
                chunk_count,
                height,
                width,
                mip_count,
                format: fmt,
                flags,
                tile_mode,
            })
        },
    };
    assert(c@ =~= t.skip(header_len(format)));
    let mut chunks: Vec<Chunk> = Vec::new();
    let mut j: u8 = 0;
    while j < chunk_count
        invariant
            j <= chunk_count,
            chunk_count == chunk_count_of(t),
            file_header_result(t, format) is Ok,
            chunks@.len() == j,
            t == old(c)@,
            header_len(format) + chunk_len(format) * j <= t.len(),
            c@ == t.skip(header_len(format) + chunk_len(format) * j),
            chunks_result(t, format, j as nat) is Ok,
            forall|k: int| 0 <= k < j ==> chunk_spec(t.skip(header_len(format) + chunk_len(format) * k), format)
                == Ok::<Chunk, ReadError>(#[trigger] chunks@[k]),
        decreases chunk_count - j,
    {
        let ghost q = header_len(format) + chunk_len(format) * j;
        let ch = match read_chunk(c, format) {
            Ok(ch) => ch,
            Err(e) => {
                proof {
                    reveal(file_result);
                    assert(chunks_result(t, format, j as nat + 1) == Err::<(), ReadError>(e));
                    lemma_chunks_err(t, format, j as nat + 1, chunk_count as nat);
                }
                return Err(e);
            },
        };
        proof {
            lemma_skip_skip(t, q, chunk_len(format));
            assert(q + chunk_len(format) == header_len(format) + chunk_len(format) * (j + 1)) by (nonlinear_arith)
                requires q == header_len(format) + chunk_len(format) * j;
            assert(chunks_result(t, format, j as nat + 1) is Ok);
        }
        chunks.push(ch);
        j = j + 1;
    }
    proof {
        reveal(file_result);
    }
    Ok(Fo4File { id, data_file_index, texture, chunks, name: None })
}

proof fn lemma_skip_skip(t: Seq<u8>, a: int, b: int)
    requires
        0 <= a,
        0 <= b,
        a + b <= t.len(),
    ensures
        t.skip(a).skip(b) == t.skip(a + b),
{
    assert(t.skip(a).skip(b) =~= t.skip(a + b));
}

proof fn lemma_chunks_err(t: Seq<u8>, f: Format, k: nat, n: nat)
    requires
        k <= n,
        chunks_result(t, f, k) is Err,
    ensures
        chunks_result(t, f, n) == chunks_result(t, f, k),
    decreases n - k,
{
    if k < n {
        lemma_chunks_err(t, f, k + 1, n);
    }
}

proof fn lemma_files_err(b: Seq<u8>, f: Format, k: nat, n: nat)
    requires
        k <= n,
        files_result(b, f, k) is Err,
    ensures
        files_result(b, f, n) == files_result(b, f, k),
    decreases n - k,
{
    if k < n {
        lemma_files_err(b, f, k + 1, n);
    }
}

proof fn lemma_names_err(t: Seq<u8>, k: nat, n: nat)
    requires
        k <= n,
        names_result(t, k) is Err,
    ensures
        names_result(t, n) == names_result(t, k),
    decreases n - k,
{
    if k < n {
        lemma_names_err(t, k + 1, n);
    }
}

/// Parses a Fallout 4 archive: header, file chunk lists, and the name table where
/// the header points to one. It succeeds exactly on well-formed archives, and
/// otherwise fails with the first error met.
pub fn parse_fo4(b: &[u8]) -> (r: Result<Fo4Archive, ReadError>)
    ensures
        r is Ok <==> fo4_well_formed(b@),
        fo4_result(b@) is Err ==> r == Err::<Fo4Archive, ReadError>(fo4_result(b@)->Err_0),
        r is Ok ==> header_spec(b@) == Ok::<Header, ReadError>(r->Ok_0.header)
            && r->Ok_0.files@.len() == r->Ok_0.header.file_count
            && sentinels_ok(r->Ok_0)
            && forall|i: int| 0 <= i < r->Ok_0.files@.len() ==> {
                let fi = #[trigger] r->Ok_0.files@[i];
                &&& file_matches(b@.skip(files_result(b@, r->Ok_0.header.format, i as nat)->Ok_0),
                    r->Ok_0.header.format, fi)
                &&& (fi.name is Some <==> r->Ok_0.header.string_table_offset != 0)
                &&& fi.name is Some ==> {
                    let t = b@.skip(r->Ok_0.header.string_table_offset as int);
                    let p = names_result(t, i as nat)->Ok_0;
                    fi.name->0@ == t.subrange(p + 2, p + 2 + le16(t.skip(p)))
                }
            },
{
    let header = parse_header(b)?;
    let ghost fmt = header.format;
    let mut c = Bytes::new(slice_subrange(b, 24, b.len()));
    assert(c@ =~= b@.skip(24));
    let mut files: Vec<Fo4File> = Vec::new();
    let mut i: u32 = 0;
    while i < header.file_count
        invariant
            header_spec(b@) == Ok::<Header, ReadError>(header),
            fmt == header.format,
            i <= header.file_count,
            files@.len() == i,
            files_result(b@, fmt, i as nat) is Ok,
            c@ == b@.skip(files_result(b@, fmt, i as nat)->Ok_0),
            0 <= files_result(b@, fmt, i as nat)->Ok_0 <= b@.len(),
            forall|k: int| 0 <= k < files@.len() ==> (#[trigger] files@[k]).name is None
                && file_matches(b@.skip(files_result(b@, fmt, k as nat)->Ok_0), fmt, files@[k]),
        decreases header.file_count - i,
    {
        let ghost p = files_result(b@, fmt, i as nat)->Ok_0;
        let ghost c0 = c@;
        let f = match read_file(&mut c, header.format) {
            Ok(f) => f,
            Err(e) => {
                proof {
                    assert(c0 == b@.skip(p));
                    assert(files_result(b@, fmt, i as nat + 1) == Err::<int, ReadError>(e));
                    lemma_files_err(b@, fmt, i as nat + 1, header.file_count as nat);
                }
                return Err(e);
            },
        };
        proof {
            let n = file_result(b@.skip(p), fmt)->Ok_0;
            assert(b@.skip(p).skip(n) =~= b@.skip(p + n));
            assert(files_result(b@, fmt, i as nat + 1) == Ok::<int, ReadError>(p + n));
        }
        files.push(f);
        i = i + 1;
    }
    proof {
        assert forall|i1: int, j: int| 0 <= i1 < files@.len() && 0 <= j < files@[i1].chunks@.len()
            implies (#[trigger] files@[i1].chunks@[j]).sentinel == CHUNK_DATA_SENTINEL by {
            let t = b@.skip(files_result(b@, fmt, i1 as nat)->Ok_0);
            assert(file_matches(t, fmt, files@[i1]));
            assert(chunk_spec(t.skip(header_len(fmt) + chunk_len(fmt) * j), fmt)
                == Ok::<Chunk, ReadError>(files@[i1].chunks@[j]));
            reveal(chunk_spec);
        }
    }
    if header.string_table_offset != 0 {
        if header.string_table_offset > b.len() as u64 {
            return Err(ReadError::Eof);
        }
        let ghost sto = header.string_table_offset as int;
        let mut names = Bytes::new(slice_subrange(b, header.string_table_offset as usize, b.len()));
        let ghost t = names@;
        assert(t =~= b@.skip(sto));
        let mut k: usize = 0;
        while k < files.len()
            invariant
                header_spec(b@) == Ok::<Header, ReadError>(header),
                fmt == header.format,
                files_result(b@, fmt, header.file_count as nat) is Ok,
                header.string_table_offset != 0,
                sto == header.string_table_offset,
                t == b@.skip(sto),
                k <= files@.len(),
                files@.len() == header.file_count,
                names_result(t, k as nat) is Ok,
                0 <= names_result(t, k as nat)->Ok_0 <= t.len(),
                names@ == t.skip(names_result(t, k as nat)->Ok_0),
                forall|kk: int| 0 <= kk < files@.len() ==> {
                    let fi = #[trigger] files@[kk];
                    &&& file_matches(b@.skip(files_result(b@, fmt, kk as nat)->Ok_0), fmt, fi)
                    &&& (fi.name is Some <==> kk < k)
                    &&& fi.name is Some ==> {
                        let p = names_result(t, kk as nat)->Ok_0;
                        fi.name->0@ == t.subrange(p + 2, p + 2 + le16(t.skip(p)))
                    }
                },
                forall|i1: int, j: int| 0 <= i1 < files@.len() && 0 <= j < files@[i1].chunks@.len()
                    ==> (#[trigger] files@[i1].chunks@[j]).sentinel == CHUNK_DATA_SENTINEL,
            decreases files@.len() - k,
        {
            let ghost p = names_result(t, k as nat)->Ok_0;
            let n = match read_wstring(&mut names) {
                Ok(n) => n,
                Err(_) => {
                    proof {
                        assert(names_result(t, k as nat + 1) is Err);
                        lemma_names_err(t, k as nat + 1, header.file_count as nat);
                    }
                    return Err(ReadError::Eof);
                },
            };
            proof {
                let l = le16(t.skip(p));
                assert(n@ =~= t.subrange(p + 2, p + 2 + l));
                assert(names@ =~= t.skip(p + 2 + l));
            }
            let mut f = files.remove(k);
            f.name = Some(crate::bytes::slice_to_vec_bytes(n));
            files.insert(k, f);
            k = k + 1;
        }
    }
    Ok(Fo4Archive { header, files })
}

/// The stored length of a chunk: its compressed size, or its size where stored.
pub open spec fn stored_len(ch: Chunk) -> int {
    if ch.compressed_size == 0 { ch.decompressed_size as int } else { ch.compressed_size as int }
}

/// The contents of a chunk stored in `archive`.
pub open spec fn chunk_contents(archive: Seq<u8>, ch: Chunk) -> Option<Seq<u8>> {
    if ch.data_file_offset + stored_len(ch) > archive.len() {
        None
    } else {
        let raw = archive.subrange(ch.data_file_offset as int, ch.data_file_offset + stored_len(ch));
        if ch.compressed_size == 0 {
            Some(raw)
        } else {
            match decoded(Codec::Zlib, raw) {
                Some(v) => if v.len() == ch.decompressed_size { Some(v) } else { None },
                None => None,
            }
        }
    }
}

/// The contents of a file: its chunks' contents, in order.
pub open spec fn file_contents(archive: Seq<u8>, chunks: Seq<Chunk>) -> Option<Seq<u8>>
    decreases chunks.len(),
{
    if chunks.len() == 0 {
        Some(Seq::empty())
    } else {
        match (file_contents(archive, chunks.drop_last()), chunk_contents(archive, chunks.last())) {
            (Some(a), Some(c)) => Some(a + c),
            _ => None,
        }
    }
}

/// The contents of one chunk.
pub fn read_chunk_contents(archive: &[u8], ch: &Chunk) -> (r: Option<Vec<u8>>)
    ensures
        match r {
            Some(v) => chunk_contents(archive@, *ch) == Some(v@),
            None => chunk_contents(archive@, *ch) is None,
        },
{
    let len = if ch.compressed_size == 0 { ch.decompressed_size } else { ch.compressed_size } as u64;
    if ch.data_file_offset > archive.len() as u64 || len > archive.len() as u64 - ch.data_file_offset {
        return None;
    }
    let start = ch.data_file_offset as usize;
    let raw = slice_subrange(archive, start, start + len as usize);
    if ch.compressed_size == 0 {
        Some(crate::bytes::slice_to_vec_bytes(raw))
    } else {
        decompress_exact(Codec::Zlib, raw, ch.decompressed_size)
    }
}

impl Fo4Archive {
    /// The contents of file `index`: its chunks in order, each decompressed where
    /// it is compressed. `None` where a chunk lies outside `archive` or does not
    /// decode to its announced size.
    pub fn extract(&self, archive: &[u8], index: usize) -> (r: Option<Vec<u8>>)
        requires
            index < self.files@.len(),
        ensures
            match r {
                Some(v) => file_contents(archive@, self.files@[index as int].chunks@) == Some(v@),
                None => file_contents(archive@, self.files@[index as int].chunks@) is None,
            },
    {
        let chunks = &self.files[index].chunks;
        let mut out: Vec<u8> = Vec::new();
        let mut j: usize = 0;
        while j < chunks.len()
            invariant
                index < self.files@.len(),
                chunks@ == self.files@[index as int].chunks@,
                j <= chunks@.len(),
                file_contents(archive@, chunks@.take(j as int)) == Some(out@),
            decreases chunks@.len() - j,
        {
            proof {
                assert(chunks@.take(j + 1).drop_last() =~= chunks@.take(j as int));
            }
            match read_chunk_contents(archive, &chunks[j]) {
                Some(v) => {
                    push_slice(&mut out, v.as_slice());
                    assert(chunks@.take(j + 1).last() == chunks@[j as int]);
                },
                None => {
                    proof {
                        assert(chunks@.take(j + 1).last() == chunks@[j as int]);
                        lemma_contents_none(archive@, chunks@, j as int + 1);
                    }
                    return None;
                },
            }
            j = j + 1;
        }
        assert(chunks@.take(j as int) =~= chunks@);
        Some(out)
    }
}

proof fn lemma_contents_none(archive: Seq<u8>, chunks: Seq<Chunk>, k: int)
    requires
        0 < k <= chunks.len(),
        file_contents(archive, chunks.take(k)) is None,
    ensures
        file_contents(archive, chunks) is None,
    decreases chunks.len() - k,
{
    if k < chunks.len() {
        assert(chunks.take(k + 1).drop_last() =~= chunks.take(k));
        lemma_contents_none(archive, chunks, k + 1);
    } else {
        assert(chunks.take(k) =~= chunks);
    }
}

} // verus!
