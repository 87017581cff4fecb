//! The Oblivion/Skyrim archive family: header, folder records, file-record
//! blocks, file names, and file blocks with optional embedded name and
//! compression framing.

use crate::bytes::{bzstring_result, le16, le32, Bytes};

use crate::compress::{decoded, decompress_exact, Codec};
use crate::{ArchiveReadError, Error};
use vstd::prelude::*;
use vstd::slice::slice_subrange;

verus! {

/// Archive flag: folder records are followed by their names.
pub const INCLUDE_DIRNAMES: u32 = 0x1;
/// Archive flag: a block of file names follows the file records.
pub const INCLUDE_FILENAMES: u32 = 0x2;
/// Archive flag: files are compressed unless their record says otherwise.
pub const COMPRESSED: u32 = 0x4;
/// Archive flag: each file block starts with the file's full path.
pub const EMBED_FILENAMES: u32 = 0x100;
/// Every archive flag the format defines.
pub const ARCHIVE_FLAGS_ALL: u32 = 0x3FF;
/// Every file-kind flag the format defines.
pub const FILE_FLAGS_ALL: u16 = 0x1FF;
/// Bit 30 of a file record's size: the file's compression is the opposite of the archive's.
pub const NEGATE_COMPRESSION: u32 = 0x4000_0000;

/// The compression codec of a version.
#[derive(Debug, Clone, Copy, PartialEq, Eq, Structural)]
pub enum Compression {
    Zlib,
    Lz4,
}

/// The on-disk version.
#[derive(Debug, Clone, Copy, PartialEq, Eq, Structural)]
pub enum Version {
    V103,
    V104,
    V105,
}

/// The number a version has in the header.
pub open spec fn version_number(v: Version) -> u32 {
    match v {
        Version::V103 => 103,
        Version::V104 => 104,
        Version::V105 => 105,
    }
}

impl Version {
    /// The codec of compressed files: zlib before 105, LZ4 frames from it on.
    pub fn compression(&self) -> (r: Compression)
        ensures
            r == (if *self == Version::V105 { Compression::Lz4 } else { Compression::Zlib }),
    {
        match self {
            Version::V103 | Version::V104 => Compression::Zlib,
            Version::V105 => Compression::Lz4,
        }
    }

    /// Whether file blocks may carry the file's path: from 104 on.
    pub fn can_embed_filenames(&self) -> (r: bool)
        ensures
            r == (*self != Version::V103),
    {
        match self {
            Version::V103 => false,
            _ => true,
        }
    }

    /// The number of the version in the header.
    pub fn number(&self) -> (r: u32)
        ensures
            r == version_number(*self),
    {
        match self {
            Version::V103 => 103,
            Version::V104 => 104,
            Version::V105 => 105,
        }
    }

    /// The size of a folder record: 16 bytes, 24 from 105 on.
    pub fn folder_record_size(&self) -> (r: usize)
        ensures
            r == folder_record_size_spec(*self),
    {
        match self {
            Version::V105 => 24,
            _ => 16,
        }
    }
}

/// The size of a folder record of a version.
pub open spec fn folder_record_size_spec(v: Version) -> int {
    if v == Version::V105 { 24 } else { 16 }
}

/// The version with header number `n`.
pub open spec fn version_of(n: u32) -> Option<Version> {
    if n == 103 {
        Some(Version::V103)
    } else if n == 104 {
        Some(Version::V104)
    } else if n == 105 {
        Some(Version::V105)
    } else {
        None
    }
}

/// A file record: hash, size word and offset of the file block.
#[derive(Debug, Clone, Copy, PartialEq, Eq, Structural)]
pub struct FileRecord {
    pub hash: crate::tes4_hash::Hash,
    pub size_word: u32,
    pub offset: u32,
}

impl FileRecord {
    /// A record for a file of `size` bytes at `offset`; bit 30 of the size word is
    /// set where `negate_compression` holds.
    pub fn new(hash: crate::tes4_hash::Hash, size: u32, offset: u32, negate_compression: bool) -> (r: FileRecord)
        requires
            size < NEGATE_COMPRESSION,
        ensures
            r.hash == hash,
            r.offset == offset,
            r.size_word == (if negate_compression { size + NEGATE_COMPRESSION } else { size as int }),
    {
        let size_word = if negate_compression { size + NEGATE_COMPRESSION } else { size };
        FileRecord { hash, size_word, offset }
    }

    /// The record that 16 bytes hold.
    pub fn from_bytes(b: &[u8]) -> (r: FileRecord)
        requires
            b@.len() >= 16,
        ensures
            r == file_record_spec(b@),
    {
        let mut c = Bytes::new(b);
        let h = read_hash(&mut c);
        let size_word = match c.read_u32() { Ok(v) => v, Err(_) => 0 };
        let offset = match c.read_u32() { Ok(v) => v, Err(_) => 0 };
        proof {
            assert(b@.skip(8).skip(4) =~= b@.skip(12));
        }
        FileRecord { hash: h, size_word, offset }
    }

    /// The file's hash.
    pub fn hash(&self) -> (r: crate::tes4_hash::Hash)
        ensures
            r == self.hash,
    {
        self.hash
    }

    /// The size of the file block: the size word without bit 30.
    pub fn size(&self) -> (r: u32)
        ensures
            r == size_of_word(self.size_word),
    {
        (FileSize { word: self.size_word }).get()
    }

    /// Whether bit 30 of the size word is set.
    pub fn negate_compression(&self) -> (r: bool)
        ensures
            r == negates(self.size_word),
    {
        (FileSize { word: self.size_word }).compression_inverted()
    }

    /// The offset of the file block from the start of the archive.
    pub fn offset(&self) -> (r: u32)
        ensures
            r == self.offset,
    {
        self.offset
    }
}

/// The size word of a file record: the block size in bits 0..29, and bit 30
/// where the file's compression is the opposite of the archive's.
#[derive(Debug, Clone, Copy, PartialEq, Eq, Structural)]
pub struct FileSize {
    pub word: u32,
}

impl FileSize {
    /// The size word of a block of `size` bytes; `None` where the size does not
    /// fit 30 bits.
    pub fn new(size: u32, compression_inverted: bool) -> (r: Option<FileSize>)
        ensures
            r is Some <==> size < NEGATE_COMPRESSION,
            r is Some ==> size_of_word(r->0.word) == size && negates(r->0.word) == compression_inverted
                && r->0.word < 0x8000_0000,
    {
        if size >= NEGATE_COMPRESSION {
            return None;
        }
        let word = if compression_inverted { size + NEGATE_COMPRESSION } else { size };
        Some(FileSize { word })
    }

    /// The size of the block.
    pub fn get(&self) -> (r: u32)
        ensures
            r == size_of_word(self.word),
    {
        self.word % NEGATE_COMPRESSION
    }

    /// Whether the file's compression is the opposite of the archive's.
    pub fn compression_inverted(&self) -> (r: bool)
        ensures
            r == negates(self.word),
    {
        self.word / NEGATE_COMPRESSION % 2 == 1
    }
}

/// Whether bit 30 of a size word is set.
pub open spec fn negates(w: u32) -> bool {
    w / NEGATE_COMPRESSION % 2 == 1
}

/// The block size that a size word holds: its bits 0..29.
pub open spec fn size_of_word(w: u32) -> u32 {
    (w % NEGATE_COMPRESSION) as u32
}

/// The file record that 16 bytes hold.
pub open spec fn file_record_spec(b: Seq<u8>) -> FileRecord {
    FileRecord {
        hash: crate::tes4_hash::Hash::from_bytes_spec(b),
        size_word: le32(b.skip(8)) as u32,
        offset: le32(b.skip(12)) as u32,
    }
}

fn read_hash(c: &mut Bytes) -> (r: crate::tes4_hash::Hash)
    requires
        old(c)@.len() >= 8,
    ensures
        r == crate::tes4_hash::Hash::from_bytes_spec(old(c)@),
        final(c)@ == old(c)@.skip(8),
{
    let b = match c.read_bytes(8) {
        Ok(b) => b,
        Err(_) => return crate::tes4_hash::Hash { last: 0, last2: 0, len: 0, first: 0, crc: 0 },
    };
    let h = crate::tes4_hash::Hash {
        last: b[0],
        last2: b[1],
        len: b[2],
        first: b[3],
        crc: crate::bytes::read_le32(slice_subrange(b, 4, 8)),
    };
    proof {
        assert(b@.subrange(4, 8) =~= old(c)@.subrange(4, 8));
    }
    h
}

/// A folder record: the folder's hash, its file count and the offset of its
/// file-record block.
#[derive(Debug, Clone, Copy, PartialEq, Eq, Structural)]
pub struct FolderRecord {
    pub hash: crate::tes4_hash::Hash,
    pub count: u32,
    pub offset: u32,
}

/// The folder record that the bytes hold, in the layout of version `v`.
pub open spec fn folder_record_spec(b: Seq<u8>, v: Version) -> FolderRecord {
    FolderRecord {
        hash: crate::tes4_hash::Hash::from_bytes_spec(b),
        count: le32(b.skip(8)) as u32,
        offset: if v == Version::V105 { le32(b.skip(16)) as u32 } else { le32(b.skip(12)) as u32 },
    }
}

impl FolderRecord {
    /// The 16-byte folder record of versions 103 and 104.
    pub fn from_bytes_tes4(b: &[u8]) -> (r: FolderRecord)
        requires
            b@.len() >= 16,
        ensures
            r == folder_record_spec(b@, Version::V104),
    {
        let mut c = Bytes::new(b);
        let hash = read_hash(&mut c);
        let count = match c.read_u32() { Ok(v) => v, Err(_) => 0 };
        let offset = match c.read_u32() { Ok(v) => v, Err(_) => 0 };
        proof {
            assert(b@.skip(8).skip(4) =~= b@.skip(12));
        }
        FolderRecord { hash, count, offset }
    }

    /// The 24-byte folder record of version 105, with padding around the offset.
    pub fn from_bytes_sse(b: &[u8]) -> (r: FolderRecord)
        requires
            b@.len() >= 24,
        ensures
            r == folder_record_spec(b@, Version::V105),
    {
        let mut c = Bytes::new(b);
        let hash = read_hash(&mut c);
        let count = match c.read_u32() { Ok(v) => v, Err(_) => 0 };
        let _ = c.skip(4);
        let offset = match c.read_u32() { Ok(v) => v, Err(_) => 0 };
        proof {
            assert(b@.skip(8).skip(4).skip(4) =~= b@.skip(16));
        }
        FolderRecord { hash, count, offset }
    }

    /// The record in the layout of version `v`.
    pub fn from_bytes(b: &[u8], v: Version) -> (r: FolderRecord)
        requires
            b@.len() >= folder_record_size_spec(v),
        ensures
            r == folder_record_spec(b@, v),
    {
        match v {
            Version::V105 => FolderRecord::from_bytes_sse(b),
            _ => FolderRecord::from_bytes_tes4(b),
        }
    }
}

/// The validated header.
#[derive(Debug, Clone, Copy, PartialEq, Eq, Structural)]
pub struct Header {
    pub version: Version,
    pub archive_flags: u32,
    pub folder_count: u32,
    pub file_count: u32,
    pub total_folder_name_length: u32,
    pub total_file_name_length: u32,
    pub file_flags: u16,
}

impl Header {
    /// Whether folder names precede their file records.
    pub fn include_dirnames(&self) -> (r: bool)
        ensures
            r == (self.archive_flags & INCLUDE_DIRNAMES != 0),
    {
        self.archive_flags & INCLUDE_DIRNAMES != 0
    }

    /// Whether a block of file names follows the file records.
    pub fn include_filenames(&self) -> (r: bool)
        ensures
            r == (self.archive_flags & INCLUDE_FILENAMES != 0),
    {
        self.archive_flags & INCLUDE_FILENAMES != 0
    }

    /// Whether files are compressed by default.
    pub fn compressed(&self) -> (r: bool)
        ensures
            r == (self.archive_flags & COMPRESSED != 0),
    {
        self.archive_flags & COMPRESSED != 0
    }

    /// Whether file blocks start with the file's path: only where the version allows it.
    pub fn embed_filenames(&self) -> (r: bool)
        ensures
            r == (self.version != Version::V103 && self.archive_flags & EMBED_FILENAMES != 0),
    {
        self.version.can_embed_filenames() && self.archive_flags & EMBED_FILENAMES != 0
    }
}

/// The header that the first 36 bytes of `b` hold, or the error of reading it.
pub open spec fn header_spec(b: Seq<u8>) -> Result<Header, ArchiveReadError> {
    if b.len() < 36 {
        Err(ArchiveReadError::BadHeader)
    } else if b.take(4) != seq![0x42u8, 0x53u8, 0x41u8, 0u8] {
        Err(ArchiveReadError::InvalidMagic)
    } else if version_of(le32(b.skip(4)) as u32) is None {
        Err(ArchiveReadError::InvalidVersion)
    } else if le32(b.skip(8)) != 36 {
        Err(ArchiveReadError::BadHeader)
    } else if le32(b.skip(12)) as u32 & !ARCHIVE_FLAGS_ALL != 0 || le16(b.skip(32)) as u16 & !FILE_FLAGS_ALL != 0 {
        Err(ArchiveReadError::InvalidFlags)
    } else {
        Ok(Header {
            version: version_of(le32(b.skip(4)) as u32)->0,
            archive_flags: le32(b.skip(12)) as u32,
            folder_count: le32(b.skip(16)) as u32,
            file_count: le32(b.skip(20)) as u32,
            total_folder_name_length: le32(b.skip(24)) as u32,
            total_file_name_length: le32(b.skip(28)) as u32,
            file_flags: le16(b.skip(32)) as u16,
        })
    }
}

fn u32_at(b: &[u8], pos: usize) -> (r: u32)
    requires
        pos + 4 <= b@.len(),
    ensures
        r == le32(b@.skip(pos as int)),
{
    let t = slice_subrange(b, pos, b.len());
    assert(t@ =~= b@.skip(pos as int));
    crate::bytes::read_le32(t)
}

/// Reads and validates the header.
pub fn parse_header(b: &[u8]) -> (r: Result<Header, ArchiveReadError>)
    ensures
        r == header_spec(b@),
{
    if b.len() < 36 {
        return Err(ArchiveReadError::BadHeader);
    }
    let magic_ok = b[0] == 0x42 && b[1] == 0x53 && b[2] == 0x41 && b[3] == 0;
    proof {
        if b@[0] == 0x42 && b@[1] == 0x53 && b@[2] == 0x41 && b@[3] == 0 {
            assert(b@.take(4) =~= seq![0x42u8, 0x53u8, 0x41u8, 0u8]);
        } else {
            assert(b@.take(4)[0] == b@[0] && b@.take(4)[1] == b@[1] && b@.take(4)[2] == b@[2] && b@.take(4)[3] == b@[3]);
        }
    }
    if !magic_ok {
        return Err(ArchiveReadError::InvalidMagic);
    }
    let vn = u32_at(b, 4);
    let version = if vn == 103 {
        Version::V103
    } else if vn == 104 {
        Version::V104
    } else if vn == 105 {
        Version::V105
    } else {
        return Err(ArchiveReadError::InvalidVersion);
    };
    if u32_at(b, 8) != 36 {
        return Err(ArchiveReadError::BadHeader);
    }
    let archive_flags = u32_at(b, 12);
    let t = slice_subrange(b, 32, 34);
    let file_flags = t[0] as u16 + t[1] as u16 * 0x100;
    assert(t@ =~= b@.skip(32).take(2));
    if archive_flags & !ARCHIVE_FLAGS_ALL != 0 || file_flags & !FILE_FLAGS_ALL != 0 {
        return Err(ArchiveReadError::InvalidFlags);
    }
    Ok(Header {
        version,
        archive_flags,
        folder_count: u32_at(b, 16),
        file_count: u32_at(b, 20),
        total_folder_name_length: u32_at(b, 24),
        total_file_name_length: u32_at(b, 28),
        file_flags,
    })
}

/// Splits an archive path at its last `\\` into (parent, file name); a path
/// without one is all parent, with no file name.
pub fn split(bytes: &[u8]) -> (r: (&[u8], Option<&[u8]>))
    ensures
        match crate::path::rfind_spec(bytes@, 0x5Cu8) {
            Some(i) => r.0@ == bytes@.take(i) && r.1 is Some && r.1->0@ == bytes@.skip(i + 1),
            None => r.0@ == bytes@ && r.1 is None,
        },
{
    let (parent, name) = crate::path::split(bytes);
    if parent.len() == 0 && name.len() == bytes.len() {
        proof {
            if let Some(i) = crate::path::rfind_spec(bytes@, 0x5Cu8) {
                crate::path::lemma_rfind_spec_bounds(bytes@, 0x5Cu8);
                assert(name@.len() == bytes@.len() - i - 1);
            }
        }
        (bytes, None)
    } else {
        proof {
            if crate::path::rfind_spec(bytes@, 0x5Cu8) is None {
                assert(parent@.len() == 0 && name@ == bytes@);
            }
        }
        (parent, Some(name))
    }
}

/// A file of a parsed archive: its record, its name where the archive names
/// files, and whether its block is compressed.
#[derive(Debug, Clone)]
pub struct Tes4File {
    pub record: FileRecord,
    pub name: Option<Vec<u8>>,
    pub compressed: bool,
}

/// A folder of a parsed archive.
#[derive(Debug, Clone)]
pub struct Tes4Directory {
    pub record: FolderRecord,
    pub name: Option<Vec<u8>>,
    pub files: Vec<Tes4File>,
}

/// The directory of a parsed archive.
#[derive(Debug, Clone)]
pub struct Tes4Archive {
    pub header: Header,
    pub directories: Vec<Tes4Directory>,
}

/// Whether `f` is the file that the 16 record bytes `rec` describe in an archive
/// whose files are compressed by default where `default_compressed` holds.
pub open spec fn file_from_record(rec: Seq<u8>, default_compressed: bool, f: Tes4File) -> bool {
    &&& f.record == file_record_spec(rec)
    &&& f.compressed == (default_compressed != negates(f.record.size_word))
}

/// Reads one folder's block: its name where `include_dirnames` holds, then
/// `count` file records.
pub fn read_file_record_block(
    c: &mut Bytes,
    include_dirnames: bool,
    count: u32,
    default_compressed: bool,
) -> (r: Result<(Option<Vec<u8>>, Vec<Tes4File>), ArchiveReadError>)
    ensures
        r is Ok <==> (include_dirnames ==> bzstring_result(old(c)@) is Ok)
            && (if include_dirnames { old(c)@.skip(1 + old(c)@[0]) } else { old(c)@ }).len() >= 16 * count,
        r is Ok ==> ({
            let (name, files) = r->Ok_0;
            let recs = if include_dirnames { old(c)@.skip(1 + old(c)@[0]) } else { old(c)@ };
            &&& include_dirnames ==> bzstring_result(old(c)@) == Ok::<Seq<u8>, ArchiveReadError>(name->0@) && name is Some
            &&& !include_dirnames ==> name is None
            &&& files@.len() == count
            &&& recs.len() >= 16 * count
            &&& final(c)@ == recs.skip(16 * count)
            &&& forall|j: int| 0 <= j < count ==> file_from_record(recs.skip(16 * j), default_compressed, #[trigger] files@[j])
            &&& forall|j: int| 0 <= j < count ==> (#[trigger] files@[j]).name is None
        }),
{
    let name = if include_dirnames {
        let n = c.read_bzstring()?;
        Some(crate::bytes::slice_to_vec_bytes(n))
    } else {
        None
    };
    let ghost recs = c@;
    let mut files: Vec<Tes4File> = Vec::new();
    let mut j: u32 = 0;
    while j < count
        invariant
            j <= count,
            files@.len() == j,
            recs == (if include_dirnames { old(c)@.skip(1 + old(c)@[0]) } else { old(c)@ }),
            include_dirnames ==> bzstring_result(old(c)@) is Ok,
            recs.len() >= 16 * j,
            c@ == recs.skip(16 * j),
            forall|k: int| 0 <= k < j ==> file_from_record(recs.skip(16 * k), default_compressed, #[trigger] files@[k]),
            forall|k: int| 0 <= k < j ==> (#[trigger] files@[k]).name is None,
        decreases count - j,
    {
        let rec = match c.read_bytes(16) {
            Ok(rec) => rec,
            Err(_) => {
                assert(recs.len() < 16 * count) by (nonlinear_arith)
                    requires recs.len() >= 16 * j, recs.skip(16 * j).len() < 16, j < count,
                        recs.skip(16 * j).len() == recs.len() - 16 * j;
                return Err(ArchiveReadError::BadArchive);
            },
        };
        let record = FileRecord::from_bytes(rec);
        proof {
            assert(rec@ =~= recs.skip(16 * j).take(16));
            assert(recs.skip(16 * j).skip(16) =~= recs.skip(16 * (j + 1)));
            assert(file_record_spec(rec@) == file_record_spec(recs.skip(16 * j))) by {
                assert(rec@.skip(8).take(4) =~= recs.skip(16 * j).skip(8).take(4));
                assert(rec@.skip(12).take(4) =~= recs.skip(16 * j).skip(12).take(4));
                assert(rec@.subrange(4, 8) =~= recs.skip(16 * j).subrange(4, 8));
            }
        }
        let compressed = default_compressed != record.negate_compression();
        files.push(Tes4File { record, name: None, compressed });
        j = j + 1;
    }
    Ok((name, files))
}

/// The length of the folder name that starts a file-record block at `p`, with
/// its length byte; nothing where folder names are not included.
pub open spec fn name_field_len(b: Seq<u8>, h: Header, p: int) -> int {
    if h.archive_flags & INCLUDE_DIRNAMES != 0 { 1 + b[p] } else { 0 }
}

/// Where the file-record block of folder `i` starts: the blocks follow the folder
/// records, in folder order.
pub open spec fn block_pos(b: Seq<u8>, h: Header, i: nat) -> int
    decreases i,
{
    if i == 0 {
        36 + folder_record_size_spec(h.version) * h.folder_count
    } else {
        let k = (i - 1) as nat;
        let p = block_pos(b, h, k);
        let count = folder_record_spec(b.skip(36 + folder_record_size_spec(h.version) * k), h.version).count;
        p + name_field_len(b, h, p) + 16 * count
    }
}

/// The length of the NUL-terminated string at the start of `s`.
pub open spec fn zlen(s: Seq<u8>) -> int {
    choose|i: int| 0 <= i < s.len() && s[i] == 0 && forall|j: int| 0 <= j < i ==> s[j] != 0
}

/// Where the `k`-th NUL-terminated string of `s` starts, or `None` where fewer
/// than `k` strings precede it.
pub open spec fn names_pos(s: Seq<u8>, k: nat) -> Option<int>
    decreases k,
{
    if k == 0 {
        Some(0)
    } else {
        match names_pos(s, (k - 1) as nat) {
            None => None,
            Some(p) => if 0 <= p <= s.len() && crate::bytes::has_nul(s.skip(p)) {
                Some(p + zlen(s.skip(p)) + 1)
            } else {
                None
            },
        }
    }
}

/// The `k`-th NUL-terminated string of `s`, without its NUL.
pub open spec fn name_at(s: Seq<u8>, k: nat) -> Seq<u8> {
    let p = names_pos(s, k)->0;
    s.skip(p).take(zlen(s.skip(p)))
}

/// The file count of folder `i`.
pub open spec fn count_of(b: Seq<u8>, h: Header, i: int) -> int {
    folder_record_spec(b.skip(36 + folder_record_size_spec(h.version) * i), h.version).count as int
}

/// The number of files in the folders before folder `i`.
pub open spec fn files_before(b: Seq<u8>, h: Header, i: nat) -> int
    decreases i,
{
    if i == 0 { 0 } else { files_before(b, h, (i - 1) as nat) + count_of(b, h, i - 1) }
}

/// Whether the file-record block of folder `i` can be read.
pub open spec fn dir_ok(b: Seq<u8>, h: Header, i: nat) -> bool {
    let p = block_pos(b, h, i);
    &&& 0 <= p <= b.len()
    &&& h.archive_flags & INCLUDE_DIRNAMES != 0 ==> bzstring_result(b.skip(p)) is Ok
    &&& p + name_field_len(b, h, p) + 16 * count_of(b, h, i as int) <= b.len()
}

/// Where the header says the file-name block starts: after the folder records,
/// the folder names with their length bytes, and the file records.
pub open spec fn expected_names_offset(h: Header) -> int {
    36 + folder_record_size_spec(h.version) * h.folder_count
        + (if h.archive_flags & INCLUDE_DIRNAMES != 0 { h.folder_count + h.total_folder_name_length } else { 0 })
        + 16 * h.file_count
}

/// The file-name block of `b`.
pub open spec fn names_block(b: Seq<u8>, h: Header) -> Seq<u8> {
    let p = block_pos(b, h, h.folder_count as nat);
    b.subrange(p, p + h.total_file_name_length)
}

/// Whether `b` is an archive of the TES4 family that parses: a valid header, the
/// folder records and every file-record block inside `b`, and, where file names
/// are included, a name block inside `b` holding a name for every file.
pub open spec fn tes4_well_formed(b: Seq<u8>) -> bool {
    match header_spec(b) {
        Err(_) => false,
        Ok(h) => {
            let fc = h.folder_count as int;
            &&& 36 + folder_record_size_spec(h.version) * fc <= b.len()
            &&& forall|i: int| 0 <= i < fc ==> #[trigger] dir_ok(b, h, i as nat)
            &&& block_pos(b, h, h.folder_count as nat) == expected_names_offset(h)
            &&& h.archive_flags & INCLUDE_FILENAMES != 0 ==> {
                let p = block_pos(b, h, h.folder_count as nat);
                &&& p + h.total_file_name_length <= b.len()
                &&& names_pos(names_block(b, h), files_before(b, h, h.folder_count as nat) as nat) is Some
            }
        },
    }
}

/// Whether `a` describes the folders and files of `b`.
pub open spec fn archive_matches(b: Seq<u8>, a: Tes4Archive) -> bool {
    let h = a.header;
    let frs = folder_record_size_spec(h.version);
    &&& header_spec(b) == Ok::<Header, ArchiveReadError>(h)
    &&& a.directories@.len() == h.folder_count
    &&& forall|i: int| 0 <= i < a.directories@.len() ==> {
        let d = #[trigger] a.directories@[i];
        &&& d.record == folder_record_spec(b.skip(36 + frs * i), h.version)
        &&& d.files@.len() == d.record.count
        &&& (d.name is Some <==> h.archive_flags & INCLUDE_DIRNAMES != 0)
        &&& d.name is Some ==> bzstring_result(b.skip(block_pos(b, h, i as nat)))
            == Ok::<Seq<u8>, ArchiveReadError>(d.name->0@)
        &&& forall|j: int| 0 <= j < d.files@.len() ==> {
            let f = #[trigger] d.files@[j];
            let p = block_pos(b, h, i as nat);
            &&& f.record == file_record_spec(b.skip(p + name_field_len(b, h, p) + 16 * j))
            &&& f.compressed == ((h.archive_flags & COMPRESSED != 0) != negates(f.record.size_word))
            &&& (f.name is Some <==> h.archive_flags & INCLUDE_FILENAMES != 0)
            &&& f.name is Some ==> f.name->0@ == name_at(names_block(b, h), (files_before(b, h, i as nat) + j) as nat)
        }
    }
}

/// The first NUL of a string is where `zlen` puts it.
pub proof fn lemma_zlen(s: Seq<u8>, i: int)
    requires
        0 <= i < s.len(),
        s[i] == 0,
        forall|j: int| 0 <= j < i ==> s[j] != 0,
    ensures
        zlen(s) == i,
{
    let z = zlen(s);
    assert(0 <= z < s.len() && s[z] == 0 && forall|j: int| 0 <= j < z ==> s[j] != 0);
    if z < i {
        assert(s[z] != 0);
    } else if z > i {
        assert(s[i] != 0);
    }
}

proof fn lemma_names_none(s: Seq<u8>, k: nat, n: nat)
    requires
        k <= n,
        names_pos(s, k) is None,
    ensures
        names_pos(s, n) is None,
    decreases n - k,
{
    if k < n {
        lemma_names_none(s, k + 1, n);
    }
}

/// Reads `n` NUL-terminated names from the start of `block`.
pub fn read_names(block: &[u8], n: u64) -> (r: Result<Vec<Vec<u8>>, ArchiveReadError>)
    ensures
        r is Ok <==> names_pos(block@, n as nat) is Some,
        r is Ok ==> r->Ok_0@.len() == n
            && forall|k: int| 0 <= k < n ==> (#[trigger] r->Ok_0@[k])@ == name_at(block@, k as nat),
        r is Err ==> r->Err_0 == ArchiveReadError::MissingNul,
{
    let mut c = Bytes::new(block);
    let mut out: Vec<Vec<u8>> = Vec::new();
    let mut k: u64 = 0;
    while k < n
        invariant
            k <= n,
            out@.len() == k,
            names_pos(block@, k as nat) is Some,
            0 <= names_pos(block@, k as nat)->0 <= block@.len(),
            c@ == block@.skip(names_pos(block@, k as nat)->0),
            forall|kk: int| 0 <= kk < k ==> (#[trigger] out@[kk])@ == name_at(block@, kk as nat),
        decreases n - k,
    {
        let ghost p = names_pos(block@, k as nat)->0;
        let ghost c0 = c@;
        let z = match c.read_zstring() {
            Ok(z) => z,
            Err(e) => {
                proof {
                    lemma_names_none(block@, k as nat + 1, n as nat);
                }
                return Err(e);
            },
        };
        proof {
            let i = z@.len() as int;
            lemma_zlen(c0, i);
            assert(crate::bytes::has_nul(c0)) by {
                assert(c0[i] == 0);
            }
            assert(names_pos(block@, k as nat + 1) == Some(p + i + 1));
            assert(block@.skip(p).skip(i + 1) =~= block@.skip(p + i + 1));
        }
        out.push(crate::bytes::slice_to_vec_bytes(z));
        k = k + 1;
    }
    Ok(out)
}

/// Whether folder `k` of `b` is described by `d`, file names aside.
pub open spec fn dir_matches(b: Seq<u8>, h: Header, k: int, d: Tes4Directory) -> bool {
    let frs = folder_record_size_spec(h.version);
    let p = block_pos(b, h, k as nat);
    &&& d.record == folder_record_spec(b.skip(36 + frs * k), h.version)
    &&& d.files@.len() == d.record.count
    &&& (d.name is Some <==> h.archive_flags & INCLUDE_DIRNAMES != 0)
    &&& d.name is Some ==> bzstring_result(b.skip(p)) == Ok::<Seq<u8>, ArchiveReadError>(d.name->0@)
    &&& forall|j: int| 0 <= j < d.files@.len() ==> {
        let f = #[trigger] d.files@[j];
        &&& f.record == file_record_spec(b.skip(p + name_field_len(b, h, p) + 16 * j))
        &&& f.compressed == ((h.archive_flags & COMPRESSED != 0) != negates(f.record.size_word))
    }
}

/// Whether file `j` of folder `k` carries its name from the name block.
pub open spec fn file_named(b: Seq<u8>, h: Header, k: int, j: int, f: Tes4File) -> bool {
    f.name is Some && f.name->0@ == name_at(names_block(b, h), (files_before(b, h, k as nat) + j) as nat)
}

proof fn lemma_files_before_mono(b: Seq<u8>, h: Header, i: nat, n: nat)
    requires
        i <= n,
    ensures
        files_before(b, h, i) <= files_before(b, h, n),
        files_before(b, h, i) >= 0,
    decreases n - i,
{
    if i < n {
        lemma_files_before_mono(b, h, i + 1, n);
    }
    lemma_files_before_nonneg(b, h, i);
}

proof fn lemma_files_before_nonneg(b: Seq<u8>, h: Header, i: nat)
    ensures
        files_before(b, h, i) >= 0,
    decreases i,
{
    if i > 0 {
        lemma_files_before_nonneg(b, h, (i - 1) as nat);
    }
}

/// Parses the header, folder records, file-record blocks and file names of an
/// archive of the TES4 family. It succeeds exactly on well-formed archives.
#[verifier::rlimit(100)]
pub fn parse_tes4(b: &[u8]) -> (r: Result<Tes4Archive, ArchiveReadError>)
    ensures
        r is Ok <==> tes4_well_formed(b@),
        header_spec(b@) is Err ==> r == Err::<Tes4Archive, ArchiveReadError>(header_spec(b@)->Err_0),
        r is Ok ==> archive_matches(b@, r->Ok_0),
{
    let header = parse_header(b)?;
    let frs = header.version.folder_record_size();
    let fc = header.folder_count;
    let default_compressed = header.compressed();
    let include_dirnames = header.include_dirnames();
    let include_filenames = header.include_filenames();
    if (fc as u64) * (frs as u64) > (b.len() as u64) - 36 {
        return Err(ArchiveReadError::BadArchive);
    }
    let mut c = Bytes::new(slice_subrange(b, 36 + (fc as usize) * frs, b.len()));
    let mut dirs: Vec<Tes4Directory> = Vec::new();
    let mut total: u64 = 0;
    let mut i: u32 = 0;
    while i < fc
        invariant
            header_spec(b@) == Ok::<Header, ArchiveReadError>(header),
            frs == folder_record_size_spec(header.version),
            fc == header.folder_count,
            default_compressed == (header.archive_flags & COMPRESSED != 0),
            include_dirnames == (header.archive_flags & INCLUDE_DIRNAMES != 0),
            include_filenames == (header.archive_flags & INCLUDE_FILENAMES != 0),
            36 + fc * frs <= b@.len(),
            i <= fc,
            dirs@.len() == i,
            total == files_before(b@, header, i as nat),
            total <= i * 0xFFFF_FFFF,
            0 <= block_pos(b@, header, i as nat) <= b@.len(),
            c@ == b@.skip(block_pos(b@, header, i as nat)),
            forall|k: int| 0 <= k < i ==> #[trigger] dir_ok(b@, header, k as nat),
            forall|k: int| 0 <= k < i ==> dir_matches(b@, header, k, #[trigger] dirs@[k]),
            forall|k: int, j: int| 0 <= k < i && 0 <= j < dirs@[k].files@.len() ==> (#[trigger] dirs@[k].files@[j]).name is None,
        decreases fc - i,
    {
        proof {
            assert((i as int) * frs + frs <= fc * frs) by (nonlinear_arith)
                requires i < fc, frs >= 0;
            assert(frs <= 24);
        }
        let pos = 36 + (frs as u64) * (i as u64);
        assert(pos <= b@.len()) by (nonlinear_arith)
            requires pos == 36 + frs * i, (i as int) * frs + frs <= fc * frs, 36 + fc * frs <= b@.len();
        let rb = slice_subrange(b, pos as usize, b.len());
        let record = FolderRecord::from_bytes(rb, header.version);
        proof {
            assert(rb@ =~= b@.skip(36 + frs * i));
        }
        let ghost p = block_pos(b@, header, i as nat);
        let ghost c0 = c@;
        let (name, files) = match read_file_record_block(&mut c, include_dirnames, record.count, default_compressed) {
            Ok(x) => x,
            Err(e) => {
                proof {
                    if include_dirnames && bzstring_result(c0) is Ok {
                        assert(c0[0] == b@[p]);
                        assert(c0.skip(1 + c0[0]) =~= b@.skip(p + 1 + b@[p]));
                    } else if !include_dirnames {
                        assert(c0.len() == b@.len() - p);
                    }
                    assert(!dir_ok(b@, header, i as nat));
                    let ii = i as int;
                    assert(!dir_ok(b@, header, ii as nat));
                    assert(!tes4_well_formed(b@));
                }
                return Err(e);
            },
        };
        proof {
            let nl = name_field_len(b@, header, p);
            let recs = if include_dirnames { c0.skip(1 + c0[0]) } else { c0 };
            if include_dirnames {
                assert(c0[0] == b@[p]);
            }
            assert(recs =~= b@.skip(p + nl));
            assert forall|j: int| 0 <= j < files@.len() implies
                (#[trigger] files@[j]).record == file_record_spec(b@.skip(p + nl + 16 * j)) by {
                assert(recs.skip(16 * j) =~= b@.skip(p + nl + 16 * j));
            }
            assert(block_pos(b@, header, (i + 1) as nat) == p + nl + 16 * record.count);
            assert(c@ =~= b@.skip(p + nl + 16 * record.count));
            assert(dir_ok(b@, header, i as nat));
        }
        let ghost d_new = Tes4Directory { record, name, files };
        assert(dir_matches(b@, header, i as int, d_new));
        total = total + record.count as u64;
        dirs.push(Tes4Directory { record, name, files });
        i = i + 1;
    }
    let expected: u64 = 36 + (frs as u64) * (fc as u64)
        + (if include_dirnames { fc as u64 + header.total_folder_name_length as u64 } else { 0 })
        + 16 * (header.file_count as u64);
    if (b.len() - c.len()) as u64 != expected {
        return Err(ArchiveReadError::BadArchive);
    }
    if include_filenames {
        let tfl = header.total_file_name_length as usize;
        let ghost bp = block_pos(b@, header, fc as nat);
        let block = match c.read_bytes(tfl) {
            Ok(block) => block,
            Err(_) => return Err(ArchiveReadError::BadArchive),
        };
        assert(block@ =~= names_block(b@, header));
        let names = read_names(block, total)?;
        let mut d: usize = 0;
        let mut g: u64 = 0;
        while d < dirs.len()
            invariant
                header_spec(b@) == Ok::<Header, ArchiveReadError>(header),
                fc == header.folder_count,
                dirs@.len() == fc,
                include_filenames == (header.archive_flags & INCLUDE_FILENAMES != 0),
                include_filenames,
                d <= dirs@.len(),
                total == files_before(b@, header, fc as nat),
                names@.len() == total,
                forall|k: int| 0 <= k < total ==> (#[trigger] names@[k])@ == name_at(names_block(b@, header), k as nat),
                g == files_before(b@, header, d as nat),
                forall|k: int| 0 <= k < fc ==> dir_matches(b@, header, k, #[trigger] dirs@[k]),
                forall|k: int, j: int| 0 <= k < fc && 0 <= j < dirs@[k].files@.len() ==>
                    (k < d ==> file_named(b@, header, k, j, #[trigger] dirs@[k].files@[j]))
                    && (k >= d ==> dirs@[k].files@[j].name is None),
            decreases dirs@.len() - d,
        {
            let mut dir = dirs.remove(d);
            let ghost dir0 = dir;
            let ghost old_dirs = dirs@;
            proof {
                lemma_files_before_mono(b@, header, d as nat + 1, fc as nat);
                assert(dir0 == dirs@.insert(d as int, dir0)[d as int]);
            }
            let mut j: usize = 0;
            while j < dir.files.len()
                invariant
                    dir.record == dir0.record,
                    dir.name == dir0.name,
                    dir.files@.len() == dir0.files@.len(),
                    dir0.files@.len() == dir0.record.count,
                    g + dir0.record.count <= total,
                    names@.len() == total,
                    j <= dir.files@.len(),
                    forall|jj: int| 0 <= jj < dir.files@.len() ==> {
                        let f = #[trigger] dir.files@[jj];
                        &&& f.record == dir0.files@[jj].record
                        &&& f.compressed == dir0.files@[jj].compressed
                        &&& (jj < j ==> f.name is Some && f.name->0@ == names@[g + jj]@)
                        &&& (jj >= j ==> f.name is None)
                    },
                decreases dir.files@.len() - j,
            {
                let idx = g + j as u64;
                assert(idx < names@.len());
                let n = crate::bytes::slice_to_vec_bytes(names[idx as usize].as_slice());
                let mut f = dir.files.remove(j);
                f.name = Some(n);
                dir.files.insert(j, f);
                j = j + 1;
            }
            g = g + dir.files.len() as u64;
            dirs.insert(d, dir);
            proof {
                assert forall|k: int| 0 <= k < fc implies dir_matches(b@, header, k, #[trigger] dirs@[k]) by {
                    if k == d {
                        assert(dirs@[k] == dir);
                        assert(dir_matches(b@, header, k, dir0));
                    } else {
                        assert(dirs@[k] == old_dirs.insert(d as int, dir0)[k]);
                    }
                }
                assert forall|k: int, jj: int| 0 <= k < fc && 0 <= jj < dirs@[k].files@.len() implies
                    (k < d + 1 ==> file_named(b@, header, k, jj, #[trigger] dirs@[k].files@[jj]))
                    && (k >= d + 1 ==> dirs@[k].files@[jj].name is None) by {
                    if k == d {
                        assert(dirs@[k] == dir);
                    } else {
                        assert(dirs@[k] == old_dirs.insert(d as int, dir0)[k]);
                    }
                }
            }
            d = d + 1;
        }
    }
    proof {
        assert forall|i1: int| 0 <= i1 < dirs@.len() implies {
            let d = #[trigger] dirs@[i1];
            let h = header;
            let frs = folder_record_size_spec(h.version);
            &&& d.record == folder_record_spec(b@.skip(36 + frs * i1), h.version)
            &&& d.files@.len() == d.record.count
            &&& (d.name is Some <==> h.archive_flags & INCLUDE_DIRNAMES != 0)
            &&& d.name is Some ==> bzstring_result(b@.skip(block_pos(b@, h, i1 as nat)))
                == Ok::<Seq<u8>, ArchiveReadError>(d.name->0@)
            &&& forall|j: int| 0 <= j < d.files@.len() ==> {
                let f = #[trigger] d.files@[j];
                let p = block_pos(b@, h, i1 as nat);
                &&& f.record == file_record_spec(b@.skip(p + name_field_len(b@, h, p) + 16 * j))
                &&& f.compressed == ((h.archive_flags & COMPRESSED != 0) != negates(f.record.size_word))
                &&& (f.name is Some <==> h.archive_flags & INCLUDE_FILENAMES != 0)
                &&& f.name is Some ==> f.name->0@ == name_at(names_block(b@, h), (files_before(b@, h, i1 as nat) + j) as nat)
            }
        } by {
            assert(dir_matches(b@, header, i1, dirs@[i1]));
            assert forall|j: int| 0 <= j < dirs@[i1].files@.len() implies
                ((#[trigger] dirs@[i1].files@[j]).name is Some <==> header.archive_flags & INCLUDE_FILENAMES != 0)
                && (dirs@[i1].files@[j].name is Some ==> dirs@[i1].files@[j].name->0@
                    == name_at(names_block(b@, header), (files_before(b@, header, i1 as nat) + j) as nat)) by {
                if include_filenames {
                    assert(file_named(b@, header, i1, j, dirs@[i1].files@[j]));
                }
            }
        }
    }
    Ok(Tes4Archive { header, directories: dirs })
}

/// A file block: the embedded name where the archive embeds names, the
/// uncompressed length where the file is compressed, and the stored payload.
#[derive(Debug, Clone, Copy)]
pub struct FileBlock<'a> {
    pub embedded_name: Option<&'a [u8]>,
    pub uncompressed_len: Option<u32>,
    pub raw_data: &'a [u8],
}

impl<'a> FileBlock<'a> {
    /// Splits a file block into its parts.
    pub fn from_bytes(data: &'a [u8], embedded_names: bool, compressed: bool) -> (r: Result<FileBlock<'a>, ArchiveReadError>)
        ensures
            ({
                let rest = if embedded_names { data@.skip(1 + data@[0]) } else { data@ };
                &&& r is Ok <==> (embedded_names ==> crate::bytes::bstring_result(data@) is Ok)
                    && (compressed ==> rest.len() >= 4)
                &&& embedded_names && crate::bytes::bstring_result(data@) is Err
                    ==> r == Err::<FileBlock, ArchiveReadError>(crate::bytes::bstring_result(data@)->Err_0)
                &&& (embedded_names ==> crate::bytes::bstring_result(data@) is Ok) && compressed && rest.len() < 4
                    ==> r == Err::<FileBlock, ArchiveReadError>(ArchiveReadError::BadArchive)
                &&& r is Ok ==> {
                    let fb = r->Ok_0;
                    &&& (fb.embedded_name is Some <==> embedded_names)
                    &&& embedded_names ==> crate::bytes::bstring_result(data@) == Ok::<Seq<u8>, ArchiveReadError>(fb.embedded_name->0@)
                    &&& (fb.uncompressed_len is Some <==> compressed)
                    &&& compressed ==> fb.uncompressed_len->0 == le32(rest) && fb.raw_data@ == rest.skip(4)
                    &&& !compressed ==> fb.raw_data@ == rest
                }
            }),
    {
        let mut c = Bytes::new(data);
        let embedded_name = if embedded_names {
            Some(c.read_bstring()?)
        } else {
            None
        };
        let uncompressed_len = if compressed {
            match c.read_u32() {
                Ok(n) => Some(n),
                Err(_) => return Err(ArchiveReadError::BadArchive),
            }
        } else {
            None
        };
        Ok(FileBlock { embedded_name, uncompressed_len, raw_data: c.as_slice() })
    }

    /// The stored payload.
    pub fn raw_data(&self) -> (r: &'a [u8])
        ensures
            r@ == self.raw_data@,
    {
        self.raw_data
    }
}

/// The codec of a version.
pub open spec fn codec_of(v: Version) -> Codec {
    if v == Version::V105 { Codec::Lz4 } else { Codec::Zlib }
}

/// What the contents of a file block are: the payload itself where it is stored,
/// else its decoding, which must have the announced length.
pub open spec fn contents_spec(fb: FileBlock, codec: Codec) -> Option<Seq<u8>> {
    match fb.uncompressed_len {
        None => Some(fb.raw_data@),
        Some(n) => match decoded(codec, fb.raw_data@) {
            Some(v) => if v.len() == n { Some(v) } else { None },
            None => None,
        },
    }
}

/// The contents of a file block; `Compression` where a compressed payload does not
/// decode to its announced length.
pub fn block_contents(fb: &FileBlock, codec: Codec) -> (r: Result<Vec<u8>, Error>)
    ensures
        match r {
            Ok(v) => contents_spec(*fb, codec) == Some(v@),
            Err(e) => contents_spec(*fb, codec) is None && e == Error::Compression,
        },
{
    match fb.uncompressed_len {
        None => Ok(crate::bytes::slice_to_vec_bytes(fb.raw_data)),
        Some(n) => match decompress_exact(codec, fb.raw_data, n) {
            Some(v) => Ok(v),
            None => Err(Error::Compression),
        },
    }
}

impl Tes4Archive {
    /// The number of files over all folders.
    pub fn file_count(&self) -> (r: u64)
        ensures
            r == self.header.file_count,
    {
        self.header.file_count as u64
    }

    /// The block of file `file` of folder `dir` in the archive bytes `archive`;
    /// `BadOffset` where it lies outside them.
    pub fn file_block<'a>(&self, archive: &'a [u8], dir: usize, file: usize) -> (r: Result<FileBlock<'a>, ArchiveReadError>)
        requires
            dir < self.directories@.len(),
            file < self.directories@[dir as int].files@.len(),
        ensures
            ({
                let f = self.directories@[dir as int].files@[file as int];
                let start = f.record.offset as int;
                let len = size_of_word(f.record.size_word) as int;
                &&& start + len > archive@.len() ==> r == Err::<FileBlock, ArchiveReadError>(ArchiveReadError::BadOffset)
                &&& r is Ok ==> start + len <= archive@.len() && (r->Ok_0.uncompressed_len is Some <==> f.compressed)
                    && (self.header.version != Version::V103 && self.header.archive_flags & EMBED_FILENAMES != 0
                        <==> r->Ok_0.embedded_name is Some)
            }),
    {
        let f = &self.directories[dir].files[file];
        let start = f.record.offset() as usize;
        let len = f.record.size() as usize;
        if start > archive.len() || archive.len() - start < len {
            return Err(ArchiveReadError::BadOffset);
        }
        let data = slice_subrange(archive, start, start + len);
        FileBlock::from_bytes(data, self.header.embed_filenames(), f.compressed)
    }

    /// The contents of file `file` of folder `dir`, decompressed where it is
    /// compressed.
    pub fn extract(&self, archive: &[u8], dir: usize, file: usize) -> (r: Result<Vec<u8>, Error>)
        requires
            dir < self.directories@.len(),
            file < self.directories@[dir as int].files@.len(),
        ensures
            ({
                let c = file_contents_spec(archive@, self.directories@[dir as int].files@[file as int],
                    self.header.version != Version::V103 && self.header.archive_flags & EMBED_FILENAMES != 0,
                    codec_of(self.header.version));
                match r {
                    Ok(v) => c == Some(v@),
                    Err(_) => c is None,
                }
            }),
    {
        let f = &self.directories[dir].files[file];
        let start = f.record.offset() as usize;
        let len = f.record.size() as usize;
        if start > archive.len() || archive.len() - start < len {
            return Err(Error::Read(ArchiveReadError::BadOffset));
        }
        let data = slice_subrange(archive, start, start + len);
        let fb = match FileBlock::from_bytes(data, self.header.embed_filenames(), f.compressed) {
            Ok(fb) => fb,
            Err(e) => return Err(Error::Read(e)),
        };
        let codec = match self.header.version.compression() {
            Compression::Zlib => Codec::Zlib,
            Compression::Lz4 => Codec::Lz4,
        };
        block_contents(&fb, codec)
    }
}

/// The position of a file in a parsed archive: folder and file index.
#[derive(Debug, Clone, Copy, PartialEq, Eq, Structural)]
pub struct Index {
    pub folder: usize,
    pub file: usize,
}

impl Tes4Archive {
    /// Finds a file by path: the path is normalized and hashed, and the folder and
    /// file with those hashes are looked up.
    pub fn find_file_by_name(&self, name: &str) -> (r: Option<Index>)
        ensures
            match r {
                Some(ix) => ix.folder < self.directories@.len()
                    && ix.file < self.directories@[ix.folder as int].files@.len()
                    && crate::tes4_hash::file_path_hash_spec(name@) == Some((
                        self.directories@[ix.folder as int].record.hash,
                        self.directories@[ix.folder as int].files@[ix.file as int].record.hash)),
                None => match crate::tes4_hash::file_path_hash_spec(name@) {
                    None => true,
                    Some((dh, fh)) => forall|d: int, f: int| 0 <= d < self.directories@.len()
                        && 0 <= f < self.directories@[d].files@.len()
                        ==> !(#[trigger] self.directories@[d].files@[f].record.hash == fh && self.directories@[d].record.hash == dh),
                },
            },
    {
        let (dh, fh) = match crate::tes4_hash::hash_file_path(name) {
            Some(p) => p,
            None => return None,
        };
        let ghost want = crate::tes4_hash::file_path_hash_spec(name@);
        let dk = dh.to_u64();
        let fk = fh.to_u64();
        let mut d: usize = 0;
        while d < self.directories.len()
            invariant
                want == Some((dh, fh)),
                want == crate::tes4_hash::file_path_hash_spec(name@),
                dk == crate::tes4_hash::hash_u64(dh),
                fk == crate::tes4_hash::hash_u64(fh),
                d <= self.directories@.len(),
                forall|dd: int, f: int| 0 <= dd < d && 0 <= f < self.directories@[dd].files@.len()
                    ==> !(#[trigger] self.directories@[dd].files@[f].record.hash == fh && self.directories@[dd].record.hash == dh),
            decreases self.directories@.len() - d,
        {
            let dir = &self.directories[d];
            if dir.record.hash.to_u64() == dk {
                proof { crate::tes4_writer::lemma_hash_u64_injective(dir.record.hash, dh); }
                let mut f: usize = 0;
                while f < dir.files.len()
                    invariant
                        want == Some((dh, fh)),
                        want == crate::tes4_hash::file_path_hash_spec(name@),
                        fk == crate::tes4_hash::hash_u64(fh),
                        *dir == self.directories@[d as int],
                        dir.record.hash == dh,
                        d < self.directories@.len(),
                        f <= dir.files@.len(),
                        forall|ff: int| 0 <= ff < f ==> (#[trigger] dir.files@[ff]).record.hash != fh,
                    decreases dir.files@.len() - f,
                {
                    if dir.files[f].record.hash.to_u64() == fk {
                        proof {
                            crate::tes4_writer::lemma_hash_u64_injective(dir.files@[f as int].record.hash, fh);
                        }
                        return Some(Index { folder: d, file: f });
                    }
                    f = f + 1;
                }
            } else {
                assert(dir.record.hash != dh);
            }
            d = d + 1;
        }
        None
    }
}

/// The contents of a file block `data`: after the embedded name where names are
/// embedded, the payload, decoded where the file is compressed and checked
/// against the announced length.
pub open spec fn block_contents_spec(data: Seq<u8>, embed: bool, compressed: bool, codec: Codec) -> Option<Seq<u8>> {
    let rest = if embed { data.skip(1 + data[0]) } else { data };
    if embed && crate::bytes::bstring_result(data) is Err {
        None
    } else if compressed {
        if rest.len() < 4 {
            None
        } else {
            match decoded(codec, rest.skip(4)) {
                Some(v) => if v.len() == le32(rest) { Some(v) } else { None },
                None => None,
            }
        }
    } else {
        Some(rest)
    }
}

/// The contents of file `f` of an archive `archive`.
pub open spec fn file_contents_spec(archive: Seq<u8>, f: Tes4File, embed: bool, codec: Codec) -> Option<Seq<u8>> {
    let start = f.record.offset as int;
    let len = size_of_word(f.record.size_word) as int;
    if start + len > archive.len() {
        None
    } else {
        block_contents_spec(archive.subrange(start, start + len), embed, f.compressed, codec)
    }
}

} // verus!
