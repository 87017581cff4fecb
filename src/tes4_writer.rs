//! Assembly of archives of the TES4 family: folders and files sorted by hash,
//! offsets computed ahead, file blocks framed and compressed as the version asks.

use crate::bytes::{le16, le32, le_bytes16, le_bytes32, le_bytes64, lemma_le32_round_trip, push_slice, push_u16, push_u32, push_u64};
use crate::compress::{compress, decoded, encoded, Codec};
use crate::path::{file_name_of, normalize, normalize_spec, parent_of, split, split_extension};
use crate::tes4::{block_contents_spec, block_pos, codec_of, file_contents_spec, negates, size_of_word, Tes4File, file_record_spec, header_spec, name_field_len, FileRecord, Header, ARCHIVE_FLAGS_ALL, FILE_FLAGS_ALL, folder_record_size_spec, version_number, Version, COMPRESSED, EMBED_FILENAMES, INCLUDE_DIRNAMES, INCLUDE_FILENAMES};
use crate::tes4_hash::{dir_hash_spec, file_name_hash_spec, hash_directory_name_unchecked, hash_u64};
use crate::{ArchiveReadError, ArchiveWriteError, Error};
use vstd::arithmetic::div_mod::{lemma_fundamental_div_mod_converse_div, lemma_fundamental_div_mod_converse_mod};
use vstd::prelude::*;

verus! {

/// A file waiting in a writer.
#[derive(Debug, Clone)]
pub struct WriteFile {
    pub hash: crate::tes4_hash::Hash,
    pub name: Vec<u8>,
    pub data: Vec<u8>,
}

/// A folder waiting in a writer.
#[derive(Debug, Clone)]
pub struct WriteDir {
    pub hash: crate::tes4_hash::Hash,
    pub name: Vec<u8>,
    pub files: Vec<WriteFile>,
}

/// Whether the files of a folder are sorted by hash, without repeats.
pub open spec fn files_sorted(fs: Seq<WriteFile>) -> bool {
    forall|i: int, j: int| 0 <= i < j < fs.len() ==> hash_u64(#[trigger] fs[i].hash) < hash_u64(#[trigger] fs[j].hash)
}

/// Whether the folders are sorted by hash, without repeats, each non-empty, with
/// names that fit their length byte.
pub open spec fn dirs_wf(ds: Seq<WriteDir>) -> bool {
    &&& forall|i: int, j: int| 0 <= i < j < ds.len() ==> hash_u64(#[trigger] ds[i].hash) < hash_u64(#[trigger] ds[j].hash)
    &&& forall|i: int| 0 <= i < ds.len() ==> {
        let d = #[trigger] ds[i];
        &&& files_sorted(d.files@)
        &&& d.files@.len() > 0
        &&& d.name@.len() < 255
    }
}

/// The low 32 bits of `x`.
pub open spec fn t32(x: int) -> u32 {
    (x % 0x1_0000_0000) as u32
}

/// The file-kind flag of an extension: meshes for `.nif` and `.kf`, textures for
/// `.dds`, sounds for `.wav`, voices for `.lip`, miscellaneous otherwise.
pub open spec fn kind_of_ext(ext: Seq<u8>) -> u16 {
    if ext == seq![0x2Eu8, 0x6Eu8, 0x69u8, 0x66u8] || ext == seq![0x2Eu8, 0x6Bu8, 0x66u8] {
        0x1
    } else if ext == seq![0x2Eu8, 0x64u8, 0x64u8, 0x73u8] {
        0x2
    } else if ext == seq![0x2Eu8, 0x77u8, 0x61u8, 0x76u8] {
        0x8
    } else if ext == seq![0x2Eu8, 0x6Cu8, 0x69u8, 0x70u8] {
        0x10
    } else {
        0x100
    }
}

/// The file-kind flags of one folder's files.
pub open spec fn dir_flags(fs: Seq<WriteFile>) -> u16
    decreases fs.len(),
{
    if fs.len() == 0 { 0 } else { dir_flags(fs.drop_last()) | kind_of_ext(crate::tes4_hash::ext_of(fs.last().name@)) }
}

/// The file-kind flags of every file.
pub open spec fn flags_of(ds: Seq<WriteDir>) -> u16
    decreases ds.len(),
{
    if ds.len() == 0 { 0 } else { flags_of(ds.drop_last()) | dir_flags(ds.last().files@) }
}

/// The archive flags of a writer's output.
pub open spec fn archive_flags_spec(compressed: bool, embed: bool) -> u32 {
    (INCLUDE_DIRNAMES + INCLUDE_FILENAMES + (if compressed { COMPRESSED } else { 0 })
        + (if embed { EMBED_FILENAMES } else { 0 })) as u32
}

/// The file block of one file.
#[verifier::opaque]
pub open spec fn block_spec(v: Version, compressed: bool, embed: bool, dname: Seq<u8>, f: WriteFile) -> Seq<u8> {
    let name_part = if embed {
        seq![(dname.len() + 1 + f.name@.len()) as u8] + dname + seq![0x5Cu8] + f.name@
    } else {
        Seq::empty()
    };
    let body = if compressed {
        le_bytes32(t32(f.data@.len() as int)) + encoded(codec_of(v), f.data@)
    } else {
        f.data@
    };
    name_part + body
}

/// The writer's settings.
#[derive(Debug, Clone, Copy, PartialEq, Eq, Structural)]
pub struct Settings {
    pub version: Version,
    pub compressed: bool,
    pub embed: bool,
}

/// Whether names are embedded in the file blocks of `s`: where asked and allowed.
pub open spec fn embeds(s: Settings) -> bool {
    s.embed && s.version != Version::V103
}

/// The blocks of the files of one folder, concatenated.
pub open spec fn file_blocks_img(s: Settings, dname: Seq<u8>, fs: Seq<WriteFile>) -> Seq<u8>
    decreases fs.len(),
{
    if fs.len() == 0 {
        Seq::empty()
    } else {
        file_blocks_img(s, dname, fs.drop_last()) + block_spec(s.version, s.compressed, embeds(s), dname, fs.last())
    }
}

/// The blocks of every file, folder by folder.
pub open spec fn payloads_img(s: Settings, ds: Seq<WriteDir>) -> Seq<u8>
    decreases ds.len(),
{
    if ds.len() == 0 {
        Seq::empty()
    } else {
        payloads_img(s, ds.drop_last()) + file_blocks_img(s, ds.last().name@, ds.last().files@)
    }
}

/// The file records of one folder, the first file block starting at `off`.
pub open spec fn file_records_img(s: Settings, dname: Seq<u8>, fs: Seq<WriteFile>, off: int) -> Seq<u8>
    decreases fs.len(),
{
    if fs.len() == 0 {
        Seq::empty()
    } else {
        let prev = fs.drop_last();
        let blk = block_spec(s.version, s.compressed, embeds(s), dname, fs.last());
        file_records_img(s, dname, prev, off) + le_bytes64(hash_u64(fs.last().hash) as u64)
            + le_bytes32(t32(blk.len() as int)) + le_bytes32(t32(off + file_blocks_img(s, dname, prev).len()))
    }
}

/// The file-record blocks: each folder's name as a length-prefixed NUL-terminated
/// string, then its file records; file blocks start at `base`.
pub open spec fn record_blocks_img(s: Settings, ds: Seq<WriteDir>, base: int) -> Seq<u8>
    decreases ds.len(),
{
    if ds.len() == 0 {
        Seq::empty()
    } else {
        let prev = ds.drop_last();
        let d = ds.last();
        record_blocks_img(s, prev, base) + seq![(d.name@.len() + 1) as u8] + d.name@.push(0u8)
            + file_records_img(s, d.name@, d.files@, base + payloads_img(s, prev).len())
    }
}

/// The size of one folder's file-record block.
pub open spec fn record_block_len(d: WriteDir) -> int {
    d.name@.len() + 2 + 16 * d.files@.len() as int
}

/// The total size of the file-record blocks.
pub open spec fn record_blocks_len(ds: Seq<WriteDir>) -> int
    decreases ds.len(),
{
    if ds.len() == 0 { 0 } else { record_blocks_len(ds.drop_last()) + record_block_len(ds.last()) }
}

/// The folder records; the first file-record block is announced at `start`.
pub open spec fn folder_records_img(s: Settings, ds: Seq<WriteDir>, start: int) -> Seq<u8>
    decreases ds.len(),
{
    if ds.len() == 0 {
        Seq::empty()
    } else {
        let prev = ds.drop_last();
        let d = ds.last();
        let off = le_bytes32(t32(start + record_blocks_len(prev)));
        let pad = seq![0u8, 0u8, 0u8, 0u8];
        folder_records_img(s, prev, start) + le_bytes64(hash_u64(d.hash) as u64) + le_bytes32(t32(d.files@.len() as int))
            + (if s.version == Version::V105 { pad + off + pad } else { off })
    }
}

/// The file-name block: each file's name followed by a NUL.
pub open spec fn names_img(ds: Seq<WriteDir>) -> Seq<u8>
    decreases ds.len(),
{
    if ds.len() == 0 { Seq::empty() } else { names_img(ds.drop_last()) + dir_names_img(ds.last().files@) }
}

/// The names of one folder's files, each followed by a NUL.
pub open spec fn dir_names_img(fs: Seq<WriteFile>) -> Seq<u8>
    decreases fs.len(),
{
    if fs.len() == 0 { Seq::empty() } else { dir_names_img(fs.drop_last()) + fs.last().name@.push(0u8) }
}

/// The number of files over all folders.
pub open spec fn file_total(ds: Seq<WriteDir>) -> int
    decreases ds.len(),
{
    if ds.len() == 0 { 0 } else { file_total(ds.drop_last()) + ds.last().files@.len() }
}

/// The total length of the folder names, each counted with its NUL.
pub open spec fn dir_names_total(ds: Seq<WriteDir>) -> int
    decreases ds.len(),
{
    if ds.len() == 0 { 0 } else { dir_names_total(ds.drop_last()) + ds.last().name@.len() + 1 }
}

/// The header of the archive that holds `ds`.
pub open spec fn header_img(s: Settings, ds: Seq<WriteDir>) -> Seq<u8> {
    seq![0x42u8, 0x53u8, 0x41u8, 0u8] + le_bytes32(version_number(s.version)) + le_bytes32(36)
        + le_bytes32(archive_flags_spec(s.compressed, embeds(s))) + le_bytes32(t32(ds.len() as int))
        + le_bytes32(t32(file_total(ds))) + le_bytes32(t32(dir_names_total(ds)))
        + le_bytes32(t32(names_img(ds).len() as int)) + le_bytes16(flags_of(ds)) + seq![0u8, 0u8]
}

/// The archive that holds `ds`: header, folder records, file-record blocks, file
/// names and file blocks.
#[verifier::opaque]
pub open spec fn tes4_image(s: Settings, ds: Seq<WriteDir>) -> Seq<u8> {
    let f = folder_record_size_spec(s.version) * ds.len();
    let n = names_img(ds).len();
    let base = 36 + f + record_blocks_len(ds) + n;
    header_img(s, ds) + folder_records_img(s, ds, 36 + f + n) + record_blocks_img(s, ds, base)
        + names_img(ds) + payloads_img(s, ds)
}

/// Whether every offset of the archive that holds `ds` fits 32 bits.
pub open spec fn fits(s: Settings, ds: Seq<WriteDir>) -> bool {
    tes4_image(s, ds).len() <= u32::MAX
}

proof fn lemma_t32_add(a: int, b: int)
    requires
        a >= 0,
        b >= 0,
    ensures
        t32(t32(a) as int + b) == t32(a + b),
{
    vstd::arithmetic::div_mod::lemma_add_mod_noop(a, b, 0x1_0000_0000);
    vstd::arithmetic::div_mod::lemma_mod_twice(b, 0x1_0000_0000);
    vstd::arithmetic::div_mod::lemma_add_mod_noop(a % 0x1_0000_0000, b, 0x1_0000_0000);
}

/// The low 32 bits of `x`.
fn trunc32(x: u64) -> (r: u32)
    ensures
        r == t32(x as int),
{
    (x % 0x1_0000_0000) as u32
}

/// Appends the low 32 bits of `x`.
fn push_trunc(out: &mut Vec<u8>, x: u64)
    ensures
        final(out)@ == old(out)@ + le_bytes32(t32(x as int)),
{
    push_u32(out, trunc32(x));
}

/// Whether the embedded path of a file, where names are embedded, fits its
/// length byte.
pub open spec fn embedded_name_fits(s: Settings, dname: Seq<u8>, f: WriteFile) -> bool {
    embeds(s) ==> dname.len() + 1 + f.name@.len() <= 255
}

/// Whether the embedded paths of every file fit their length byte.
pub open spec fn embedded_names_fit(s: Settings, ds: Seq<WriteDir>) -> bool {
    forall|i: int, j: int| 0 <= i < ds.len() && 0 <= j < ds[i].files@.len()
        ==> embedded_name_fits(s, ds[i].name@, #[trigger] ds[i].files@[j])
}

/// Whether a file's block fits the 30 bits of a size word and its length the
/// 32 bits of the length prefix.
pub open spec fn block_fits(s: Settings, dname: Seq<u8>, f: WriteFile) -> bool {
    &&& block_spec(s.version, s.compressed, embeds(s), dname, f).len() < 0x4000_0000
    &&& f.data@.len() <= u32::MAX
}

/// Whether a compressed file's stored payload decodes back to its contents.
pub open spec fn codec_restores(s: Settings, f: WriteFile) -> bool {
    s.compressed ==> decoded(codec_of(s.version), encoded(codec_of(s.version), f.data@)) == Some(f.data@)
}

/// Whether every block fits and every compressed payload decodes back.
pub open spec fn blocks_ok(s: Settings, ds: Seq<WriteDir>) -> bool {
    forall|i: int, j: int| 0 <= i < ds.len() && 0 <= j < ds[i].files@.len()
        ==> block_fits(s, ds[i].name@, #[trigger] ds[i].files@[j]) && codec_restores(s, ds[i].files@[j])
}

/// Whether every block fits.
pub open spec fn sizes_fit(s: Settings, ds: Seq<WriteDir>) -> bool {
    forall|i: int, j: int| 0 <= i < ds.len() && 0 <= j < ds[i].files@.len()
        ==> block_fits(s, ds[i].name@, #[trigger] ds[i].files@[j])
}

/// Builds the block of one file.
fn make_block(s: Settings, dname: &Vec<u8>, f: &WriteFile) -> (r: Result<Vec<u8>, Error>)
    ensures
        r is Ok ==> r->Ok_0@ == block_spec(s.version, s.compressed, embeds(s), dname@, *f)
            && block_fits(s, dname@, *f) && codec_restores(s, *f) && embedded_name_fits(s, dname@, *f),
        r is Err ==> (r->Err_0 == Error::Compression && s.compressed)
            || (r->Err_0 == Error::Write(ArchiveWriteError::InvalidFileName) && !embedded_name_fits(s, dname@, *f))
            || (r->Err_0 == Error::Write(ArchiveWriteError::FileTooLarge) && !block_fits(s, dname@, *f)),
{
    if f.data.len() as u64 > u32::MAX as u64 {
        return Err(Error::Write(ArchiveWriteError::FileTooLarge));
    }
    let mut out: Vec<u8> = Vec::new();
    let embed = s.embed && s.version != Version::V103;
    if embed {
        if dname.len() >= 255 || f.name.len() > 254 - dname.len() {
            return Err(Error::Write(ArchiveWriteError::InvalidFileName));
        }
        out.push((dname.len() + 1 + f.name.len()) as u8);
        push_slice(&mut out, dname.as_slice());
        out.push(0x5C);
        push_slice(&mut out, f.name.as_slice());
    }
    let ghost name_part = out@;
    if s.compressed {
        let codec = match s.version {
            Version::V105 => Codec::Lz4,
            _ => Codec::Zlib,
        };
        let packed = match compress(codec, f.data.as_slice()) {
            Some(p) => p,
            None => return Err(Error::Compression),
        };
        assert(codec == codec_of(s.version));
        push_trunc(&mut out, f.data.len() as u64);
        push_slice(&mut out, packed.as_slice());
    } else {
        push_slice(&mut out, f.data.as_slice());
    }
    proof {
        let np = if embeds(s) {
            seq![(dname@.len() + 1 + f.name@.len()) as u8] + dname@ + seq![0x5Cu8] + f.name@
        } else {
            Seq::empty()
        };
        assert(name_part =~= np);
    }
    proof {
        reveal(block_spec);
    }
    assert(out@ =~= block_spec(s.version, s.compressed, embeds(s), dname@, *f));
    if out.len() as u64 >= 0x4000_0000 {
        return Err(Error::Write(ArchiveWriteError::FileTooLarge));
    }
    Ok(out)
}

/// Builds the blocks of every file, folder by folder.
fn make_blocks(s: Settings, ds: &Vec<WriteDir>) -> (r: Result<Vec<Vec<Vec<u8>>>, Error>)
    ensures
        r is Ok ==> r->Ok_0@.len() == ds@.len() && forall|i: int| 0 <= i < ds@.len() ==> {
            &&& (#[trigger] r->Ok_0@[i])@.len() == ds@[i].files@.len()
            &&& forall|j: int| 0 <= j < ds@[i].files@.len() ==> (#[trigger] r->Ok_0@[i]@[j])@
                == block_spec(s.version, s.compressed, embeds(s), ds@[i].name@, ds@[i].files@[j])
        },
        r is Ok ==> blocks_ok(s, ds@) && embedded_names_fit(s, ds@),
        r is Err ==> (r->Err_0 == Error::Compression && s.compressed)
            || (r->Err_0 == Error::Write(ArchiveWriteError::InvalidFileName) && !embedded_names_fit(s, ds@))
            || (r->Err_0 == Error::Write(ArchiveWriteError::FileTooLarge) && !sizes_fit(s, ds@)),
{
    let mut all: Vec<Vec<Vec<u8>>> = Vec::new();
    let mut i: usize = 0;
    while i < ds.len()
        invariant
            i <= ds@.len(),
            all@.len() == i,
            forall|k: int| 0 <= k < i ==> {
                &&& (#[trigger] all@[k])@.len() == ds@[k].files@.len()
                &&& forall|j: int| 0 <= j < ds@[k].files@.len() ==> (#[trigger] all@[k]@[j])@
                    == block_spec(s.version, s.compressed, embeds(s), ds@[k].name@, ds@[k].files@[j])
            },
            forall|k: int, j: int| 0 <= k < i && 0 <= j < ds@[k].files@.len()
                ==> block_fits(s, ds@[k].name@, #[trigger] ds@[k].files@[j]) && codec_restores(s, ds@[k].files@[j])
                    && embedded_name_fits(s, ds@[k].name@, ds@[k].files@[j]),
        decreases ds@.len() - i,
    {
        let d = &ds[i];
        let mut blocks: Vec<Vec<u8>> = Vec::new();
        let mut j: usize = 0;
        while j < d.files.len()
            invariant
                i < ds@.len(),
                *d == ds@[i as int],
                j <= d.files@.len(),
                blocks@.len() == j,
                forall|k: int| 0 <= k < j ==> (#[trigger] blocks@[k])@
                    == block_spec(s.version, s.compressed, embeds(s), d.name@, d.files@[k]),
                forall|k: int, jj: int| 0 <= k < i && 0 <= jj < ds@[k].files@.len()
                    ==> block_fits(s, ds@[k].name@, #[trigger] ds@[k].files@[jj]) && codec_restores(s, ds@[k].files@[jj])
                        && embedded_name_fits(s, ds@[k].name@, ds@[k].files@[jj]),
                forall|jj: int| 0 <= jj < j
                    ==> block_fits(s, d.name@, #[trigger] d.files@[jj]) && codec_restores(s, d.files@[jj])
                        && embedded_name_fits(s, d.name@, d.files@[jj]),
            decreases d.files@.len() - j,
        {
            let b = match make_block(s, &d.name, &d.files[j]) {
                Ok(b) => b,
                Err(e) => {
                    proof {
                        if e == Error::Write(ArchiveWriteError::InvalidFileName) {
                            assert(!embedded_name_fits(s, ds@[i as int].name@, ds@[i as int].files@[j as int]));
                        }
                        if e == Error::Write(ArchiveWriteError::FileTooLarge) {
                            assert(!block_fits(s, ds@[i as int].name@, ds@[i as int].files@[j as int]));
                        }
                    }
                    return Err(e);
                },
            };
            blocks.push(b);
            j = j + 1;
        }
        all.push(blocks);
        i = i + 1;
    }
    Ok(all)
}

/// Whether `blocks` holds the block of every file of `ds`.
pub open spec fn blocks_match(s: Settings, ds: Seq<WriteDir>, blocks: Seq<Vec<Vec<u8>>>) -> bool {
    &&& blocks.len() == ds.len()
    &&& forall|i: int| 0 <= i < ds.len() ==> {
        &&& (#[trigger] blocks[i])@.len() == ds[i].files@.len()
        &&& forall|j: int| 0 <= j < ds[i].files@.len() ==> (#[trigger] blocks[i]@[j])@
            == block_spec(s.version, s.compressed, embeds(s), ds[i].name@, ds[i].files@[j])
    }
}

fn emit_payloads(out: &mut Vec<u8>, Ghost(s): Ghost<Settings>, ds: &Vec<WriteDir>, blocks: &Vec<Vec<Vec<u8>>>)
    requires
        blocks_match(s, ds@, blocks@),
    ensures
        final(out)@ == old(out)@ + payloads_img(s, ds@),
{
    let mut i: usize = 0;
    while i < ds.len()
        invariant
            blocks_match(s, ds@, blocks@),
            i <= ds@.len(),
            out@ == old(out)@ + payloads_img(s, ds@.take(i as int)),
        decreases ds@.len() - i,
    {
        let d = &ds[i];
        let bs = &blocks[i];
        let ghost head = out@;
        let mut j: usize = 0;
        while j < d.files.len()
            invariant
                blocks_match(s, ds@, blocks@),
                i < ds@.len(),
                *d == ds@[i as int],
                bs@ == blocks@[i as int]@,
                j <= d.files@.len(),
                out@ == head + file_blocks_img(s, d.name@, d.files@.take(j as int)),
            decreases d.files@.len() - j,
        {
            proof {
                assert(d.files@.take(j + 1).drop_last() =~= d.files@.take(j as int));
            }
            push_slice(out, bs[j].as_slice());
            j = j + 1;
        }
        proof {
            assert(d.files@.take(j as int) =~= d.files@);
            assert(ds@.take(i + 1).drop_last() =~= ds@.take(i as int));
        }
        i = i + 1;
    }
    assert(ds@.take(i as int) =~= ds@);
}

fn emit_names(out: &mut Vec<u8>, ds: &Vec<WriteDir>)
    ensures
        final(out)@ == old(out)@ + names_img(ds@),
{
    let mut i: usize = 0;
    while i < ds.len()
        invariant
            i <= ds@.len(),
            out@ == old(out)@ + names_img(ds@.take(i as int)),
        decreases ds@.len() - i,
    {
        let d = &ds[i];
        let ghost head = out@;
        let mut j: usize = 0;
        while j < d.files.len()
            invariant
                i < ds@.len(),
                *d == ds@[i as int],
                j <= d.files@.len(),
                out@ == head + dir_names_img(d.files@.take(j as int)),
            decreases d.files@.len() - j,
        {
            proof {
                assert(d.files@.take(j + 1).drop_last() =~= d.files@.take(j as int));
            }
            push_slice(out, d.files[j].name.as_slice());
            out.push(0);
            j = j + 1;
        }
        proof {
            assert(d.files@.take(j as int) =~= d.files@);
            assert(ds@.take(i + 1).drop_last() =~= ds@.take(i as int));
        }
        i = i + 1;
    }
    assert(ds@.take(i as int) =~= ds@);
}

spec fn off_prev_int(dir_off: int, s: Settings, dname: Seq<u8>, pre: Seq<WriteFile>) -> int {
    t32(dir_off + file_blocks_img(s, dname, pre).len()) as int
}

proof fn lemma_records_step(s: Settings, dname: Seq<u8>, files: Seq<WriteFile>, j: int, dir_off: int)
    requires
        0 <= j < files.len(),
    ensures
        ({
            let pre = files.take(j);
            let blk = block_spec(s.version, s.compressed, embeds(s), dname, files[j]);
            &&& file_blocks_img(s, dname, files.take(j + 1)) == file_blocks_img(s, dname, pre) + blk
            &&& file_records_img(s, dname, files.take(j + 1), dir_off) == file_records_img(s, dname, pre, dir_off)
                + le_bytes64(hash_u64(files[j].hash) as u64) + le_bytes32(t32(blk.len() as int))
                + le_bytes32(t32(dir_off + file_blocks_img(s, dname, pre).len()))
        }),
{
    assert(files.take(j + 1).drop_last() =~= files.take(j));
    assert(files.take(j + 1).last() == files[j]);
}

fn push_record(out: &mut Vec<u8>, h: u64, blen: u64, off: u32)
    ensures
        final(out)@ == old(out)@ + (le_bytes64(h) + le_bytes32(t32(blen as int)) + le_bytes32(off)),
{
    push_u64(out, h);
    push_trunc(out, blen);
    push_u32(out, off);
    assert(out@ =~= old(out)@ + (le_bytes64(h) + le_bytes32(t32(blen as int)) + le_bytes32(off)));
}

#[verifier::rlimit(100)]
fn emit_file_records(
    out: &mut Vec<u8>,
    Ghost(s): Ghost<Settings>,
    dname: &Vec<u8>,
    files: &Vec<WriteFile>,
    bs: &Vec<Vec<u8>>,
    start: u32,
    Ghost(dir_off): Ghost<int>,
) -> (end: u32)
    requires
        bs@.len() == files@.len(),
        forall|j: int| 0 <= j < files@.len() ==> (#[trigger] bs@[j])@
            == block_spec(s.version, s.compressed, embeds(s), dname@, files@[j]),
        dir_off >= 0,
        start == t32(dir_off),
    ensures
        final(out)@ == old(out)@ + file_records_img(s, dname@, files@, dir_off),
        end == t32(dir_off + file_blocks_img(s, dname@, files@).len()),
{
    let mut off = start;
    let mut j: usize = 0;
    while j < files.len()
        invariant
            bs@.len() == files@.len(),
            forall|k: int| 0 <= k < files@.len() ==> (#[trigger] bs@[k])@
                == block_spec(s.version, s.compressed, embeds(s), dname@, files@[k]),
            j <= files@.len(),
            dir_off >= 0,
            off == t32(dir_off + file_blocks_img(s, dname@, files@.take(j as int)).len()),
            out@ == old(out)@ + file_records_img(s, dname@, files@.take(j as int), dir_off),
        decreases files@.len() - j,
    {
        let f = &files[j];
        let ghost pre = files@.take(j as int);
        let ghost blk = block_spec(s.version, s.compressed, embeds(s), dname@, *f);
        proof {
            assert(files@.take(j + 1).drop_last() =~= pre);
            assert(bs@[j as int]@ == blk);
            assert(files@.take(j + 1).last() == *f);
        }
        let blen = bs[j].len() as u64;
        let ghost before = out@;
        push_record(out, f.hash.to_u64(), blen, off);
        proof {
            lemma_records_step(s, dname@, files@, j as int, dir_off);
            let r = le_bytes64(hash_u64(f.hash) as u64) + le_bytes32(t32(blk.len() as int))
                + le_bytes32(t32(dir_off + file_blocks_img(s, dname@, pre).len()));
            vstd::seq_lib::lemma_concat_associative(old(out)@, file_records_img(s, dname@, pre, dir_off), r);
            lemma_t32_add(dir_off + file_blocks_img(s, dname@, pre).len(), blen as int);
        }
        off = trunc32(off as u64 + blen % 0x1_0000_0000);
        proof {
            vstd::arithmetic::div_mod::lemma_add_mod_noop(off_prev_int(dir_off, s, dname@, pre), blen as int, 0x1_0000_0000);
        }
        j = j + 1;
    }
    assert(files@.take(j as int) =~= files@);
    off
}

fn emit_record_blocks(
    out: &mut Vec<u8>,
    Ghost(s): Ghost<Settings>,
    ds: &Vec<WriteDir>,
    blocks: &Vec<Vec<Vec<u8>>>,
    base: u32,
    Ghost(base_int): Ghost<int>,
)
    requires
        blocks_match(s, ds@, blocks@),
        dirs_wf(ds@),
        base_int >= 0,
        base == t32(base_int),
    ensures
        final(out)@ == old(out)@ + record_blocks_img(s, ds@, base_int),
{
    let mut off: u32 = base;
    let mut i: usize = 0;
    while i < ds.len()
        invariant
            blocks_match(s, ds@, blocks@),
            dirs_wf(ds@),
            base_int >= 0,
            i <= ds@.len(),
            off == t32(base_int + payloads_img(s, ds@.take(i as int)).len()),
            out@ == old(out)@ + record_blocks_img(s, ds@.take(i as int), base_int),
        decreases ds@.len() - i,
    {
        let d = &ds[i];
        let bs = &blocks[i];
        proof {
            assert(ds@.take(i + 1).drop_last() =~= ds@.take(i as int));
        }
        out.push((d.name.len() + 1) as u8);
        push_slice(out, d.name.as_slice());
        out.push(0);
        let ghost head = out@;
        let ghost dir_off = base_int + payloads_img(s, ds@.take(i as int)).len();
        proof {
            assert(bs@ == blocks@[i as int]@);
        }
        off = emit_file_records(out, Ghost(s), &d.name, &d.files, bs, off, Ghost(dir_off));
        proof {
            assert(out@ =~= old(out)@ + record_blocks_img(s, ds@.take(i + 1), base_int));
        }
        i = i + 1;
    }
    assert(ds@.take(i as int) =~= ds@);
}

fn ext4(e: &[u8], x0: u8, x1: u8, x2: u8, x3: u8) -> (r: bool)
    ensures
        r == (e@ == seq![x0, x1, x2, x3]),
{
    if e.len() != 4 {
        return false;
    }
    let r = e[0] == x0 && e[1] == x1 && e[2] == x2 && e[3] == x3;
    proof {
        if r {
            assert(e@ =~= seq![x0, x1, x2, x3]);
        } else {
            assert(seq![x0, x1, x2, x3][0] == x0);
            assert(seq![x0, x1, x2, x3][1] == x1);
            assert(seq![x0, x1, x2, x3][2] == x2);
            assert(seq![x0, x1, x2, x3][3] == x3);
        }
    }
    r
}

fn ext3(e: &[u8], x0: u8, x1: u8, x2: u8) -> (r: bool)
    ensures
        r == (e@ == seq![x0, x1, x2]),
{
    if e.len() != 3 {
        return false;
    }
    let r = e[0] == x0 && e[1] == x1 && e[2] == x2;
    proof {
        if r {
            assert(e@ =~= seq![x0, x1, x2]);
        } else {
            assert(seq![x0, x1, x2][0] == x0);
            assert(seq![x0, x1, x2][1] == x1);
            assert(seq![x0, x1, x2][2] == x2);
        }
    }
    r
}

fn kind_of(name: &[u8]) -> (r: u16)
    ensures
        r == kind_of_ext(crate::tes4_hash::ext_of(name@)),
{
    let (_, e) = split_extension(name);
    assert(e@ =~= crate::tes4_hash::ext_of(name@));
    if ext4(e, 0x2E, 0x6E, 0x69, 0x66) || ext3(e, 0x2E, 0x6B, 0x66) {
        0x1
    } else if ext4(e, 0x2E, 0x64, 0x64, 0x73) {
        0x2
    } else if ext4(e, 0x2E, 0x77, 0x61, 0x76) {
        0x8
    } else if ext4(e, 0x2E, 0x6C, 0x69, 0x70) {
        0x10
    } else {
        0x100
    }
}

/// The counts and flags the header announces, and the length of the
/// file-record blocks, each to 32 bits.
fn totals(ds: &Vec<WriteDir>) -> (r: (u32, u32, u32, u16))
    requires
        dirs_wf(ds@),
        forall|i: int| 0 <= i < ds@.len() ==> (#[trigger] ds@[i]).files@.len() <= u32::MAX,
    ensures
        r.0 == t32(file_total(ds@)),
        r.1 == t32(dir_names_total(ds@)),
        r.2 == t32(record_blocks_len(ds@)),
        r.3 == flags_of(ds@),
{
    let mut nf: u32 = 0;
    let mut dn: u32 = 0;
    let mut rb: u32 = 0;
    let mut fl: u16 = 0;
    let mut i: usize = 0;
    while i < ds.len()
        invariant
            dirs_wf(ds@),
            forall|k: int| 0 <= k < ds@.len() ==> (#[trigger] ds@[k]).files@.len() <= u32::MAX,
            i <= ds@.len(),
            nf == t32(file_total(ds@.take(i as int))),
            dn == t32(dir_names_total(ds@.take(i as int))),
            rb == t32(record_blocks_len(ds@.take(i as int))),
            fl == flags_of(ds@.take(i as int)),
        decreases ds@.len() - i,
    {
        let d = &ds[i];
        let ghost pre = ds@.take(i as int);
        proof {
            assert(ds@.take(i + 1).drop_last() =~= pre);
            assert(ds@.take(i + 1).last() == *d);
            assert(d.name@.len() < 255);
            lemma_totals_nonneg(pre);
            lemma_t32_add(file_total(pre), d.files@.len() as int);
            lemma_t32_add(dir_names_total(pre), d.name@.len() as int + 1);
            lemma_t32_add(record_blocks_len(pre), record_block_len(*d));
        }
        let cnt = d.files.len() as u64;
        nf = trunc32(nf as u64 + cnt);
        dn = trunc32(dn as u64 + d.name.len() as u64 + 1);
        rb = trunc32(rb as u64 + d.name.len() as u64 + 2 + 16 * cnt);
        let mut df: u16 = 0;
        let mut j: usize = 0;
        while j < d.files.len()
            invariant
                j <= d.files@.len(),
                df == dir_flags(d.files@.take(j as int)),
            decreases d.files@.len() - j,
        {
            proof {
                assert(d.files@.take(j + 1).drop_last() =~= d.files@.take(j as int));
                assert(d.files@.take(j + 1).last() == d.files@[j as int]);
            }
            df = df | kind_of(d.files[j].name.as_slice());
            j = j + 1;
        }
        proof {
            assert(d.files@.take(j as int) =~= d.files@);
        }
        fl = fl | df;
        i = i + 1;
    }
    assert(ds@.take(i as int) =~= ds@);
    (nf, dn, rb, fl)
}

proof fn lemma_totals_nonneg(ds: Seq<WriteDir>)
    ensures
        file_total(ds) >= 0,
        dir_names_total(ds) >= 0,
        record_blocks_len(ds) >= 0,
    decreases ds.len(),
{
    if ds.len() > 0 {
        lemma_totals_nonneg(ds.drop_last());
    }
}

fn emit_folder_records(out: &mut Vec<u8>, s: Settings, ds: &Vec<WriteDir>, start: u32, Ghost(start_int): Ghost<int>)
    requires
        dirs_wf(ds@),
        forall|i: int| 0 <= i < ds@.len() ==> (#[trigger] ds@[i]).files@.len() <= u32::MAX,
        start_int >= 0,
        start == t32(start_int),
    ensures
        final(out)@ == old(out)@ + folder_records_img(s, ds@, start_int),
{
    let sse = match s.version {
        Version::V105 => true,
        _ => false,
    };
    let mut off = start;
    let mut i: usize = 0;
    while i < ds.len()
        invariant
            dirs_wf(ds@),
            forall|k: int| 0 <= k < ds@.len() ==> (#[trigger] ds@[k]).files@.len() <= u32::MAX,
            sse == (s.version == Version::V105),
            start_int >= 0,
            i <= ds@.len(),
            off == t32(start_int + record_blocks_len(ds@.take(i as int))),
            out@ == old(out)@ + folder_records_img(s, ds@.take(i as int), start_int),
        decreases ds@.len() - i,
    {
        let d = &ds[i];
        let ghost pre = ds@.take(i as int);
        proof {
            assert(ds@.take(i + 1).drop_last() =~= pre);
            assert(ds@.take(i + 1).last() == *d);
            assert(d.name@.len() < 255);
            lemma_totals_nonneg(pre);
            lemma_t32_add(start_int + record_blocks_len(pre), record_block_len(*d));
        }
        let cnt = d.files.len() as u64;
        push_u64(out, d.hash.to_u64());
        push_trunc(out, cnt);
        if sse {
            push_u32(out, 0);
            push_u32(out, off);
            push_u32(out, 0);
        } else {
            push_u32(out, off);
        }
        proof {
            assert(le_bytes32(0) =~= seq![0u8, 0u8, 0u8, 0u8]);
            assert(out@ =~= old(out)@ + folder_records_img(s, ds@.take(i + 1), start_int));
        }
        off = trunc32(off as u64 + d.name.len() as u64 + 2 + 16 * cnt);
        i = i + 1;
    }
    assert(ds@.take(i as int) =~= ds@);
}

proof fn lemma_folder_records_len(s: Settings, ds: Seq<WriteDir>, start: int)
    ensures
        folder_records_img(s, ds, start).len() == folder_record_size_spec(s.version) * ds.len(),
    decreases ds.len(),
{
    if ds.len() > 0 {
        lemma_folder_records_len(s, ds.drop_last(), start);
        let frs = folder_record_size_spec(s.version);
        assert(frs * (ds.len() - 1) + frs == frs * ds.len()) by (nonlinear_arith);
    }
}

proof fn lemma_file_records_len(s: Settings, dname: Seq<u8>, fs: Seq<WriteFile>, off: int)
    ensures
        file_records_img(s, dname, fs, off).len() == 16 * fs.len(),
    decreases fs.len(),
{
    if fs.len() > 0 {
        lemma_file_records_len(s, dname, fs.drop_last(), off);
    }
}

proof fn lemma_record_blocks_len(s: Settings, ds: Seq<WriteDir>, base: int)
    ensures
        record_blocks_img(s, ds, base).len() == record_blocks_len(ds),
        forall|i: int| 0 <= i < ds.len() ==> record_blocks_len(ds) >= 16 * (#[trigger] ds[i]).files@.len(),
        record_blocks_len(ds) >= 0,
    decreases ds.len(),
{
    if ds.len() > 0 {
        let prev = ds.drop_last();
        lemma_record_blocks_len(s, prev, base);
        lemma_file_records_len(s, ds.last().name@, ds.last().files@, base + payloads_img(s, prev).len());
        assert forall|i: int| 0 <= i < ds.len() implies record_blocks_len(ds) >= 16 * (#[trigger] ds[i]).files@.len() by {
            if i < ds.len() - 1 {
                assert(ds[i] == prev[i]);
            }
        }
    }
}

proof fn lemma_image_len(s: Settings, ds: Seq<WriteDir>)
    ensures
        tes4_image(s, ds).len() == 36 + folder_record_size_spec(s.version) * ds.len() + record_blocks_len(ds)
            + names_img(ds).len() + payloads_img(s, ds).len(),
        forall|i: int| 0 <= i < ds.len() ==> tes4_image(s, ds).len() >= 16 * (#[trigger] ds[i]).files@.len(),
        tes4_image(s, ds).len() >= 16 * ds.len(),
        tes4_image(s, ds).len() >= names_img(ds).len(),
{
    reveal(tes4_image);
    let f = folder_record_size_spec(s.version) * ds.len();
    let n = names_img(ds).len();
    lemma_folder_records_len(s, ds, 36 + f + n);
    lemma_record_blocks_len(s, ds, 36 + f + record_blocks_len(ds) + n);
    assert(header_img(s, ds).len() == 36);
    assert(folder_record_size_spec(s.version) * ds.len() >= 16 * ds.len()) by (nonlinear_arith)
        requires folder_record_size_spec(s.version) >= 16;
}

proof fn lemma_kind_flags(e: Seq<u8>)
    ensures
        kind_of_ext(e) & !FILE_FLAGS_ALL == 0,
{
    let k = kind_of_ext(e);
    assert(k == 1 || k == 2 || k == 8 || k == 0x10 || k == 0x100);
    assert(k == 1 || k == 2 || k == 8 || k == 0x10 || k == 0x100 ==> k & !0x1FFu16 == 0) by (bit_vector);
}

proof fn lemma_or_flags(a: u16, b: u16)
    requires
        a & !FILE_FLAGS_ALL == 0,
        b & !FILE_FLAGS_ALL == 0,
    ensures
        (a | b) & !FILE_FLAGS_ALL == 0,
{
    assert(a & !0x1FFu16 == 0 && b & !0x1FFu16 == 0 ==> (a | b) & !0x1FFu16 == 0) by (bit_vector);
}

proof fn lemma_dir_flags(fs: Seq<WriteFile>)
    ensures
        dir_flags(fs) & !FILE_FLAGS_ALL == 0,
    decreases fs.len(),
{
    if fs.len() == 0 {
        assert(0u16 & !0x1FFu16 == 0) by (bit_vector);
    } else {
        lemma_dir_flags(fs.drop_last());
        lemma_kind_flags(crate::tes4_hash::ext_of(fs.last().name@));
        lemma_or_flags(dir_flags(fs.drop_last()), kind_of_ext(crate::tes4_hash::ext_of(fs.last().name@)));
    }
}

proof fn lemma_flags_of(ds: Seq<WriteDir>)
    ensures
        flags_of(ds) & !FILE_FLAGS_ALL == 0,
    decreases ds.len(),
{
    if ds.len() == 0 {
        assert(0u16 & !0x1FFu16 == 0) by (bit_vector);
    } else {
        lemma_flags_of(ds.drop_last());
        lemma_dir_flags(ds.last().files@);
        lemma_or_flags(flags_of(ds.drop_last()), dir_flags(ds.last().files@));
    }
}

proof fn lemma_le32_at(s: Seq<u8>, p: int, x: u32)
    requires
        0 <= p,
        p + 4 <= s.len(),
        s.subrange(p, p + 4) == le_bytes32(x),
    ensures
        le32(s.skip(p)) == x,
{
    assert(s.skip(p) =~= le_bytes32(x) + s.skip(p + 4));
    lemma_le32_round_trip(x, s.skip(p + 4));
}

proof fn lemma_image_starts_with_header(s: Settings, ds: Seq<WriteDir>)
    ensures
        tes4_image(s, ds).len() >= 36,
        forall|k: int| 0 <= k < 36 ==> tes4_image(s, ds)[k] == #[trigger] header_img(s, ds)[k],
{
    reveal(tes4_image);
    assert(header_img(s, ds).len() == 36);
}

#[verifier::rlimit(60)]
proof fn lemma_header_words_a(s: Settings, ds: Seq<WriteDir>)
    ensures
        header_img(s, ds).len() == 36,
        header_img(s, ds).take(4) == seq![0x42u8, 0x53u8, 0x41u8, 0u8],
        header_img(s, ds).subrange(4, 8) == le_bytes32(version_number(s.version)),
        header_img(s, ds).subrange(8, 12) == le_bytes32(36),
        header_img(s, ds).subrange(12, 16) == le_bytes32(archive_flags_spec(s.compressed, embeds(s))),
{
    let h = header_img(s, ds);
    assert(h.take(4) =~= seq![0x42u8, 0x53u8, 0x41u8, 0u8]);
    assert(h.subrange(4, 8) =~= le_bytes32(version_number(s.version)));
    assert(h.subrange(8, 12) =~= le_bytes32(36));
    assert(h.subrange(12, 16) =~= le_bytes32(archive_flags_spec(s.compressed, embeds(s))));
}

#[verifier::rlimit(60)]
proof fn lemma_header_words_b(s: Settings, ds: Seq<WriteDir>)
    ensures
        header_img(s, ds).subrange(16, 20) == le_bytes32(t32(ds.len() as int)),
        header_img(s, ds).subrange(20, 24) == le_bytes32(t32(file_total(ds))),
        header_img(s, ds).subrange(24, 28) == le_bytes32(t32(dir_names_total(ds))),
        header_img(s, ds).subrange(28, 32) == le_bytes32(t32(names_img(ds).len() as int)),
        header_img(s, ds).subrange(32, 34) == le_bytes16(flags_of(ds)),
{
    let h = header_img(s, ds);
    assert(h.subrange(16, 20) =~= le_bytes32(t32(ds.len() as int)));
    assert(h.subrange(20, 24) =~= le_bytes32(t32(file_total(ds))));
    assert(h.subrange(24, 28) =~= le_bytes32(t32(dir_names_total(ds))));
    assert(h.subrange(28, 32) =~= le_bytes32(t32(names_img(ds).len() as int)));
    assert(h.subrange(32, 34) =~= le_bytes16(flags_of(ds)));
}

proof fn lemma_same_prefix(b: Seq<u8>, h: Seq<u8>, p: int, q: int)
    requires
        0 <= p <= q <= h.len(),
        q <= b.len(),
        forall|k: int| 0 <= k < h.len() ==> b[k] == #[trigger] h[k],
    ensures
        b.subrange(p, q) == h.subrange(p, q),
{
    assert(b.subrange(p, q) =~= h.subrange(p, q));
}

proof fn lemma_header_flags_valid(s: Settings, ds: Seq<WriteDir>)
    ensures
        archive_flags_spec(s.compressed, embeds(s)) & !ARCHIVE_FLAGS_ALL == 0,
        flags_of(ds) & !FILE_FLAGS_ALL == 0,
{
    let flags = archive_flags_spec(s.compressed, embeds(s));
    lemma_flags_of(ds);
    assert(flags <= 0x3FF);
    assert(flags <= 0x3FF ==> flags & !0x3FFu32 == 0) by (bit_vector);
}

/// The header that the writer emits reads back as the header of its settings and
/// folders: version, flags, counts (to 32 bits), name lengths and file kinds.
#[verifier::rlimit(60)]
pub proof fn lemma_header_round_trip(s: Settings, ds: Seq<WriteDir>)
    ensures
        header_spec(tes4_image(s, ds)) == Ok::<Header, ArchiveReadError>(Header {
            version: s.version,
            archive_flags: archive_flags_spec(s.compressed, embeds(s)),
            folder_count: t32(ds.len() as int),
            file_count: t32(file_total(ds)),
            total_folder_name_length: t32(dir_names_total(ds)),
            total_file_name_length: t32(names_img(ds).len() as int),
            file_flags: flags_of(ds),
        }),
{
    let b = tes4_image(s, ds);
    let h = header_img(s, ds);
    lemma_image_starts_with_header(s, ds);
    lemma_header_words_a(s, ds);
    lemma_header_words_b(s, ds);
    lemma_header_flags_valid(s, ds);
    lemma_same_prefix(b, h, 0, 4);
    assert(b.take(4) =~= b.subrange(0, 4));
    assert(h.take(4) =~= h.subrange(0, 4));
    lemma_same_prefix(b, h, 4, 8);
    lemma_le32_at(b, 4, version_number(s.version));
    lemma_same_prefix(b, h, 8, 12);
    lemma_le32_at(b, 8, 36);
    lemma_same_prefix(b, h, 12, 16);
    lemma_le32_at(b, 12, archive_flags_spec(s.compressed, embeds(s)));
    lemma_same_prefix(b, h, 16, 20);
    lemma_le32_at(b, 16, t32(ds.len() as int));
    lemma_same_prefix(b, h, 20, 24);
    lemma_le32_at(b, 20, t32(file_total(ds)));
    lemma_same_prefix(b, h, 24, 28);
    lemma_le32_at(b, 24, t32(dir_names_total(ds)));
    lemma_same_prefix(b, h, 28, 32);
    lemma_le32_at(b, 28, t32(names_img(ds).len() as int));
    lemma_same_prefix(b, h, 32, 34);
    let ff = flags_of(ds);
    assert(b.subrange(32, 34)[0] == b.skip(32)[0] && b.subrange(32, 34)[1] == b.skip(32)[1]);
    assert(le_bytes16(ff)[0] == (ff % 0x100) as u8 && le_bytes16(ff)[1] == (ff / 0x100) as u8);
    assert(le16(b.skip(32)) == ff);
}

proof fn lemma_le_bytes32_parts(b0: u8, b1: u8, b2: u8, b3: u8)
    ensures
        le_bytes32((b0 as int + b1 as int * 0x100 + b2 as int * 0x1_0000 + b3 as int * 0x100_0000) as u32)
            == seq![b0, b1, b2, b3],
{
    let l = b0 as int + b1 as int * 0x100 + b2 as int * 0x1_0000 + b3 as int * 0x100_0000;
    let q1 = b1 as int + b2 as int * 0x100 + b3 as int * 0x1_0000;
    let q2 = b2 as int + b3 as int * 0x100;
    assert(l == q1 * 0x100 + b0);
    lemma_fundamental_div_mod_converse_mod(l, 0x100, q1, b0 as int);
    lemma_fundamental_div_mod_converse_div(l, 0x100, q1, b0 as int);
    assert(q1 == q2 * 0x100 + b1);
    lemma_fundamental_div_mod_converse_mod(q1, 0x100, q2, b1 as int);
    lemma_fundamental_div_mod_converse_div(q1, 0x100, q2, b1 as int);
    assert(q2 == b3 as int * 0x100 + b2);
    lemma_fundamental_div_mod_converse_mod(q2, 0x100, b3 as int, b2 as int);
    lemma_fundamental_div_mod_converse_div(q2, 0x100, b3 as int, b2 as int);
    vstd::arithmetic::div_mod::lemma_div_denominator(l, 0x100, 0x100);
    vstd::arithmetic::div_mod::lemma_div_denominator(l, 0x1_0000, 0x100);
    assert(le_bytes32(l as u32) =~= seq![b0, b1, b2, b3]);
}

/// The bytes of a hash's `u64` value are its four bytes and its checksum.
proof fn lemma_hash_bytes(h: crate::tes4_hash::Hash)
    ensures
        le_bytes64(hash_u64(h) as u64) == seq![h.last, h.last2, h.len, h.first] + le_bytes32(h.crc),
{
    let x = hash_u64(h);
    let l = h.last as int + h.last2 as int * 0x100 + h.len as int * 0x1_0000 + h.first as int * 0x100_0000;
    assert(x == h.crc as int * 0x1_0000_0000 + l);
    lemma_fundamental_div_mod_converse_mod(x, 0x1_0000_0000, h.crc as int, l);
    lemma_fundamental_div_mod_converse_div(x, 0x1_0000_0000, h.crc as int, l);
    lemma_le_bytes32_parts(h.last, h.last2, h.len, h.first);
}

/// The record bytes of a hash read back as the hash.
proof fn lemma_hash_read_back(h: crate::tes4_hash::Hash, rest: Seq<u8>)
    ensures
        crate::tes4_hash::Hash::from_bytes_spec(le_bytes64(hash_u64(h) as u64) + rest) == h,
{
    lemma_hash_bytes(h);
    let b = le_bytes64(hash_u64(h) as u64) + rest;
    assert(b.subrange(4, 8) =~= le_bytes32(h.crc) + Seq::<u8>::empty());
    lemma_le32_round_trip(h.crc, Seq::<u8>::empty());
}

#[verifier::rlimit(60)]
proof fn lemma_folder_record_bytes(s: Settings, ds: Seq<WriteDir>, start: int, i: int)
    requires
        0 <= i < ds.len(),
    ensures
        ({
            let frs = folder_record_size_spec(s.version);
            let off = le_bytes32(t32(start + record_blocks_len(ds.take(i))));
            let pad = seq![0u8, 0u8, 0u8, 0u8];
            &&& folder_records_img(s, ds, start).len() == frs * ds.len()
            &&& folder_records_img(s, ds, start).subrange(frs * i, frs * i + frs)
                == le_bytes64(hash_u64(ds[i].hash) as u64) + le_bytes32(t32(ds[i].files@.len() as int))
                    + (if s.version == Version::V105 { pad + off + pad } else { off })
        }),
    decreases ds.len(),
{
    let frs = folder_record_size_spec(s.version);
    let p = ds.drop_last();
    lemma_folder_records_len(s, ds, start);
    lemma_folder_records_len(s, p, start);
    if i == ds.len() - 1 {
        assert(ds.take(i) =~= p);
        let x = folder_records_img(s, ds, start);
        assert(frs * i == frs * (ds.len() - 1));
        assert(x.subrange(frs * i, frs * i + frs) =~= x.subrange(frs * (ds.len() - 1), frs * ds.len()));
        assert(frs * (ds.len() - 1) + frs == frs * ds.len()) by (nonlinear_arith);
    } else {
        lemma_folder_record_bytes(s, p, start, i);
        assert(p.take(i) =~= ds.take(i));
        assert(frs * i + frs <= frs * p.len()) by (nonlinear_arith)
            requires i < p.len(), frs > 0;
        assert(folder_records_img(s, ds, start).subrange(frs * i, frs * i + frs)
            =~= folder_records_img(s, p, start).subrange(frs * i, frs * i + frs));
    }
}

#[verifier::rlimit(60)]
proof fn lemma_image_folder_region(s: Settings, ds: Seq<WriteDir>)
    ensures
        ({
            let frs = folder_record_size_spec(s.version);
            let start = 36 + frs * ds.len() + names_img(ds).len();
            let b = tes4_image(s, ds);
            &&& b.len() >= 36 + frs * ds.len()
            &&& b.subrange(36, 36 + frs * ds.len()) == folder_records_img(s, ds, start)
        }),
{
    reveal(tes4_image);
    let frs = folder_record_size_spec(s.version);
    let n = names_img(ds).len();
    let start = 36 + frs * ds.len() + n;
    let h = header_img(s, ds);
    let fr = folder_records_img(s, ds, start);
    lemma_folder_records_len(s, ds, start);
    assert(h.len() == 36);
    let rest = record_blocks_img(s, ds, 36 + frs * ds.len() + record_blocks_len(ds) + n) + names_img(ds) + payloads_img(s, ds);
    assert(tes4_image(s, ds) =~= (h + fr) + rest);
    assert(((h + fr) + rest).subrange(36, 36 + frs * ds.len()) =~= fr);
}

/// Each folder record that the writer emits reads back as the folder's hash, its
/// file count (to 32 bits), and the offset of its file-record block (to 32 bits),
/// the blocks following the folder records and the file names in folder order.
#[verifier::rlimit(60)]
pub proof fn lemma_folder_record_round_trip(s: Settings, ds: Seq<WriteDir>, i: int)
    requires
        0 <= i < ds.len(),
    ensures
        ({
            let frs = folder_record_size_spec(s.version);
            let start = 36 + frs * ds.len() + names_img(ds).len();
            crate::tes4::folder_record_spec(tes4_image(s, ds).skip(36 + frs * i), s.version)
                == (crate::tes4::FolderRecord {
                    hash: ds[i].hash,
                    count: t32(ds[i].files@.len() as int),
                    offset: t32(start + record_blocks_len(ds.take(i))),
                })
        }),
{
    let frs = folder_record_size_spec(s.version);
    let n = ds.len();
    let start = 36 + frs * n + names_img(ds).len();
    let b = tes4_image(s, ds);
    let fr = folder_records_img(s, ds, start);
    lemma_folder_record_bytes(s, ds, start, i);
    lemma_image_folder_region(s, ds);
    assert(frs * i + frs <= frs * n) by (nonlinear_arith)
        requires i < n, frs > 0;
    let rec = fr.subrange(frs * i, frs * i + frs);
    let t = b.skip(36 + frs * i);
    assert(t.take(frs) =~= b.subrange(36, 36 + frs * n).subrange(frs * i, frs * i + frs));
    assert(t.take(frs) == rec);
    lemma_folder_record_read(t, s.version, ds[i].hash, t32(ds[i].files@.len() as int),
        t32(start + record_blocks_len(ds.take(i))));
}

proof fn lemma_folder_record_read(t: Seq<u8>, v: Version, h: crate::tes4_hash::Hash, cnt: u32, off: u32)
    requires
        t.len() >= folder_record_size_spec(v),
        t.take(folder_record_size_spec(v)) == le_bytes64(hash_u64(h) as u64) + le_bytes32(cnt)
            + (if v == Version::V105 { seq![0u8, 0u8, 0u8, 0u8] + le_bytes32(off) + seq![0u8, 0u8, 0u8, 0u8] } else { le_bytes32(off) }),
    ensures
        crate::tes4::folder_record_spec(t, v) == (crate::tes4::FolderRecord { hash: h, count: cnt, offset: off }),
{
    let frs = folder_record_size_spec(v);
    let hb = le_bytes64(hash_u64(h) as u64);
    lemma_hash_bytes(h);
    assert(t =~= t.take(frs) + t.skip(frs));
    lemma_hash_read_back(h, t.skip(8));
    assert(t =~= hb + t.skip(8));
    assert(t.skip(8) =~= le_bytes32(cnt) + t.skip(12));
    lemma_le32_round_trip(cnt, t.skip(12));
    if v == Version::V105 {
        assert(t.skip(16) =~= le_bytes32(off) + t.skip(20));
        lemma_le32_round_trip(off, t.skip(20));
    } else {
        assert(t.skip(12) =~= le_bytes32(off) + t.skip(16));
        lemma_le32_round_trip(off, t.skip(16));
    }
}

#[verifier::rlimit(60)]
proof fn lemma_image_record_region(s: Settings, ds: Seq<WriteDir>)
    ensures
        ({
            let frs = folder_record_size_spec(s.version);
            let at = 36 + frs * ds.len();
            let base = at + record_blocks_len(ds) + names_img(ds).len();
            let b = tes4_image(s, ds);
            &&& record_blocks_len(ds) >= 0
            &&& b.len() >= at + record_blocks_len(ds)
            &&& b.subrange(at, at + record_blocks_len(ds)) == record_blocks_img(s, ds, base)
        }),
{
    reveal(tes4_image);
    let frs = folder_record_size_spec(s.version);
    let n = names_img(ds).len();
    let at = 36 + frs * ds.len();
    let base = at + record_blocks_len(ds) + n;
    let h = header_img(s, ds);
    let fr = folder_records_img(s, ds, at + n);
    let rb = record_blocks_img(s, ds, base);
    lemma_folder_records_len(s, ds, at + n);
    lemma_record_blocks_len(s, ds, base);
    assert(h.len() == 36);
    let rest = names_img(ds) + payloads_img(s, ds);
    assert(tes4_image(s, ds) =~= ((h + fr) + rb) + rest);
    assert((((h + fr) + rb) + rest).subrange(at, at + record_blocks_len(ds)) =~= rb);
}

#[verifier::rlimit(60)]
proof fn lemma_dir_block_bytes(s: Settings, ds: Seq<WriteDir>, base: int, i: int)
    requires
        0 <= i < ds.len(),
    ensures
        ({
            let q = record_blocks_len(ds.take(i));
            let d = ds[i];
            let blk = seq![(d.name@.len() + 1) as u8] + d.name@.push(0u8)
                + file_records_img(s, d.name@, d.files@, base + payloads_img(s, ds.take(i)).len());
            &&& 0 <= q
            &&& q + record_block_len(d) <= record_blocks_len(ds)
            &&& blk.len() == record_block_len(d)
            &&& record_blocks_img(s, ds, base).subrange(q, q + record_block_len(d)) == blk
        }),
    decreases ds.len(),
{
    let p = ds.drop_last();
    lemma_record_blocks_len(s, ds, base);
    lemma_record_blocks_len(s, p, base);
    lemma_record_blocks_len(s, ds.take(i), base);
    lemma_file_records_len(s, ds[i].name@, ds[i].files@, base + payloads_img(s, ds.take(i)).len());
    if i == ds.len() - 1 {
        assert(ds.take(i) =~= p);
        let x = record_blocks_img(s, ds, base);
        assert(x.subrange(record_blocks_len(p), record_blocks_len(ds)) =~=
            seq![(ds[i].name@.len() + 1) as u8] + ds[i].name@.push(0u8)
                + file_records_img(s, ds[i].name@, ds[i].files@, base + payloads_img(s, p).len()));
    } else {
        lemma_dir_block_bytes(s, p, base, i);
        assert(p.take(i) =~= ds.take(i));
        let q = record_blocks_len(ds.take(i));
        assert(record_blocks_img(s, ds, base).subrange(q, q + record_block_len(ds[i]))
            =~= record_blocks_img(s, p, base).subrange(q, q + record_block_len(ds[i])));
    }
}

#[verifier::rlimit(60)]
proof fn lemma_file_record_bytes(s: Settings, dname: Seq<u8>, fs: Seq<WriteFile>, off: int, j: int)
    requires
        0 <= j < fs.len(),
    ensures
        file_records_img(s, dname, fs, off).len() == 16 * fs.len(),
        file_records_img(s, dname, fs, off).subrange(16 * j, 16 * j + 16)
            == le_bytes64(hash_u64(fs[j].hash) as u64)
                + le_bytes32(t32(block_spec(s.version, s.compressed, embeds(s), dname, fs[j]).len() as int))
                + le_bytes32(t32(off + file_blocks_img(s, dname, fs.take(j)).len())),
    decreases fs.len(),
{
    let p = fs.drop_last();
    lemma_file_records_len(s, dname, fs, off);
    lemma_file_records_len(s, dname, p, off);
    if j == fs.len() - 1 {
        assert(fs.take(j) =~= p);
        let x = file_records_img(s, dname, fs, off);
        assert(x.subrange(16 * j, 16 * j + 16) =~= le_bytes64(hash_u64(fs[j].hash) as u64)
            + le_bytes32(t32(block_spec(s.version, s.compressed, embeds(s), dname, fs[j]).len() as int))
            + le_bytes32(t32(off + file_blocks_img(s, dname, fs.take(j)).len())));
    } else {
        lemma_file_record_bytes(s, dname, p, off, j);
        assert(p.take(j) =~= fs.take(j));
        assert(file_records_img(s, dname, fs, off).subrange(16 * j, 16 * j + 16)
            =~= file_records_img(s, dname, p, off).subrange(16 * j, 16 * j + 16));
    }
}

proof fn lemma_t32_small(x: int)
    requires
        0 <= x <= u32::MAX,
    ensures
        t32(x) == x,
{
}

proof fn lemma_flags_include_dirnames(s: Settings)
    ensures
        archive_flags_spec(s.compressed, embeds(s)) & INCLUDE_DIRNAMES != 0,
{
    let f = archive_flags_spec(s.compressed, embeds(s));
    let c: u32 = if s.compressed { 4 } else { 0 };
    let e: u32 = if embeds(s) { 0x100 } else { 0 };
    assert(f == 3 + c + e);
    assert(f == 3 || f == 7 || f == 0x103 || f == 0x107);
    assert(f == 3 || f == 7 || f == 0x103 || f == 0x107 ==> f & 1u32 != 0) by (bit_vector);
}

/// The header that an archive of `ds` reads back with.
pub open spec fn written_header(s: Settings, ds: Seq<WriteDir>) -> Header {
    header_spec(tes4_image(s, ds))->Ok_0
}

#[verifier::rlimit(60)]
proof fn lemma_block_pos(s: Settings, ds: Seq<WriteDir>, i: int)
    requires
        dirs_wf(ds),
        fits(s, ds),
        0 <= i <= ds.len(),
    ensures
        block_pos(tes4_image(s, ds), written_header(s, ds), i as nat)
            == 36 + folder_record_size_spec(s.version) * ds.len() + record_blocks_len(ds.take(i)),
    decreases i,
{
    let b = tes4_image(s, ds);
    let hdr = written_header(s, ds);
    let frs = folder_record_size_spec(s.version);
    lemma_header_round_trip(s, ds);
    lemma_image_len(s, ds);
    lemma_t32_small(ds.len() as int);
    if i == 0 {
        assert(ds.take(0) =~= Seq::<WriteDir>::empty());
    } else {
        let k = i - 1;
        lemma_block_pos(s, ds, k);
        let at = 36 + frs * ds.len();
        let pk = block_pos(b, hdr, k as nat);
        lemma_folder_record_round_trip(s, ds, k);
        lemma_t32_small(ds[k].files@.len() as int);
        lemma_flags_include_dirnames(s);
        lemma_image_record_region(s, ds);
        let base = at + record_blocks_len(ds) + names_img(ds).len();
        lemma_dir_block_bytes(s, ds, base, k);
        let q = record_blocks_len(ds.take(k));
        assert(b[pk] == b.subrange(at, at + record_blocks_len(ds))[q]);
        assert(record_blocks_img(s, ds, base)[q] == record_blocks_img(s, ds, base).subrange(q, q + record_block_len(ds[k]))[0]);
        assert(ds[k].name@.len() < 255);
        assert(b[pk] == ds[k].name@.len() + 1);
        assert(ds.take(i).drop_last() =~= ds.take(k));
        assert(ds.take(i).last() == ds[k]);
    }
}

/// Each file record that the writer emits reads back as the file's hash, the
/// length of its block and the block's offset (both to 32 bits), at the place
/// where the parser looks for it.
#[verifier::rlimit(60)]
pub proof fn lemma_file_record_round_trip(s: Settings, ds: Seq<WriteDir>, i: int, j: int)
    requires
        dirs_wf(ds),
        fits(s, ds),
        0 <= i < ds.len(),
        0 <= j < ds[i].files@.len(),
    ensures
        ({
            let b = tes4_image(s, ds);
            let hdr = written_header(s, ds);
            let p = block_pos(b, hdr, i as nat);
            let frs = folder_record_size_spec(s.version);
            let base = 36 + frs * ds.len() + record_blocks_len(ds) + names_img(ds).len();
            let f = ds[i].files@[j];
            &&& header_spec(b) is Ok
            &&& file_record_spec(b.skip(p + name_field_len(b, hdr, p) + 16 * j)) == (FileRecord {
                hash: f.hash,
                size_word: t32(block_spec(s.version, s.compressed, embeds(s), ds[i].name@, f).len() as int),
                offset: t32(base + payloads_img(s, ds.take(i)).len()
                    + file_blocks_img(s, ds[i].name@, ds[i].files@.take(j)).len()),
            })
        }),
{
    let b = tes4_image(s, ds);
    let hdr = written_header(s, ds);
    let frs = folder_record_size_spec(s.version);
    let at = 36 + frs * ds.len();
    let base = at + record_blocks_len(ds) + names_img(ds).len();
    lemma_header_round_trip(s, ds);
    let p = block_pos(b, hdr, i as nat);
    let d = ds[i];
    let off = base + payloads_img(s, ds.take(i)).len();
    lemma_file_record_bytes(s, d.name@, d.files@, off, j);
    lemma_file_record_place(s, ds, i, j);
    let h = d.files@[j].hash;
    let sz = t32(block_spec(s.version, s.compressed, embeds(s), d.name@, d.files@[j]).len() as int);
    let o = t32(off + file_blocks_img(s, d.name@, d.files@.take(j)).len());
    lemma_file_record_read(b.skip(p + name_field_len(b, hdr, p) + 16 * j), h, sz, o);
}

proof fn lemma_file_record_read(t: Seq<u8>, h: crate::tes4_hash::Hash, sz: u32, o: u32)
    requires
        t.len() >= 16,
        t.take(16) == le_bytes64(hash_u64(h) as u64) + le_bytes32(sz) + le_bytes32(o),
    ensures
        file_record_spec(t) == (FileRecord { hash: h, size_word: sz, offset: o }),
{
    assert(t =~= t.take(16) + t.skip(16));
    lemma_hash_read_back(h, t.skip(8));
    assert(t =~= le_bytes64(hash_u64(h) as u64) + t.skip(8));
    assert(t.skip(8) =~= le_bytes32(sz) + t.skip(12));
    lemma_le32_round_trip(sz, t.skip(12));
    assert(t.skip(12) =~= le_bytes32(o) + t.skip(16));
    lemma_le32_round_trip(o, t.skip(16));
}

#[verifier::rlimit(80)]
proof fn lemma_file_record_place(s: Settings, ds: Seq<WriteDir>, i: int, j: int)
    requires
        dirs_wf(ds),
        fits(s, ds),
        0 <= i < ds.len(),
        0 <= j < ds[i].files@.len(),
    ensures
        ({
            let b = tes4_image(s, ds);
            let hdr = written_header(s, ds);
            let p = block_pos(b, hdr, i as nat);
            let frs = folder_record_size_spec(s.version);
            let base = 36 + frs * ds.len() + record_blocks_len(ds) + names_img(ds).len();
            let off = base + payloads_img(s, ds.take(i)).len();
            let d = ds[i];
            let t = b.skip(p + name_field_len(b, hdr, p) + 16 * j);
            &&& t.len() >= 16
            &&& t.take(16) == file_records_img(s, d.name@, d.files@, off).subrange(16 * j, 16 * j + 16)
        }),
{
    let b = tes4_image(s, ds);
    let hdr = written_header(s, ds);
    let frs = folder_record_size_spec(s.version);
    let at = 36 + frs * ds.len();
    let base = at + record_blocks_len(ds) + names_img(ds).len();
    lemma_header_round_trip(s, ds);
    lemma_block_pos(s, ds, i);
    lemma_flags_include_dirnames(s);
    lemma_image_record_region(s, ds);
    lemma_dir_block_bytes(s, ds, base, i);
    let q = record_blocks_len(ds.take(i));
    let p = block_pos(b, hdr, i as nat);
    let d = ds[i];
    let off = base + payloads_img(s, ds.take(i)).len();
    lemma_file_record_bytes(s, d.name@, d.files@, off, j);
    let rb = record_blocks_img(s, ds, base);
    let region = b.subrange(at, at + record_blocks_len(ds));
    let blk = rb.subrange(q, q + record_block_len(d));
    assert(b[p] == region[q]);
    assert(blk[0] == rb[q]);
    assert(d.name@.len() < 255);
    assert(name_field_len(b, hdr, p) == d.name@.len() + 2);
    let r0 = d.name@.len() + 2 + 16 * j;
    let fr = file_records_img(s, d.name@, d.files@, off);
    let t = b.skip(p + name_field_len(b, hdr, p) + 16 * j);
    assert forall|k: int| 0 <= k < 16 implies #[trigger] t[k] == fr.subrange(16 * j, 16 * j + 16)[k] by {
        assert(t[k] == b[p + r0 + k]);
        assert(b[p + r0 + k] == region[q + r0 + k]);
        assert(rb[q + r0 + k] == blk[r0 + k]);
    }
    assert(t.take(16) =~= fr.subrange(16 * j, 16 * j + 16));
}

#[verifier::rlimit(60)]
proof fn lemma_image_payload_region(s: Settings, ds: Seq<WriteDir>)
    ensures
        ({
            let frs = folder_record_size_spec(s.version);
            let base = 36 + frs * ds.len() + record_blocks_len(ds) + names_img(ds).len();
            let b = tes4_image(s, ds);
            &&& record_blocks_len(ds) >= 0
            &&& b.len() == base + payloads_img(s, ds).len()
            &&& b.subrange(base, b.len() as int) == payloads_img(s, ds)
        }),
{
    reveal(tes4_image);
    let frs = folder_record_size_spec(s.version);
    let n = names_img(ds).len();
    let at = 36 + frs * ds.len();
    let base = at + record_blocks_len(ds) + n;
    let h = header_img(s, ds);
    let fr = folder_records_img(s, ds, at + n);
    let rb = record_blocks_img(s, ds, base);
    lemma_folder_records_len(s, ds, at + n);
    lemma_record_blocks_len(s, ds, base);
    assert(h.len() == 36);
    let head = h + fr + rb + names_img(ds);
    assert(tes4_image(s, ds) =~= head + payloads_img(s, ds));
    assert((head + payloads_img(s, ds)).subrange(base, base + payloads_img(s, ds).len()) =~= payloads_img(s, ds));
}

proof fn lemma_payload_dir(s: Settings, ds: Seq<WriteDir>, i: int)
    requires
        0 <= i < ds.len(),
    ensures
        ({
            let o = payloads_img(s, ds.take(i)).len() as int;
            let x = file_blocks_img(s, ds[i].name@, ds[i].files@);
            &&& o + x.len() as int <= payloads_img(s, ds).len()
            &&& payloads_img(s, ds).subrange(o, o + x.len() as int) == x
        }),
    decreases ds.len(),
{
    let p = ds.drop_last();
    if i == ds.len() - 1 {
        assert(ds.take(i) =~= p);
        let x = file_blocks_img(s, ds[i].name@, ds[i].files@);
        assert(payloads_img(s, ds).subrange(payloads_img(s, p).len() as int, (payloads_img(s, p).len() + x.len()) as int) =~= x);
    } else {
        lemma_payload_dir(s, p, i);
        assert(p.take(i) =~= ds.take(i));
        let o = payloads_img(s, ds.take(i)).len() as int;
        let x = file_blocks_img(s, ds[i].name@, ds[i].files@);
        assert(payloads_img(s, ds).subrange(o, o + x.len() as int) =~= payloads_img(s, p).subrange(o, o + x.len() as int));
    }
}

proof fn lemma_payload_file(s: Settings, dname: Seq<u8>, fs: Seq<WriteFile>, j: int)
    requires
        0 <= j < fs.len(),
    ensures
        ({
            let o = file_blocks_img(s, dname, fs.take(j)).len() as int;
            let x = block_spec(s.version, s.compressed, embeds(s), dname, fs[j]);
            &&& o + x.len() as int <= file_blocks_img(s, dname, fs).len()
            &&& file_blocks_img(s, dname, fs).subrange(o, o + x.len() as int) == x
        }),
    decreases fs.len(),
{
    let p = fs.drop_last();
    if j == fs.len() - 1 {
        assert(fs.take(j) =~= p);
        let x = block_spec(s.version, s.compressed, embeds(s), dname, fs[j]);
        assert(file_blocks_img(s, dname, fs).subrange(file_blocks_img(s, dname, p).len() as int,
            (file_blocks_img(s, dname, p).len() + x.len()) as int) =~= x);
    } else {
        lemma_payload_file(s, dname, p, j);
        assert(p.take(j) =~= fs.take(j));
        let o = file_blocks_img(s, dname, fs.take(j)).len() as int;
        let x = block_spec(s.version, s.compressed, embeds(s), dname, fs[j]);
        assert(file_blocks_img(s, dname, fs).subrange(o, o + x.len() as int)
            =~= file_blocks_img(s, dname, p).subrange(o, o + x.len() as int));
    }
}

/// Whether no folder or file name holds a NUL.
pub open spec fn names_clean(ds: Seq<WriteDir>) -> bool {
    &&& forall|i: int, k: int| 0 <= i < ds.len() && 0 <= k < ds[i].name@.len() ==> (#[trigger] ds[i].name@[k]) != 0
    &&& forall|i: int, j: int, k: int| 0 <= i < ds.len() && 0 <= j < ds[i].files@.len() && 0 <= k < ds[i].files@[j].name@.len()
        ==> (#[trigger] ds[i].files@[j].name@[k]) != 0
}

#[verifier::rlimit(60)]
proof fn lemma_block_contents(s: Settings, dname: Seq<u8>, f: WriteFile)
    requires
        embedded_name_fits(s, dname, f),
        block_fits(s, dname, f),
        codec_restores(s, f),
        forall|k: int| 0 <= k < dname.len() ==> dname[k] != 0,
        forall|k: int| 0 <= k < f.name@.len() ==> f.name@[k] != 0,
    ensures
        crate::tes4::block_contents_spec(block_spec(s.version, s.compressed, embeds(s), dname, f), embeds(s),
            s.compressed, codec_of(s.version)) == Some(f.data@),
{
    reveal(block_spec);
    let data = block_spec(s.version, s.compressed, embeds(s), dname, f);
    let body = if s.compressed {
        le_bytes32(t32(f.data@.len() as int)) + encoded(codec_of(s.version), f.data@)
    } else {
        f.data@
    };
    if embeds(s) {
        let nm = dname + seq![0x5Cu8] + f.name@;
        let len = dname.len() + 1 + f.name@.len();
        assert(data =~= seq![len as u8] + nm + body);
        assert(data[0] == len);
        assert(crate::bytes::bstring_body(data) =~= nm);
        assert forall|k: int| 0 <= k < nm.len() implies nm[k] != 0 by {
            if k < dname.len() {
                assert(nm[k] == dname[k]);
            } else if k > dname.len() {
                assert(nm[k] == f.name@[k - dname.len() - 1]);
            }
        }
        assert(data.skip(1 + data[0]) =~= body);
    } else {
        assert(data =~= body);
    }
    if s.compressed {
        assert(t32(f.data@.len() as int) == f.data@.len());
        lemma_le32_round_trip(t32(f.data@.len() as int), encoded(codec_of(s.version), f.data@));
        assert(body.skip(4) =~= encoded(codec_of(s.version), f.data@));
    }
}

proof fn lemma_small_size_word(w: u32)
    requires
        w < 0x4000_0000,
    ensures
        size_of_word(w) == w,
        !negates(w),
{
    assert(w / 0x4000_0000 == 0);
}

proof fn lemma_flag_bits(s: Settings)
    ensures
        (archive_flags_spec(s.compressed, embeds(s)) & COMPRESSED != 0) == s.compressed,
        (archive_flags_spec(s.compressed, embeds(s)) & EMBED_FILENAMES != 0) == embeds(s),
{
    let f = archive_flags_spec(s.compressed, embeds(s));
    assert(f == 3 || f == 7 || f == 0x103 || f == 0x107);
    assert(f == 3 ==> f & 4 == 0 && f & 0x100 == 0) by (bit_vector);
    assert(f == 7 ==> f & 4 != 0 && f & 0x100 == 0) by (bit_vector);
    assert(f == 0x103 ==> f & 4 == 0 && f & 0x100 != 0) by (bit_vector);
    assert(f == 0x107 ==> f & 4 != 0 && f & 0x100 != 0) by (bit_vector);
}

#[verifier::rlimit(60)]
proof fn lemma_block_place(s: Settings, ds: Seq<WriteDir>, i: int, j: int)
    requires
        0 <= i < ds.len(),
        0 <= j < ds[i].files@.len(),
    ensures
        ({
            let frs = folder_record_size_spec(s.version);
            let base = 36 + frs * ds.len() + record_blocks_len(ds) + names_img(ds).len();
            let off = base + payloads_img(s, ds.take(i)).len() + file_blocks_img(s, ds[i].name@, ds[i].files@.take(j)).len();
            let x = block_spec(s.version, s.compressed, embeds(s), ds[i].name@, ds[i].files@[j]);
            let b = tes4_image(s, ds);
            &&& off + x.len() <= b.len()
            &&& b.subrange(off, off + x.len()) == x
        }),
{
    let frs = folder_record_size_spec(s.version);
    let base = 36 + frs * ds.len() + record_blocks_len(ds) + names_img(ds).len();
    let b = tes4_image(s, ds);
    lemma_image_payload_region(s, ds);
    lemma_payload_dir(s, ds, i);
    lemma_payload_file(s, ds[i].name@, ds[i].files@, j);
    let pi = payloads_img(s, ds.take(i)).len() as int;
    let fj = file_blocks_img(s, ds[i].name@, ds[i].files@.take(j)).len() as int;
    let x = block_spec(s.version, s.compressed, embeds(s), ds[i].name@, ds[i].files@[j]);
    let pl = payloads_img(s, ds);
    let fb = file_blocks_img(s, ds[i].name@, ds[i].files@);
    assert forall|k: int| 0 <= k < x.len() implies #[trigger] b[base + pi + fj + k] == x[k] by {
        assert(b[base + pi + fj + k] == b.subrange(base, b.len() as int)[pi + fj + k]);
        assert(pl[pi + fj + k] == pl.subrange(pi, pi + fb.len())[fj + k]);
        assert(fb[fj + k] == fb.subrange(fj, fj + x.len())[k]);
    }
    assert(b.subrange(base + pi + fj, base + pi + fj + x.len()) =~= x);
}

/// Reading back a file of what the writer emits gives its contents: where the
/// writer's checks passed (offsets and sizes fit, compressed payloads decode back,
/// embedded paths fit) and names hold no NUL, a file that the parser reads from
/// the record at its place has, as contents, the bytes that were added.
#[verifier::rlimit(60)]
pub proof fn lemma_contents_round_trip(s: Settings, ds: Seq<WriteDir>, i: int, j: int, f: Tes4File)
    requires
        dirs_wf(ds),
        fits(s, ds),
        blocks_ok(s, ds),
        embedded_names_fit(s, ds),
        names_clean(ds),
        0 <= i < ds.len(),
        0 <= j < ds[i].files@.len(),
        ({
            let b = tes4_image(s, ds);
            let hdr = written_header(s, ds);
            let p = block_pos(b, hdr, i as nat);
            &&& f.record == file_record_spec(b.skip(p + name_field_len(b, hdr, p) + 16 * j))
            &&& f.compressed == ((hdr.archive_flags & COMPRESSED != 0) != negates(f.record.size_word))
        }),
    ensures
        ({
            let hdr = written_header(s, ds);
            file_contents_spec(tes4_image(s, ds), f,
                hdr.version != Version::V103 && hdr.archive_flags & EMBED_FILENAMES != 0,
                codec_of(hdr.version)) == Some(ds[i].files@[j].data@)
        }),
{
    let b = tes4_image(s, ds);
    let hdr = written_header(s, ds);
    let frs = folder_record_size_spec(s.version);
    let base = 36 + frs * ds.len() + record_blocks_len(ds) + names_img(ds).len();
    let wf = ds[i].files@[j];
    let x = block_spec(s.version, s.compressed, embeds(s), ds[i].name@, wf);
    let off = base + payloads_img(s, ds.take(i)).len() + file_blocks_img(s, ds[i].name@, ds[i].files@.take(j)).len();
    lemma_header_round_trip(s, ds);
    lemma_file_record_round_trip(s, ds, i, j);
    lemma_block_place(s, ds, i, j);
    assert(block_fits(s, ds[i].name@, wf) && codec_restores(s, wf));
    assert(embedded_name_fits(s, ds[i].name@, wf));
    lemma_image_payload_region(s, ds);
    assert(off >= 0);
    lemma_t32_small(x.len() as int);
    lemma_t32_small(off);
    lemma_small_size_word(x.len() as u32);
    lemma_flag_bits(s);
    assert(forall|k: int| 0 <= k < ds[i].name@.len() ==> ds[i].name@[k] != 0);
    assert(forall|k: int| 0 <= k < wf.name@.len() ==> #[trigger] wf.name@[k] != 0);
    lemma_block_contents(s, ds[i].name@, wf);
}

/// The folder name that the parser reads at the start of each file-record block
/// is the folder's name.
pub proof fn lemma_dir_name_round_trip(s: Settings, ds: Seq<WriteDir>, i: int)
    requires
        dirs_wf(ds),
        fits(s, ds),
        names_clean(ds),
        0 <= i < ds.len(),
    ensures
        crate::bytes::bzstring_result(tes4_image(s, ds).skip(block_pos(tes4_image(s, ds), written_header(s, ds), i as nat)))
            == Ok::<Seq<u8>, ArchiveReadError>(ds[i].name@),
{
    let b = tes4_image(s, ds);
    let hdr = written_header(s, ds);
    let frs = folder_record_size_spec(s.version);
    let at = 36 + frs * ds.len();
    let base = at + record_blocks_len(ds) + names_img(ds).len();
    lemma_block_pos(s, ds, i);
    lemma_image_record_region(s, ds);
    lemma_dir_block_bytes(s, ds, base, i);
    let q = record_blocks_len(ds.take(i));
    let p = block_pos(b, hdr, i as nat);
    let d = ds[i];
    lemma_dir_name_place(s, ds, i);
    lemma_bzstring_read(b.skip(p), d.name@);
}

proof fn lemma_bzstring_read(t: Seq<u8>, name: Seq<u8>)
    requires
        name.len() < 255,
        t.len() >= name.len() + 2,
        t.take(name.len() + 2 as int) == seq![(name.len() + 1) as u8] + name.push(0u8),
        forall|k: int| 0 <= k < name.len() ==> name[k] != 0,
    ensures
        crate::bytes::bzstring_result(t) == Ok::<Seq<u8>, ArchiveReadError>(name),
{
    let ln = name.len() as int;
    assert(t[0] == t.take(ln + 2)[0]);
    let body = crate::bytes::bstring_body(t);
    assert(body =~= t.take(ln + 2).subrange(1, ln + 2));
    assert(body =~= name.push(0u8));
    assert(body.drop_last() =~= name);
    assert(body[ln] == 0);
    assert(crate::bytes::has_nul(body));
    assert(!crate::bytes::has_nul(name));
    assert(t.len() >= 1 + t[0]);
}

#[verifier::rlimit(60)]
proof fn lemma_dir_name_place(s: Settings, ds: Seq<WriteDir>, i: int)
    requires
        dirs_wf(ds),
        fits(s, ds),
        names_clean(ds),
        0 <= i < ds.len(),
    ensures
        ({
            let b = tes4_image(s, ds);
            let t = b.skip(block_pos(b, written_header(s, ds), i as nat));
            &&& ds[i].name@.len() < 255
            &&& forall|k: int| 0 <= k < ds[i].name@.len() ==> ds[i].name@[k] != 0
            &&& t.len() >= ds[i].name@.len() + 2
            &&& t.take(ds[i].name@.len() + 2 as int) == seq![(ds[i].name@.len() + 1) as u8] + ds[i].name@.push(0u8)
        }),
{
    let b = tes4_image(s, ds);
    let hdr = written_header(s, ds);
    let frs = folder_record_size_spec(s.version);
    let at = 36 + frs * ds.len();
    let base = at + record_blocks_len(ds) + names_img(ds).len();
    lemma_block_pos(s, ds, i);
    lemma_image_record_region(s, ds);
    lemma_dir_block_bytes(s, ds, base, i);
    let q = record_blocks_len(ds.take(i));
    let p = block_pos(b, hdr, i as nat);
    let d = ds[i];
    let rb = record_blocks_img(s, ds, base);
    let region = b.subrange(at, at + record_blocks_len(ds));
    let blk = rb.subrange(q, q + record_block_len(d));
    let t = b.skip(p);
    let ln = d.name@.len() as int;
    let want = seq![(ln + 1) as u8] + d.name@.push(0u8);
    assert forall|k: int| 0 <= k < ln + 2 implies #[trigger] t[k] == want[k] by {
        assert(t[k] == b[p + k]);
        assert(b[p + k] == region[q + k]);
        assert(rb[q + k] == blk[k]);
    }
    assert(t.take(ln + 2) =~= want);
}

/// Builds an archive of the TES4 family. Folders and files are kept sorted by
/// hash; a file added under the path of an earlier one replaces it.
pub struct Tes4Writer {
    settings: Settings,
    dirs: Vec<WriteDir>,
}

impl View for Tes4Writer {
    type V = (Settings, Seq<WriteDir>);

    closed spec fn view(&self) -> (Settings, Seq<WriteDir>) {
        (self.settings, self.dirs@)
    }
}

/// Whether `path` can be added: it normalizes, has a parent shorter than 255
/// bytes, and a file name that hashes.
pub open spec fn addable(path: Seq<char>) -> bool {
    match normalize_spec(path) {
        Some(n) => parent_of(n).len() > 0 && parent_of(n).len() < 255
            && file_name_hash_spec(file_name_of(n)) is Some,
        None => false,
    }
}

fn find_dir(ds: &Vec<WriteDir>, key: u64) -> (r: usize)
    requires
        dirs_wf(ds@),
    ensures
        r <= ds@.len(),
        forall|k: int| 0 <= k < r ==> hash_u64(#[trigger] ds@[k].hash) < key,
        r < ds@.len() ==> hash_u64(ds@[r as int].hash) >= key,
{
    let mut i: usize = 0;
    while i < ds.len() && ds[i].hash.to_u64() < key
        invariant
            i <= ds@.len(),
            forall|k: int| 0 <= k < i ==> hash_u64(#[trigger] ds@[k].hash) < key,
        decreases ds@.len() - i,
    {
        i = i + 1;
    }
    i
}

fn find_file(fs: &Vec<WriteFile>, key: u64) -> (r: usize)
    ensures
        r <= fs@.len(),
        forall|k: int| 0 <= k < r ==> hash_u64(#[trigger] fs@[k].hash) < key,
        r < fs@.len() ==> hash_u64(fs@[r as int].hash) >= key,
{
    let mut i: usize = 0;
    while i < fs.len() && fs[i].hash.to_u64() < key
        invariant
            i <= fs@.len(),
            forall|k: int| 0 <= k < i ==> hash_u64(#[trigger] fs@[k].hash) < key,
        decreases fs@.len() - i,
    {
        i = i + 1;
    }
    i
}

/// Puts `f` among the sorted files `fs`, replacing a file with the same hash.
fn put_file(fs: &mut Vec<WriteFile>, f: WriteFile)
    requires
        files_sorted(old(fs)@),
    ensures
        files_sorted(final(fs)@),
        final(fs)@.len() > 0,
        in_files(final(fs)@, f),
        forall|g: WriteFile| g.hash != f.hash ==> (#[trigger] in_files(final(fs)@, g) <==> in_files(old(fs)@, g)),
        final(fs)@.len() == old(fs)@.len() + (if has_hash(old(fs)@, f.hash) { 0int } else { 1int }),
{
    let key = f.hash.to_u64();
    let i = find_file(fs, key);
    let ghost old_fs = fs@;
    if i < fs.len() && fs[i].hash.to_u64() == key {
        fs.remove(i);
        fs.insert(i, f);
        assert(fs@ =~= old_fs.update(i as int, f));
        proof {
            lemma_hash_u64_injective(old_fs[i as int].hash, f.hash);
            assert(has_hash(old_fs, f.hash));
            assert forall|g: WriteFile| g.hash != f.hash implies (#[trigger] in_files(fs@, g) <==> in_files(old_fs, g)) by {
                if in_files(fs@, g) {
                    let p = choose|p: int| 0 <= p < fs@.len() && fs@[p] == g;
                    assert(old_fs[p] == g);
                }
                if in_files(old_fs, g) {
                    let q = choose|q: int| 0 <= q < old_fs.len() && old_fs[q] == g;
                    assert(fs@[q] == g);
                }
            }
        }
    } else {
        fs.insert(i, f);
        proof {
            assert forall|q: int| 0 <= q < old_fs.len() implies old_fs[q].hash != f.hash by {
                if q >= i {
                    if q > i {
                        assert(hash_u64(old_fs[i as int].hash) < hash_u64(old_fs[q].hash));
                    }
                    assert(hash_u64(old_fs[q].hash) != key);
                } else {
                    assert(hash_u64(old_fs[q].hash) < key);
                }
            }
            assert(!has_hash(old_fs, f.hash));
            assert forall|g: WriteFile| g.hash != f.hash implies (#[trigger] in_files(fs@, g) <==> in_files(old_fs, g)) by {
                if in_files(fs@, g) {
                    let p = choose|p: int| 0 <= p < fs@.len() && fs@[p] == g;
                    if p < i { assert(old_fs[p] == g); } else { assert(old_fs[p - 1] == g); }
                }
                if in_files(old_fs, g) {
                    let q = choose|q: int| 0 <= q < old_fs.len() && old_fs[q] == g;
                    if q < i { assert(fs@[q] == g); } else { assert(fs@[q + 1] == g); }
                }
            }
        }
    }
    assert(fs@[i as int] == f);
}

/// Whether `g` is among the files `fs`.
pub open spec fn in_files(fs: Seq<WriteFile>, g: WriteFile) -> bool {
    exists|p: int| 0 <= p < fs.len() && fs[p] == g
}

/// Whether some file of `fs` has hash `h`.
pub open spec fn has_hash(fs: Seq<WriteFile>, h: crate::tes4_hash::Hash) -> bool {
    exists|p: int| 0 <= p < fs.len() && fs[p].hash == h
}

/// Whether the folder with hash `dh` holds the file `g`.
pub open spec fn held_file(ds: Seq<WriteDir>, dh: crate::tes4_hash::Hash, g: WriteFile) -> bool {
    exists|i: int| 0 <= i < ds.len() && ds[i].hash == dh && #[trigger] in_files(ds[i].files@, g)
}

/// Whether the folder with hash `dh` holds a file with hash `fh`.
pub open spec fn held_pair(ds: Seq<WriteDir>, dh: crate::tes4_hash::Hash, fh: crate::tes4_hash::Hash) -> bool {
    exists|i: int| 0 <= i < ds.len() && ds[i].hash == dh && #[trigger] has_hash(ds[i].files@, fh)
}

proof fn lemma_file_total_update(ds: Seq<WriteDir>, i: int, d: WriteDir)
    requires
        0 <= i < ds.len(),
    ensures
        file_total(ds.update(i, d)) == file_total(ds) - ds[i].files@.len() + d.files@.len(),
    decreases ds.len(),
{
    if i < ds.len() - 1 {
        assert(ds.update(i, d).drop_last() =~= ds.drop_last().update(i, d));
        lemma_file_total_update(ds.drop_last(), i, d);
    } else {
        assert(ds.update(i, d).drop_last() =~= ds.drop_last());
    }
}

proof fn lemma_file_total_insert(ds: Seq<WriteDir>, i: int, d: WriteDir)
    requires
        0 <= i <= ds.len(),
    ensures
        file_total(ds.insert(i, d)) == file_total(ds) + d.files@.len(),
    decreases ds.len(),
{
    if i < ds.len() {
        assert(ds.insert(i, d).drop_last() =~= ds.drop_last().insert(i, d));
        lemma_file_total_insert(ds.drop_last(), i, d);
    } else {
        assert(ds.insert(i, d).drop_last() =~= ds);
    }
}

/// Whether the folder with hash `dh` holds a file with the hash, name and
/// contents given.
pub open spec fn holds(ds: Seq<WriteDir>, dh: crate::tes4_hash::Hash, fh: crate::tes4_hash::Hash, name: Seq<u8>, data: Seq<u8>) -> bool {
    exists|i: int, j: int| 0 <= i < ds.len() && 0 <= j < ds[i].files@.len()
        && ds[i].hash == dh && #[trigger] ds[i].files@[j].hash == fh
        && ds[i].files@[j].name@ == name && ds[i].files@[j].data@ == data
}

/// Puts `f` into the folder with hash `dh`, making that folder where it is missing.
#[verifier::rlimit(100)]
fn place(ds: &mut Vec<WriteDir>, dh: crate::tes4_hash::Hash, dname: &[u8], f: WriteFile)
    requires
        dirs_wf(old(ds)@),
        0 < dname@.len() < 255,
    ensures
        dirs_wf(final(ds)@),
        holds(final(ds)@, dh, f.hash, f.name@, f.data@),
        held_file(final(ds)@, dh, f),
        forall|dh2: crate::tes4_hash::Hash, g: WriteFile| dh2 != dh || g.hash != f.hash
            ==> (#[trigger] held_file(final(ds)@, dh2, g) <==> held_file(old(ds)@, dh2, g)),
        file_total(final(ds)@) == file_total(old(ds)@) + (if held_pair(old(ds)@, dh, f.hash) { 0int } else { 1int }),
{
    let key = dh.to_u64();
    let i = find_dir(ds, key);
    let ghost old_dirs = ds@;
    if i < ds.len() && ds[i].hash.to_u64() == key {
        let mut d = ds.remove(i);
        proof {
            assert(d == old_dirs[i as int]);
            lemma_hash_u64_injective(d.hash, dh);
        }
        put_file(&mut d.files, f);
        let ghost fs = d.files@;
        ds.insert(i, d);
        proof {
            let d0 = old_dirs[i as int];
            assert(ds@ =~= old_dirs.update(i as int, d));
            let p = choose|p: int| 0 <= p < fs.len() && fs[p] == f;
            assert(ds@[i as int].files@[p] == f);
            assert(in_files(ds@[i as int].files@, f));
            lemma_file_total_update(old_dirs, i as int, d);
            assert forall|k: int| 0 <= k < old_dirs.len() && k != i implies old_dirs[k].hash != dh by {
                if k < i {
                    assert(hash_u64(old_dirs[k].hash) < hash_u64(old_dirs[i as int].hash));
                } else {
                    assert(hash_u64(old_dirs[i as int].hash) < hash_u64(old_dirs[k].hash));
                }
            }
            if held_pair(old_dirs, dh, f.hash) {
                let k = choose|k: int| 0 <= k < old_dirs.len() && old_dirs[k].hash == dh && #[trigger] has_hash(old_dirs[k].files@, f.hash);
                assert(k == i);
            } else {
                assert(!has_hash(d0.files@, f.hash));
            }
            assert forall|dh2: crate::tes4_hash::Hash, g: WriteFile| dh2 != dh || g.hash != f.hash
                implies (#[trigger] held_file(ds@, dh2, g) <==> held_file(old_dirs, dh2, g)) by {
                if held_file(ds@, dh2, g) {
                    let k = choose|k: int| 0 <= k < ds@.len() && ds@[k].hash == dh2 && #[trigger] in_files(ds@[k].files@, g);
                    if k == i {
                        assert(in_files(d0.files@, g));
                        assert(in_files(old_dirs[k].files@, g));
                    } else {
                        assert(in_files(old_dirs[k].files@, g));
                    }
                }
                if held_file(old_dirs, dh2, g) {
                    let k = choose|k: int| 0 <= k < old_dirs.len() && old_dirs[k].hash == dh2 && #[trigger] in_files(old_dirs[k].files@, g);
                    if k == i {
                        assert(in_files(ds@[k].files@, g));
                    } else {
                        assert(in_files(ds@[k].files@, g));
                    }
                }
            }
        }
    } else {
        let mut files: Vec<WriteFile> = Vec::new();
        files.push(f);
        let d = WriteDir { hash: dh, name: crate::bytes::slice_to_vec_bytes(dname), files };
        ds.insert(i, d);
        proof {
            assert(ds@[i as int].files@[0] == f);
            assert(in_files(ds@[i as int].files@, f));
            lemma_file_total_insert(old_dirs, i as int, d);
            assert forall|k: int| 0 <= k < old_dirs.len() implies old_dirs[k].hash != dh by {
                if k >= i {
                    if k > i {
                        assert(hash_u64(old_dirs[i as int].hash) < hash_u64(old_dirs[k].hash));
                    }
                    assert(hash_u64(old_dirs[k].hash) != key);
                } else {
                    assert(hash_u64(old_dirs[k].hash) < key);
                }
            }
            assert(!held_pair(old_dirs, dh, f.hash));
            assert forall|dh2: crate::tes4_hash::Hash, g: WriteFile| dh2 != dh || g.hash != f.hash
                implies (#[trigger] held_file(ds@, dh2, g) <==> held_file(old_dirs, dh2, g)) by {
                if held_file(ds@, dh2, g) {
                    let k = choose|k: int| 0 <= k < ds@.len() && ds@[k].hash == dh2 && #[trigger] in_files(ds@[k].files@, g);
                    if k == i {
                        let p = choose|p: int| 0 <= p < ds@[k].files@.len() && ds@[k].files@[p] == g;
                        assert(p == 0);
                    } else if k < i {
                        assert(ds@[k] == old_dirs[k]);
                    } else {
                        assert(ds@[k] == old_dirs[k - 1]);
                        assert(in_files(old_dirs[k - 1].files@, g));
                    }
                }
                if held_file(old_dirs, dh2, g) {
                    let k = choose|k: int| 0 <= k < old_dirs.len() && old_dirs[k].hash == dh2 && #[trigger] in_files(old_dirs[k].files@, g);
                    if k < i {
                        assert(ds@[k] == old_dirs[k]);
                        assert(in_files(ds@[k].files@, g));
                    } else {
                        assert(ds@[k + 1] == old_dirs[k]);
                        assert(in_files(ds@[k + 1].files@, g));
                    }
                }
            }
            assert forall|a: int, b: int| 0 <= a < b < ds@.len() implies
                hash_u64(#[trigger] ds@[a].hash) < hash_u64(#[trigger] ds@[b].hash) by {
                if a < i && b > i {
                    assert(ds@[b] == old_dirs[b - 1]);
                }
                if a > i {
                    assert(ds@[a] == old_dirs[a - 1]);
                    assert(ds@[b] == old_dirs[b - 1]);
                }
                if a == i && b > i {
                    assert(ds@[b] == old_dirs[b - 1]);
                    if b - 1 > i {
                        assert(hash_u64(old_dirs[i as int].hash) < hash_u64(old_dirs[b - 1].hash));
                    }
                }
            }
        }
    }
}

impl Tes4Writer {
    /// Whether the folders are sorted and well formed.
    pub open spec fn wf(&self) -> bool {
        dirs_wf(self@.1)
    }

    /// An empty writer for `version`, without compression or embedded names.
    pub fn new(version: Version) -> (r: Tes4Writer)
        ensures
            r.wf(),
            r@.0 == (Settings { version, compressed: false, embed: false }),
            r@.1.len() == 0,
    {
        Tes4Writer { settings: Settings { version, compressed: false, embed: false }, dirs: Vec::new() }
    }

    /// Sets whether files are compressed.
    pub fn set_compressed(&mut self, compressed: bool)
        ensures
            final(self)@.0 == (Settings { compressed, ..old(self)@.0 }),
            final(self)@.1 == old(self)@.1,
    {
        self.settings.compressed = compressed;
    }

    /// Sets whether file blocks carry the file's path; versions before 104
    /// ignore it.
    pub fn set_embed_filenames(&mut self, embed: bool)
        ensures
            final(self)@.0 == (Settings { embed, ..old(self)@.0 }),
            final(self)@.1 == old(self)@.1,
    {
        self.settings.embed = embed;
    }

    /// Adds a file under `path`, normalized; `InvalidFileName` where it does not
    /// normalize, has no parent or a parent of 255 bytes or more, or a file name
    /// that does not hash.
    pub fn add(&mut self, path: &str, data: Vec<u8>) -> (r: Result<(), ArchiveWriteError>)
        requires
            old(self).wf(),
        ensures
            final(self).wf(),
            final(self)@.0 == old(self)@.0,
            r is Ok <==> addable(path@),
            r is Err ==> r->Err_0 == ArchiveWriteError::InvalidFileName && final(self)@ == old(self)@,
            r is Ok ==> ({
                let n = normalize_spec(path@)->0;
                let dh = dir_hash_spec(parent_of(n));
                let fh = file_name_hash_spec(file_name_of(n))->0;
                &&& holds(final(self)@.1, dh, fh, file_name_of(n), data@)
                &&& forall|dh2: crate::tes4_hash::Hash, g: WriteFile| dh2 != dh || g.hash != fh
                    ==> (#[trigger] held_file(final(self)@.1, dh2, g) <==> held_file(old(self)@.1, dh2, g))
                &&& file_total(final(self)@.1) == file_total(old(self)@.1)
                    + (if held_pair(old(self)@.1, dh, fh) { 0int } else { 1int })
            }),
    {
        let n = match normalize(path) {
            Some(n) => n,
            None => return Err(ArchiveWriteError::InvalidFileName),
        };
        let (dir, file) = split(n.as_slice());
        if dir.len() == 0 || dir.len() >= 255 {
            return Err(ArchiveWriteError::InvalidFileName);
        }
        let fh = match crate::tes4_hash::Hash::from_filename(file) {
            Some(h) => h,
            None => return Err(ArchiveWriteError::InvalidFileName),
        };
        let dh = hash_directory_name_unchecked(dir);
        let fname = crate::bytes::slice_to_vec_bytes(file);
        let ghost fname_v = fname@;
        let f = WriteFile { hash: fh, name: fname, data };
        place(&mut self.dirs, dh, dir, f);
        Ok(())
    }

    /// Emits the archive: header, folder records, file-record blocks, file names
    /// and file blocks. `ArchiveTooLarge` where it would not fit 32-bit offsets,
    /// `InvalidFileName` where an embedded path exceeds its length byte,
    /// `Compression` where the codec fails.
    #[verifier::rlimit(60)]
    pub fn write(&self) -> (r: Result<Vec<u8>, Error>)
        requires
            self.wf(),
        ensures
            r is Ok ==> r->Ok_0@ == tes4_image(self@.0, self@.1) && fits(self@.0, self@.1)
                && blocks_ok(self@.0, self@.1) && embedded_names_fit(self@.0, self@.1),
            r is Err ==> (r->Err_0 == Error::Compression && self@.0.compressed)
                || (r->Err_0 == Error::Write(ArchiveWriteError::InvalidFileName) && !embedded_names_fit(self@.0, self@.1))
                || (r->Err_0 == Error::Write(ArchiveWriteError::FileTooLarge) && !sizes_fit(self@.0, self@.1))
                || (r->Err_0 == Error::Write(ArchiveWriteError::ArchiveTooLarge) && !fits(self@.0, self@.1)),
    {
        let s = self.settings;
        let ds = &self.dirs;
        let fc = ds.len();
        proof {
            lemma_image_len(s, ds@);
        }
        if fc as u64 > u32::MAX as u64 {
            return Err(Error::Write(ArchiveWriteError::ArchiveTooLarge));
        }
        let mut i: usize = 0;
        while i < fc
            invariant
                fc == ds@.len(),
                fc <= u32::MAX,
                ds@ == self@.1,
                s == self@.0,
                forall|k: int| 0 <= k < ds@.len() ==> tes4_image(s, ds@).len() >= 16 * (#[trigger] ds@[k]).files@.len(),
                i <= fc,
                forall|k: int| 0 <= k < i ==> (#[trigger] ds@[k]).files@.len() <= u32::MAX,
            decreases fc - i,
        {
            if ds[i].files.len() as u64 > u32::MAX as u64 {
                proof {
                    assert(tes4_image(s, ds@).len() >= 16 * ds@[i as int].files@.len());
                }
                return Err(Error::Write(ArchiveWriteError::ArchiveTooLarge));
            }
            i = i + 1;
        }
        let blocks = make_blocks(s, ds)?;
        let mut names: Vec<u8> = Vec::new();
        emit_names(&mut names, ds);
        if names.len() as u64 > u32::MAX as u64 {
            return Err(Error::Write(ArchiveWriteError::ArchiveTooLarge));
        }
        let (nfiles, dnames, rbl, flags) = totals(ds);
        let frs = s.version.folder_record_size() as u64;
        assert(frs * (fc as u64) <= 24 * 0x1_0000_0000) by (nonlinear_arith)
            requires frs <= 24, fc <= u32::MAX;
        let head_len = 36 + frs * (fc as u64) + names.len() as u64;
        let start = trunc32(head_len);
        proof {
            lemma_totals_nonneg(ds@);
            lemma_t32_add(record_blocks_len(ds@), head_len as int);
        }
        let base = trunc32(rbl as u64 + head_len);
        let mut out: Vec<u8> = Vec::new();
        out.push(0x42);
        out.push(0x53);
        out.push(0x41);
        out.push(0);
        push_u32(&mut out, s.version.number());
        push_u32(&mut out, 36);
        let mut aflags: u32 = INCLUDE_DIRNAMES + INCLUDE_FILENAMES;
        if s.compressed {
            aflags = aflags + COMPRESSED;
        }
        if s.embed && s.version.can_embed_filenames() {
            aflags = aflags + EMBED_FILENAMES;
        }
        push_u32(&mut out, aflags);
        push_trunc(&mut out, fc as u64);
        push_u32(&mut out, nfiles);
        push_u32(&mut out, dnames);
        push_trunc(&mut out, names.len() as u64);
        push_u16(&mut out, flags);
        out.push(0);
        out.push(0);
        proof {
            assert(out@ =~= header_img(s, ds@));
        }
        emit_folder_records(&mut out, s, ds, start, Ghost(head_len as int));
        emit_record_blocks(&mut out, Ghost(s), ds, &blocks, base, Ghost(record_blocks_len(ds@) + head_len));
        push_slice(&mut out, names.as_slice());
        emit_payloads(&mut out, Ghost(s), ds, &blocks);
        proof {
            assert(record_blocks_len(ds@) + head_len == 36 + folder_record_size_spec(s.version) * ds@.len()
                + record_blocks_len(ds@) + names_img(ds@).len());
            reveal(tes4_image);
            assert(out@ =~= tes4_image(s, ds@));
        }
        if out.len() as u64 > u32::MAX as u64 {
            return Err(Error::Write(ArchiveWriteError::ArchiveTooLarge));
        }
        Ok(out)
    }
}

/// Hashes with the same `u64` value are the same hash.
pub proof fn lemma_hash_u64_injective(a: crate::tes4_hash::Hash, b: crate::tes4_hash::Hash)
    requires
        hash_u64(a) == hash_u64(b),
    ensures
        a == b,
{
    lemma_hash_u64_parts(a);
    lemma_hash_u64_parts(b);
}

proof fn lemma_hash_u64_parts(h: crate::tes4_hash::Hash)
    ensures
        h.last == hash_u64(h) % 0x100,
        h.last2 == hash_u64(h) / 0x100 % 0x100,
        h.len == hash_u64(h) / 0x1_0000 % 0x100,
        h.first == hash_u64(h) / 0x100_0000 % 0x100,
        h.crc == hash_u64(h) / 0x1_0000_0000,
{
    let x = hash_u64(h);
    let q1 = h.last2 as int + h.len as int * 0x100 + h.first as int * 0x1_0000 + h.crc as int * 0x100_0000;
    let q2 = h.len as int + h.first as int * 0x100 + h.crc as int * 0x1_0000;
    let q3 = h.first as int + h.crc as int * 0x100;
    assert(x == q1 * 0x100 + h.last);
    lemma_fundamental_div_mod_converse_mod(x, 0x100, q1, h.last as int);
    lemma_fundamental_div_mod_converse_div(x, 0x100, q1, h.last as int);
    assert(q1 == q2 * 0x100 + h.last2);
    lemma_fundamental_div_mod_converse_mod(q1, 0x100, q2, h.last2 as int);
    lemma_fundamental_div_mod_converse_div(q1, 0x100, q2, h.last2 as int);
    assert(q2 == q3 * 0x100 + h.len);
    lemma_fundamental_div_mod_converse_mod(q2, 0x100, q3, h.len as int);
    lemma_fundamental_div_mod_converse_div(q2, 0x100, q3, h.len as int);
    assert(q3 == h.crc as int * 0x100 + h.first);
    lemma_fundamental_div_mod_converse_mod(q3, 0x100, h.crc as int, h.first as int);
    lemma_fundamental_div_mod_converse_div(q3, 0x100, h.crc as int, h.first as int);
    vstd::arithmetic::div_mod::lemma_div_denominator(x, 0x100, 0x100);
    vstd::arithmetic::div_mod::lemma_div_denominator(x / 0x100, 0x100, 0x100);
    vstd::arithmetic::div_mod::lemma_div_denominator(x / 0x1_0000, 0x100, 0x100);
    vstd::arithmetic::div_mod::lemma_div_denominator(x, 0x100, 0x1_0000);
    vstd::arithmetic::div_mod::lemma_div_denominator(x, 0x100, 0x100_0000);
    vstd::arithmetic::div_mod::lemma_div_denominator(x, 0x1_0000, 0x1_0000);
}

} // verus!
