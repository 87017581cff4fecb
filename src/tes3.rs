//! The Morrowind archive: a flat table of records, names and split-XOR-rotate
//! hashes in front of the file data.

use crate::bytes::{le32, le64, le_bytes32, le_bytes64, lemma_le32_round_trip, lemma_le64_round_trip, push_slice, push_u32, push_u64, read_le32, Bytes};
use crate::{ArchiveReadError, ArchiveWriteError};
use vstd::prelude::*;
use vstd::slice::slice_subrange;

verus! {

/// The magic number at the start of the archive.
pub const TES3_MAGIC: u32 = 0x100;

/// A path byte as the hash reads it: `/` becomes `\`, ASCII letters fold to
/// lowercase; `None` for NUL and for bytes outside ASCII.
pub open spec fn norm_byte_spec(b: u8) -> Option<u8> {
    if b == 0x2F {
        Some(0x5Cu8)
    } else if b == 0 || b >= 0x80 {
        None
    } else if 0x41 <= b <= 0x5A {
        Some((b + 0x20) as u8)
    } else {
        Some(b)
    }
}

/// Whether every byte of `s` is one the hash accepts.
pub open spec fn hashable(s: Seq<u8>) -> bool {
    forall|i: int| 0 <= i < s.len() ==> (#[trigger] norm_byte_spec(s[i])) is Some
}

/// The normalized form of a hashable path.
pub open spec fn norm_path(s: Seq<u8>) -> Seq<u8> {
    s.map_values(|b: u8| norm_byte_spec(b)->0)
}

/// The XOR of each byte of `s` shifted into lane `i mod 4` of a `u32`.
pub open spec fn low_spec(s: Seq<u8>) -> u32
    decreases s.len(),
{
    if s.len() == 0 {
        0
    } else {
        low_spec(s.drop_last()) ^ ((s.last() as u32) << (((s.len() - 1) % 4) * 8) as u32)
    }
}

/// `x` rotated right by `r` bits, `r < 32`.
pub open spec fn rotr(x: u32, r: u32) -> u32 {
    if r == 0 {
        x
    } else {
        (x >> r) | (x << (32 - r) as u32)
    }
}

/// The rotating accumulator over the bytes of `s`.
pub open spec fn high_spec(s: Seq<u8>) -> u32
    decreases s.len(),
{
    if s.len() == 0 {
        0
    } else {
        let t = (s.last() as u32) << (((s.len() - 1) % 4) * 8) as u32;
        rotr(high_spec(s.drop_last()) ^ t, t & 0x1F)
    }
}

/// The hash of a normalized path: the low half of the bytes fills the low word,
/// the high half the high word.
pub open spec fn tes3_hash_spec(s: Seq<u8>) -> u64 {
    let mid = s.len() / 2;
    (low_spec(s.take(mid as int)) as int + high_spec(s.skip(mid as int)) as int * 0x1_0000_0000) as u64
}

/// The key that orders hashes: the two words swapped.
pub open spec fn rotate_key(h: u64) -> u64 {
    ((h as int % 0x1_0000_0000) * 0x1_0000_0000 + h as int / 0x1_0000_0000) as u64
}

/// Normalizes one path byte for the hash.
pub fn norm_byte(b: u8) -> (r: Option<u8>)
    ensures
        r == norm_byte_spec(b),
{
    if b == 0x2F {
        Some(0x5C)
    } else if b == 0 || b >= 0x80 {
        None
    } else if 0x41 <= b && b <= 0x5A {
        Some(b + 0x20)
    } else {
        Some(b)
    }
}

/// Normalizes a path for the hash; `None` where a byte is NUL or not ASCII.
pub fn normalize(path: &[u8]) -> (r: Option<Vec<u8>>)
    ensures
        r is Some <==> hashable(path@),
        r is Some ==> r->0@ == norm_path(path@),
{
    let mut out: Vec<u8> = Vec::new();
    let mut i: usize = 0;
    while i < path.len()
        invariant
            i <= path@.len(),
            hashable(path@.take(i as int)),
            out@ == norm_path(path@.take(i as int)),
        decreases path@.len() - i,
    {
        match norm_byte(path[i]) {
            Some(b) => {
                out.push(b);
                proof {
                    assert(path@.take(i + 1) =~= path@.take(i as int).push(path@[i as int]));
                    assert(norm_path(path@.take(i + 1)) =~= norm_path(path@.take(i as int)).push(b));
                }
            },
            None => {
                return None;
            },
        }
        i = i + 1;
    }
    assert(path@.take(i as int) =~= path@);
    Some(out)
}

fn rotate_right(x: u32, r: u32) -> (out: u32)
    requires
        r < 32,
    ensures
        out == rotr(x, r),
{
    if r == 0 {
        x
    } else {
        (x >> r) | (x << (32 - r))
    }
}

/// The hash of a normalized path.
pub fn hash_normalized(s: &[u8]) -> (r: u64)
    ensures
        r == tes3_hash_spec(s@),
{
    let n = s.len();
    let mid = n / 2;
    let mut low: u32 = 0;
    let mut i: usize = 0;
    while i < mid
        invariant
            mid <= s@.len(),
            i <= mid,
            low == low_spec(s@.take(i as int)),
        decreases mid - i,
    {
        proof {
            assert(s@.take(i + 1).drop_last() =~= s@.take(i as int));
        }
        low = low ^ ((s[i] as u32) << (((i % 4) * 8) as u32));
        i = i + 1;
    }
    let ghost hi_part = s@.skip(mid as int);
    let mut high: u32 = 0;
    let mut j: usize = 0;
    let rest = s.len() - mid;
    while j < rest
        invariant
            mid <= s@.len(),
            rest == s@.len() - mid,
            n == s@.len(),
            j <= rest,
            hi_part == s@.skip(mid as int),
            high == high_spec(hi_part.take(j as int)),
        decreases s@.len() - mid - j,
    {
        proof {
            assert(hi_part.take(j + 1).drop_last() =~= hi_part.take(j as int));
        }
        let t = (s[mid + j] as u32) << (((j % 4) * 8) as u32);
        assert(t & 0x1F < 32) by (bit_vector);
        high = rotate_right(high ^ t, t & 0x1F);
        j = j + 1;
    }
    assert(hi_part.take(j as int) =~= hi_part);
    low as u64 + high as u64 * 0x1_0000_0000
}

/// The hash of a path, which is normalized first; `None` where it holds a NUL or
/// a byte outside ASCII.
pub fn compute_hash(name: &[u8]) -> (r: Option<NameHash>)
    ensures
        r is Some <==> hashable(name@),
        r is Some ==> r->0.value == tes3_hash_spec(norm_path(name@)),
{
    match normalize(name) {
        Some(n) => Some(NameHash { value: hash_normalized(n.as_slice()) }),
        None => None,
    }
}

/// A stored name hash.
#[derive(Debug, Clone, Copy, PartialEq, Eq, Structural)]
pub struct NameHash {
    pub value: u64,
}

impl NameHash {
    /// The hash as a `u64`.
    pub fn get(&self) -> (r: u64)
        ensures
            r == self.value,
    {
        self.value
    }

    /// The key that orders hashes: the two words swapped.
    pub fn compare_key(&self) -> (r: u64)
        ensures
            r == rotate_key(self.value),
    {
        let v = self.value;
        (v % 0x1_0000_0000) * 0x1_0000_0000 + v / 0x1_0000_0000
    }
}

/// The size and data offset of a file.
#[derive(Debug, Clone, Copy, PartialEq, Eq, Structural)]
pub struct Record {
    pub size: u32,
    pub offset: u32,
}

impl Record {
    /// A record for `size` bytes at `offset` in the data region.
    pub fn new(size: u32, offset: u32) -> (r: Record)
        ensures
            r.size == size && r.offset == offset,
    {
        Record { size, offset }
    }

    /// The size of the file.
    pub fn size(&self) -> (r: u32)
        ensures
            r == self.size,
    {
        self.size
    }

    /// The offset of the file from the start of the data region.
    pub fn offset(&self) -> (r: u32)
        ensures
            r == self.offset,
    {
        self.offset
    }
}

/// The offset of a file's name in the name block.
#[derive(Debug, Clone, Copy, PartialEq, Eq, Structural)]
pub struct NameOffset {
    pub value: u32,
}

impl NameOffset {
    /// A name offset.
    pub fn new(off: u32) -> (r: NameOffset)
        ensures
            r.value == off,
    {
        NameOffset { value: off }
    }

    /// The offset.
    pub fn get(&self) -> (r: u32)
        ensures
            r == self.value,
    {
        self.value
    }
}

/// The index of a file in a Morrowind archive.
#[derive(Debug, Clone, Copy, PartialEq, Eq, Structural)]
pub struct BsaIndex {
    pub index: u32,
}

/// The `u32` stored at `pos` in `b`.
pub open spec fn u32_at(b: Seq<u8>, pos: int) -> int {
    le32(b.skip(pos))
}

/// The hash-table offset that the header of `b` gives.
pub open spec fn hash_table_offset_of(b: Seq<u8>) -> int {
    u32_at(b, 4)
}

/// The file count that the header of `b` gives.
pub open spec fn file_count_of(b: Seq<u8>) -> int {
    u32_at(b, 8)
}

/// Where the data region of `b` starts.
pub open spec fn data_start_of(b: Seq<u8>) -> int {
    12 + hash_table_offset_of(b) + 8 * file_count_of(b)
}

/// The name block of `b`.
pub open spec fn name_block_of(b: Seq<u8>) -> Seq<u8> {
    b.subrange(12 + 12 * file_count_of(b), 12 + hash_table_offset_of(b))
}

/// Whether the header of `b` and the tables it announces fit in `b`.
pub open spec fn layout_ok(b: Seq<u8>) -> bool {
    &&& b.len() >= 12
    &&& le32(b) == TES3_MAGIC
    &&& 12 * file_count_of(b) <= hash_table_offset_of(b)
    &&& data_start_of(b) <= b.len()
}

/// The name offset of file `i`.
pub open spec fn name_offset_of(b: Seq<u8>, i: int) -> int {
    u32_at(b, 12 + 8 * file_count_of(b) + 4 * i)
}

/// Whether file `i` of `b` has a NUL-terminated name in the name block and its
/// data inside `b`.
pub open spec fn file_ok(b: Seq<u8>, i: int) -> bool {
    let nb = name_block_of(b);
    let o = name_offset_of(b, i);
    &&& o < nb.len()
    &&& exists|j: int| o <= j < nb.len() && nb[j] == 0
    &&& data_start_of(b) + u32_at(b, 16 + 8 * i) + u32_at(b, 12 + 8 * i) <= b.len()
}

/// Whether `b` is a Morrowind archive that parses.
pub open spec fn well_formed(b: Seq<u8>) -> bool {
    &&& layout_ok(b)
    &&& forall|i: int| 0 <= i < file_count_of(b) ==> #[trigger] file_ok(b, i)
}

/// A file of a parsed archive.
#[derive(Debug, Clone, PartialEq, Eq)]
pub struct Tes3File {
    pub hash: u64,
    pub name: Vec<u8>,
    pub size: u32,
    pub offset: u64,
}

/// The directory of a parsed Morrowind archive.
#[derive(Debug, Clone, PartialEq, Eq)]
pub struct Tes3Archive {
    pub files: Vec<Tes3File>,
}

/// What file `i` of a well-formed `b` is.
pub open spec fn file_matches(b: Seq<u8>, i: int, f: Tes3File) -> bool {
    let o = name_offset_of(b, i);
    &&& f.size == u32_at(b, 12 + 8 * i)
    &&& f.offset == data_start_of(b) + u32_at(b, 16 + 8 * i)
    &&& f.hash == le64(b.skip(12 + hash_table_offset_of(b) + 8 * i))
    &&& f.name@ == name_block_of(b).subrange(o, o + f.name@.len())
    &&& o + f.name@.len() < name_block_of(b).len()
    &&& name_block_of(b)[o + f.name@.len()] == 0
    &&& forall|j: int| o <= j < o + f.name@.len() ==> name_block_of(b)[j] != 0
}

fn u32_at_exec(b: &[u8], pos: usize) -> (r: u32)
    requires
        pos + 4 <= b@.len(),
    ensures
        r == u32_at(b@, pos as int),
{
    let t = slice_subrange(b, pos, b.len());
    assert(t@ =~= b@.skip(pos as int));
    read_le32(t)
}

/// Parses the header and file table of a Morrowind archive.
pub fn parse_tes3(b: &[u8]) -> (r: Result<Tes3Archive, ArchiveReadError>)
    ensures
        r is Ok <==> well_formed(b@),
        b@.len() < 12 ==> r == Err::<Tes3Archive, ArchiveReadError>(ArchiveReadError::BadHeader),
        b@.len() >= 12 && le32(b@) != TES3_MAGIC ==> r == Err::<Tes3Archive, ArchiveReadError>(ArchiveReadError::InvalidMagic),
        b@.len() >= 12 && le32(b@) == TES3_MAGIC && (12 * file_count_of(b@) > hash_table_offset_of(b@)
            || data_start_of(b@) > b@.len()) ==> r == Err::<Tes3Archive, ArchiveReadError>(ArchiveReadError::BadOffset),
        r is Ok ==> r->Ok_0.files@.len() == file_count_of(b@)
            && forall|i: int| 0 <= i < r->Ok_0.files@.len() ==> file_matches(b@, i, #[trigger] r->Ok_0.files@[i]),
{
    if b.len() < 12 {
        return Err(ArchiveReadError::BadHeader);
    }
    let magic = u32_at_exec(b, 0);
    assert(b@.skip(0) =~= b@);
    if magic != TES3_MAGIC {
        return Err(ArchiveReadError::InvalidMagic);
    }
    let ht = u32_at_exec(b, 4) as u64;
    let fc = u32_at_exec(b, 8) as u64;
    if 12 * fc > ht || 12 + ht + 8 * fc > b.len() as u64 {
        return Err(ArchiveReadError::BadOffset);
    }
    let data_start = 12 + ht + 8 * fc;
    let nb_start = (12 + 12 * fc) as usize;
    let names = slice_subrange(b, nb_start, (12 + ht) as usize);
    let names_len = names.len();
    let mut files: Vec<Tes3File> = Vec::new();
    let mut i: usize = 0;
    while (i as u64) < fc
        invariant
            layout_ok(b@),
            fc == file_count_of(b@),
            ht == hash_table_offset_of(b@),
            data_start == data_start_of(b@),
            names@ == name_block_of(b@),
            names_len == names@.len(),
            nb_start == 12 + 12 * fc,
            i <= fc,
            files@.len() == i,
            forall|k: int| 0 <= k < i ==> #[trigger] file_ok(b@, k),
            forall|k: int| 0 <= k < i ==> file_matches(b@, k, #[trigger] files@[k]),
        decreases fc - i,
    {
        let size = u32_at_exec(b, 12 + 8 * i);
        let off = u32_at_exec(b, 16 + 8 * i);
        let no = u32_at_exec(b, (12 + 8 * fc) as usize + 4 * i) as usize;
        if no >= names_len {
            assert(!file_ok(b@, i as int));
            return Err(ArchiveReadError::BadOffset);
        }
        let tail = slice_subrange(names, no, names_len);
        let len = match crate::bytes::find_byte(0, tail) {
            Some(len) => len,
            None => {
                proof {
                    assert forall|j: int| no <= j < names@.len() implies names@[j] != 0 by {
                        assert(tail@[j - no] == names@[j]);
                    }
                    assert(!file_ok(b@, i as int));
                }
                return Err(ArchiveReadError::MissingNul);
            },
        };
        let start = data_start + off as u64;
        if start + size as u64 > b.len() as u64 {
            assert(!file_ok(b@, i as int));
            return Err(ArchiveReadError::BadOffset);
        }
        let name = crate::bytes::slice_to_vec_bytes(slice_subrange(tail, 0, len));
        let hash = u64_at_exec(b, (12 + ht) as usize + 8 * i);
        let f = Tes3File { hash, name, size, offset: start };
        proof {
            assert(names@[no + len as int] == 0);
            assert(file_ok(b@, i as int));
            assert(f.name@ =~= names@.subrange(no as int, no + len));
            assert forall|j: int| no <= j < no + len implies names@[j] != 0 by {
                assert(tail@[j - no] == names@[j]);
            }
        }
        files.push(f);
        i = i + 1;
    }
    Ok(Tes3Archive { files })
}

fn u64_at_exec(b: &[u8], pos: usize) -> (r: u64)
    requires
        pos + 8 <= b@.len(),
    ensures
        r == le64(b@.skip(pos as int)),
{
    let mut t = Bytes::new(slice_subrange(b, pos, b.len()));
    assert(t@ =~= b@.skip(pos as int));
    match t.read_u64() {
        Ok(v) => v,
        Err(_) => 0,
    }
}

impl Tes3Archive {
    /// The number of files.
    pub fn len(&self) -> (r: usize)
        ensures
            r == self.files@.len(),
    {
        self.files.len()
    }

    /// The stored bytes of file `index` in the archive bytes `archive`; `BadOffset`
    /// where they lie outside it.
    pub fn file_data<'a>(&self, archive: &'a [u8], index: usize) -> (r: Result<&'a [u8], ArchiveReadError>)
        requires
            index < self.files@.len(),
        ensures
            ({
                let f = self.files@[index as int];
                &&& r is Ok <==> f.offset + f.size <= archive@.len()
                &&& r is Ok ==> r->Ok_0@ == archive@.subrange(f.offset as int, f.offset + f.size)
                &&& r is Err ==> r->Err_0 == ArchiveReadError::BadOffset
            }),
    {
        let f = &self.files[index];
        if f.offset > archive.len() as u64 || (archive.len() as u64) - f.offset < f.size as u64 {
            return Err(ArchiveReadError::BadOffset);
        }
        let start = f.offset as usize;
        Ok(slice_subrange(archive, start, start + f.size as usize))
    }

    /// The index of the file whose stored name is `name` once normalized.
    pub fn find_by_name(&self, name: &[u8]) -> (r: Option<usize>)
        ensures
            match r {
                Some(i) => i < self.files@.len() && hashable(name@)
                    && self.files@[i as int].name@ == norm_path(name@),
                None => !hashable(name@) || forall|k: int| 0 <= k < self.files@.len()
                    ==> self.files@[k].name@ != norm_path(name@),
            },
    {
        let n = match normalize(name) {
            Some(n) => n,
            None => return None,
        };
        let mut i: usize = 0;
        while i < self.files.len()
            invariant
                i <= self.files@.len(),
                n@ == norm_path(name@),
                hashable(name@),
                forall|k: int| 0 <= k < i ==> self.files@[k].name@ != n@,
            decreases self.files@.len() - i,
        {
            if bytes_eq(self.files[i].name.as_slice(), n.as_slice()) {
                return Some(i);
            }
            i = i + 1;
        }
        None
    }

    /// The index of the first file with hash `hash`.
    pub fn find_by_hash(&self, hash: u64) -> (r: Option<usize>)
        ensures
            match r {
                Some(i) => i < self.files@.len() && self.files@[i as int].hash == hash,
                None => forall|k: int| 0 <= k < self.files@.len() ==> self.files@[k].hash != hash,
            },
    {
        let mut i: usize = 0;
        while i < self.files.len()
            invariant
                i <= self.files@.len(),
                forall|k: int| 0 <= k < i ==> self.files@[k].hash != hash,
            decreases self.files@.len() - i,
        {
            if self.files[i].hash == hash {
                return Some(i);
            }
            i = i + 1;
        }
        None
    }
}

/// Whether two byte strings are equal.
pub fn bytes_eq(a: &[u8], b: &[u8]) -> (r: bool)
    ensures
        r == (a@ == b@),
{
    if a.len() != b.len() {
        return false;
    }
    let mut i: usize = 0;
    while i < a.len()
        invariant
            a@.len() == b@.len(),
            i <= a@.len(),
            forall|k: int| 0 <= k < i ==> a@[k] == b@[k],
        decreases a@.len() - i,
    {
        if a[i] != b[i] {
            return false;
        }
        i = i + 1;
    }
    assert(a@ =~= b@);
    true
}

/// A file waiting in a writer: its hash, normalized name and contents.
#[derive(Debug, Clone)]
pub struct Tes3WriteEntry {
    pub hash: u64,
    pub name: Vec<u8>,
    pub data: Vec<u8>,
}

/// Whether the keys of `es` strictly increase.
pub open spec fn sorted_by_key(es: Seq<Tes3WriteEntry>) -> bool {
    forall|i: int, j: int| 0 <= i < j < es.len() ==> rotate_key(#[trigger] es[i].hash) < rotate_key(#[trigger] es[j].hash)
}

/// The total length of the NUL-terminated names of `es`.
pub open spec fn names_total(es: Seq<Tes3WriteEntry>) -> int
    decreases es.len(),
{
    if es.len() == 0 { 0 } else { names_total(es.drop_last()) + es.last().name@.len() + 1 }
}

/// The total length of the contents of `es`.
pub open spec fn data_total(es: Seq<Tes3WriteEntry>) -> int
    decreases es.len(),
{
    if es.len() == 0 { 0 } else { data_total(es.drop_last()) + es.last().data@.len() }
}

/// The record table: size and data offset of each file.
pub open spec fn records_img(es: Seq<Tes3WriteEntry>) -> Seq<u8>
    decreases es.len(),
{
    if es.len() == 0 {
        Seq::empty()
    } else {
        records_img(es.drop_last()) + le_bytes32(es.last().data@.len() as u32)
            + le_bytes32(data_total(es.drop_last()) as u32)
    }
}

/// The name-offset table.
pub open spec fn name_offsets_img(es: Seq<Tes3WriteEntry>) -> Seq<u8>
    decreases es.len(),
{
    if es.len() == 0 {
        Seq::empty()
    } else {
        name_offsets_img(es.drop_last()) + le_bytes32(names_total(es.drop_last()) as u32)
    }
}

/// The name block: each name followed by a NUL.
pub open spec fn names_img(es: Seq<Tes3WriteEntry>) -> Seq<u8>
    decreases es.len(),
{
    if es.len() == 0 { Seq::empty() } else { names_img(es.drop_last()) + es.last().name@.push(0u8) }
}

/// The hash table.
pub open spec fn hashes_img(es: Seq<Tes3WriteEntry>) -> Seq<u8>
    decreases es.len(),
{
    if es.len() == 0 { Seq::empty() } else { hashes_img(es.drop_last()) + le_bytes64(es.last().hash) }
}

/// The data region.
pub open spec fn data_img(es: Seq<Tes3WriteEntry>) -> Seq<u8>
    decreases es.len(),
{
    if es.len() == 0 { Seq::empty() } else { data_img(es.drop_last()) + es.last().data@ }
}

/// Whether the offsets of an archive of `es` fit their fields.
pub open spec fn fits(es: Seq<Tes3WriteEntry>) -> bool {
    12 * es.len() + names_total(es) <= u32::MAX && data_total(es) <= u32::MAX
}

/// The archive that holds `es`, in order.
#[verifier::opaque]
pub open spec fn tes3_image(es: Seq<Tes3WriteEntry>) -> Seq<u8> {
    le_bytes32(TES3_MAGIC) + le_bytes32((12 * es.len() + names_total(es)) as u32) + le_bytes32(es.len() as u32)
        + records_img(es) + name_offsets_img(es) + names_img(es) + hashes_img(es) + data_img(es)
}

/// Whether no name of `es` holds a NUL.
pub open spec fn names_clean(es: Seq<Tes3WriteEntry>) -> bool {
    forall|i: int, j: int| 0 <= i < es.len() && 0 <= j < es[i].name@.len() ==> (#[trigger] es[i].name@[j]) != 0
}

proof fn lemma_norm_path_clean(p: Seq<u8>)
    requires
        hashable(p),
    ensures
        forall|j: int| 0 <= j < norm_path(p).len() ==> (#[trigger] norm_path(p)[j]) != 0,
{
    assert forall|j: int| 0 <= j < norm_path(p).len() implies (#[trigger] norm_path(p)[j]) != 0 by {
        assert(norm_byte_spec(p[j]) is Some);
    }
}

/// Whether `e` is the entry that adding `data` under `path` makes.
pub open spec fn entry_is(e: Tes3WriteEntry, path: Seq<u8>, data: Seq<u8>) -> bool {
    &&& e.hash == tes3_hash_spec(norm_path(path))
    &&& e.name@ == norm_path(path)
    &&& e.data@ == data
}

/// Whether some entry of `es` has key `k`.
pub open spec fn has_key(es: Seq<Tes3WriteEntry>, k: u64) -> bool {
    exists|j: int| 0 <= j < es.len() && rotate_key(es[j].hash) == k
}

fn key_of(e: &Tes3WriteEntry) -> (r: u64)
    ensures
        r == rotate_key(e.hash),
{
    (NameHash { value: e.hash }).compare_key()
}

/// Builds a Morrowind archive. Files are kept sorted by hash key; a second file
/// with the key of an earlier one replaces it.
pub struct Tes3Writer {
    entries: Vec<Tes3WriteEntry>,
}

impl View for Tes3Writer {
    type V = Seq<Tes3WriteEntry>;

    closed spec fn view(&self) -> Seq<Tes3WriteEntry> {
        self.entries@
    }
}

impl Tes3Writer {
    /// Whether the files are sorted by key and their names hold no NUL.
    pub open spec fn wf(&self) -> bool {
        sorted_by_key(self@) && names_clean(self@)
    }

    /// An empty writer.
    pub fn new() -> (r: Tes3Writer)
        ensures
            r@.len() == 0,
            r.wf(),
    {
        Tes3Writer { entries: Vec::new() }
    }

    /// The files, in key order.
    pub fn entries(&self) -> (r: &Vec<Tes3WriteEntry>)
        ensures
            r@ == self@,
    {
        &self.entries
    }

    /// Compression is not part of this format: asking for it fails.
    pub fn set_compressed(&mut self, compressed: bool) -> (r: Result<(), ArchiveWriteError>)
        ensures
            r is Err <==> compressed,
            r is Err ==> r->Err_0 == ArchiveWriteError::CompressionUnsupported,
            final(self)@ == old(self)@,
    {
        if compressed {
            Err(ArchiveWriteError::CompressionUnsupported)
        } else {
            Ok(())
        }
    }

    /// Adds a file under `path`, normalized; `InvalidFileName` where the path holds a
    /// NUL or a byte outside ASCII.
    pub fn add(&mut self, path: &[u8], data: Vec<u8>) -> (r: Result<(), ArchiveWriteError>)
        requires
            old(self).wf(),
        ensures
            final(self).wf(),
            r is Ok <==> hashable(path@),
            r is Err ==> r->Err_0 == ArchiveWriteError::InvalidFileName && final(self)@ == old(self)@,
            r is Ok ==> exists|p: int| 0 <= p < final(self)@.len()
                && #[trigger] entry_is(final(self)@[p], path@, data@)
                && (if has_key(old(self)@, rotate_key(tes3_hash_spec(norm_path(path@)))) {
                    final(self)@ == old(self)@.update(p, final(self)@[p])
                } else {
                    final(self)@ == old(self)@.insert(p, final(self)@[p])
                }),
    {
        let name = match normalize(path) {
            Some(n) => n,
            None => return Err(ArchiveWriteError::InvalidFileName),
        };
        let hash = hash_normalized(name.as_slice());
        let key = NameHash { value: hash }.compare_key();
        let ghost dname = name@;
        let ghost ddata = data@;
        let e = Tes3WriteEntry { hash, name, data };
        let mut i: usize = 0;
        while i < self.entries.len() && key_of(&self.entries[i]) < key
            invariant
                i <= self.entries@.len(),
                self.entries@ == old(self).entries@,
                sorted_by_key(self.entries@),
                forall|k2: int| 0 <= k2 < i ==> rotate_key(#[trigger] self.entries@[k2].hash) < key,
            decreases self.entries@.len() - i,
        {
            i = i + 1;
        }
        let ghost old_entries = self.entries@;
        if i < self.entries.len() && key_of(&self.entries[i]) == key {
            self.entries.remove(i);
            self.entries.insert(i, e);
            proof {
                assert(self.entries@ =~= old_entries.update(i as int, e));
            }
        } else {
            self.entries.insert(i, e);
            proof {
                assert forall|j: int| 0 <= j < old_entries.len() implies rotate_key(old_entries[j].hash) != key by {
                    if j >= i {
                        if j > i {
                            assert(rotate_key(old_entries[i as int].hash) < rotate_key(old_entries[j].hash));
                        }
                    }
                }
            }
        }
        proof {
            assert(self.entries@[i as int] == e);
            assert(entry_is(self.entries@[i as int], path@, data@));
            lemma_norm_path_clean(path@);
            assert forall|a: int, b: int| 0 <= a < self.entries@.len() && 0 <= b < self.entries@[a].name@.len()
                implies (#[trigger] self.entries@[a].name@[b]) != 0 by {
                if a < i {
                    assert(self.entries@[a] == old_entries[a]);
                }
            }
        }
        Ok(())
    }

    /// Emits the archive: header, records, name offsets, names, hashes and
    /// contents, each in key order. `ArchiveTooLarge` where an offset does not fit
    /// its 32-bit field.
    pub fn write(&self) -> (r: Result<Vec<u8>, ArchiveWriteError>)
        ensures
            r is Ok <==> fits(self@),
            r is Ok ==> r->Ok_0@ == tes3_image(self@),
            r is Err ==> r->Err_0 == ArchiveWriteError::ArchiveTooLarge,
    {
        let es = &self.entries;
        let n = es.len();
        let mut names_len: u64 = 0;
        let mut data_len: u64 = 0;
        let mut i: usize = 0;
        while i < n
            invariant
                n == es@.len(),
                es@ == self@,
                i <= n,
                names_len == names_total(es@.take(i as int)),
                data_len == data_total(es@.take(i as int)),
                names_len <= u32::MAX,
                data_len <= u32::MAX,
            decreases n - i,
        {
            proof {
                assert(es@.take(i + 1).drop_last() =~= es@.take(i as int));
            }
            let nl = es[i].name.len() as u64;
            let dl = es[i].data.len() as u64;
            if nl >= u32::MAX as u64 - names_len || dl > u32::MAX as u64 - data_len {
                proof { lemma_totals_grow(es@, i as int + 1); }
                return Err(ArchiveWriteError::ArchiveTooLarge);
            }
            names_len = names_len + nl + 1;
            data_len = data_len + dl;
            i = i + 1;
        }
        assert(es@.take(n as int) =~= es@);
        if n as u64 > u32::MAX as u64 || 12 * (n as u64) > u32::MAX as u64 - names_len {
            return Err(ArchiveWriteError::ArchiveTooLarge);
        }
        let mut out: Vec<u8> = Vec::new();
        push_u32(&mut out, TES3_MAGIC);
        push_u32(&mut out, (12 * (n as u64) + names_len) as u32);
        push_u32(&mut out, n as u32);
        let ghost head = out@;
        // records
        let mut off: u64 = 0;
        let mut i: usize = 0;
        while i < n
            invariant
                n == es@.len(),
                es@ == self@,
                fits(es@),
                i <= n,
                off == data_total(es@.take(i as int)),
                out@ == head + records_img(es@.take(i as int)),
            decreases n - i,
        {
            proof {
                assert(es@.take(i + 1).drop_last() =~= es@.take(i as int));
                lemma_totals_prefix(es@, i as int + 1);
            }
            let dl = es[i].data.len() as u64;
            push_u32(&mut out, dl as u32);
            push_u32(&mut out, off as u32);
            off = off + dl;
            i = i + 1;
        }
        let ghost head = out@;
        let mut noff: u64 = 0;
        let mut i: usize = 0;
        while i < n
            invariant
                n == es@.len(),
                es@ == self@,
                fits(es@),
                i <= n,
                noff == names_total(es@.take(i as int)),
                out@ == head + name_offsets_img(es@.take(i as int)),
            decreases n - i,
        {
            proof {
                assert(es@.take(i + 1).drop_last() =~= es@.take(i as int));
                lemma_totals_prefix(es@, i as int + 1);
            }
            push_u32(&mut out, noff as u32);
            noff = noff + es[i].name.len() as u64 + 1;
            i = i + 1;
        }
        let ghost head = out@;
        let mut i: usize = 0;
        while i < n
            invariant
                n == es@.len(),
                es@ == self@,
                i <= n,
                out@ == head + names_img(es@.take(i as int)),
            decreases n - i,
        {
            proof {
                assert(es@.take(i + 1).drop_last() =~= es@.take(i as int));
            }
            push_slice(&mut out, es[i].name.as_slice());
            out.push(0);
            i = i + 1;
        }
        let ghost head = out@;
        let mut i: usize = 0;
        while i < n
            invariant
                n == es@.len(),
                es@ == self@,
                i <= n,
                out@ == head + hashes_img(es@.take(i as int)),
            decreases n - i,
        {
            proof {
                assert(es@.take(i + 1).drop_last() =~= es@.take(i as int));
            }
            push_u64(&mut out, es[i].hash);
            i = i + 1;
        }
        let ghost head = out@;
        let mut i: usize = 0;
        while i < n
            invariant
                n == es@.len(),
                es@ == self@,
                i <= n,
                out@ == head + data_img(es@.take(i as int)),
            decreases n - i,
        {
            proof {
                assert(es@.take(i + 1).drop_last() =~= es@.take(i as int));
            }
            push_slice(&mut out, es[i].data.as_slice());
            i = i + 1;
        }
        proof {
            reveal(tes3_image);
        }
        assert(out@ =~= tes3_image(es@));
        Ok(out)
    }
}

proof fn lemma_totals_grow(es: Seq<Tes3WriteEntry>, k: int)
    requires
        0 <= k <= es.len(),
    ensures
        names_total(es.take(k)) <= names_total(es),
        data_total(es.take(k)) <= data_total(es),
    decreases es.len() - k,
{
    if k < es.len() {
        assert(es.take(k + 1).drop_last() =~= es.take(k));
        lemma_totals_grow(es, k + 1);
    } else {
        assert(es.take(k) =~= es);
    }
}

proof fn lemma_totals_prefix(es: Seq<Tes3WriteEntry>, k: int)
    requires
        0 <= k <= es.len(),
        fits(es),
    ensures
        names_total(es.take(k)) <= u32::MAX,
        data_total(es.take(k)) <= u32::MAX,
{
    lemma_totals_grow(es, k);
}

/// The ordering key of hashes tells them apart: equal keys mean equal hashes, so
/// sorting by key orders hashes totally and a binary search by key finds a hash.
pub proof fn lemma_rotate_key_injective(a: u64, b: u64)
    ensures
        rotate_key(a) == rotate_key(b) <==> a == b,
{
    let ka = (a as int % 0x1_0000_0000) * 0x1_0000_0000 + a as int / 0x1_0000_0000;
    let kb = (b as int % 0x1_0000_0000) * 0x1_0000_0000 + b as int / 0x1_0000_0000;
    assert(0 <= a as int / 0x1_0000_0000 < 0x1_0000_0000);
    assert(0 <= b as int / 0x1_0000_0000 < 0x1_0000_0000);
    assert(0 <= ka < 0x1_0000_0000_0000_0000) by (nonlinear_arith)
        requires ka == (a as int % 0x1_0000_0000) * 0x1_0000_0000 + a as int / 0x1_0000_0000,
            0 <= a as int % 0x1_0000_0000 < 0x1_0000_0000, 0 <= a as int / 0x1_0000_0000 < 0x1_0000_0000;
    assert(0 <= kb < 0x1_0000_0000_0000_0000) by (nonlinear_arith)
        requires kb == (b as int % 0x1_0000_0000) * 0x1_0000_0000 + b as int / 0x1_0000_0000,
            0 <= b as int % 0x1_0000_0000 < 0x1_0000_0000, 0 <= b as int / 0x1_0000_0000 < 0x1_0000_0000;
    if ka == kb {
        assert(a as int / 0x1_0000_0000 == b as int / 0x1_0000_0000 && a as int % 0x1_0000_0000 == b as int % 0x1_0000_0000)
            by (nonlinear_arith)
            requires ka == kb,
                ka == (a as int % 0x1_0000_0000) * 0x1_0000_0000 + a as int / 0x1_0000_0000,
                kb == (b as int % 0x1_0000_0000) * 0x1_0000_0000 + b as int / 0x1_0000_0000,
                0 <= a as int / 0x1_0000_0000 < 0x1_0000_0000, 0 <= b as int / 0x1_0000_0000 < 0x1_0000_0000;
        assert(a == b);
    }
}

proof fn lemma_u32_at(s: Seq<u8>, p: int, x: u32)
    requires
        0 <= p,
        p + 4 <= s.len(),
        s.subrange(p, p + 4) == le_bytes32(x),
    ensures
        u32_at(s, p) == x,
{
    assert(s.skip(p) =~= le_bytes32(x) + s.skip(p + 4));
    lemma_le32_round_trip(x, s.skip(p + 4));
}

proof fn lemma_u64_at(s: Seq<u8>, p: int, x: u64)
    requires
        0 <= p,
        p + 8 <= s.len(),
        s.subrange(p, p + 8) == le_bytes64(x),
    ensures
        le64(s.skip(p)) == x,
{
    assert(s.skip(p) =~= le_bytes64(x) + s.skip(p + 8));
    lemma_le64_round_trip(x, s.skip(p + 8));
}

#[verifier::rlimit(60)]
proof fn lemma_records(es: Seq<Tes3WriteEntry>, i: int)
    requires
        0 <= i < es.len(),
    ensures
        records_img(es).len() == 8 * es.len(),
        records_img(es).subrange(8 * i, 8 * i + 8)
            == le_bytes32(es[i].data@.len() as u32) + le_bytes32(data_total(es.take(i)) as u32),
    decreases es.len(),
{
    let p = es.drop_last();
    lemma_lens(p);
    if i == es.len() - 1 {
        assert(es.take(i) =~= p);
        assert(records_img(es).subrange(8 * i, 8 * i + 8) =~=
            le_bytes32(es[i].data@.len() as u32) + le_bytes32(data_total(es.take(i)) as u32));
    } else {
        lemma_records(p, i);
        assert(p.take(i) =~= es.take(i));
        assert(records_img(es).subrange(8 * i, 8 * i + 8) =~= records_img(p).subrange(8 * i, 8 * i + 8));
    }
}

proof fn lemma_name_offsets(es: Seq<Tes3WriteEntry>, i: int)
    requires
        0 <= i < es.len(),
    ensures
        name_offsets_img(es).subrange(4 * i, 4 * i + 4) == le_bytes32(names_total(es.take(i)) as u32),
    decreases es.len(),
{
    let p = es.drop_last();
    lemma_lens(p);
    if i == es.len() - 1 {
        assert(es.take(i) =~= p);
        assert(name_offsets_img(es).subrange(4 * i, 4 * i + 4) =~= le_bytes32(names_total(es.take(i)) as u32));
    } else {
        lemma_name_offsets(p, i);
        assert(p.take(i) =~= es.take(i));
        assert(name_offsets_img(es).subrange(4 * i, 4 * i + 4) =~= name_offsets_img(p).subrange(4 * i, 4 * i + 4));
    }
}

proof fn lemma_hashes(es: Seq<Tes3WriteEntry>, i: int)
    requires
        0 <= i < es.len(),
    ensures
        hashes_img(es).subrange(8 * i, 8 * i + 8) == le_bytes64(es[i].hash),
    decreases es.len(),
{
    let p = es.drop_last();
    lemma_lens(p);
    if i == es.len() - 1 {
        assert(hashes_img(es).subrange(8 * i, 8 * i + 8) =~= le_bytes64(es[i].hash));
    } else {
        lemma_hashes(p, i);
        assert(hashes_img(es).subrange(8 * i, 8 * i + 8) =~= hashes_img(p).subrange(8 * i, 8 * i + 8));
    }
}

#[verifier::rlimit(60)]
proof fn lemma_names(es: Seq<Tes3WriteEntry>, i: int)
    requires
        0 <= i < es.len(),
    ensures
        ({
            let o = names_total(es.take(i));
            &&& 0 <= o
            &&& o + es[i].name@.len() + 1 <= names_total(es)
            &&& names_img(es).subrange(o, o + es[i].name@.len() + 1) == es[i].name@.push(0u8)
        }),
    decreases es.len(),
{
    let p = es.drop_last();
    lemma_lens(p);
    lemma_lens(es.take(i));
    if i == es.len() - 1 {
        assert(es.take(i) =~= p);
        assert(names_img(es).subrange(names_total(p), names_total(p) + es[i].name@.len() + 1) =~= es[i].name@.push(0u8));
    } else {
        lemma_names(p, i);
        assert(p.take(i) =~= es.take(i));
        let o = names_total(es.take(i));
        assert(names_img(es).subrange(o, o + es[i].name@.len() + 1) =~= names_img(p).subrange(o, o + es[i].name@.len() + 1));
    }
}

#[verifier::rlimit(60)]
proof fn lemma_data(es: Seq<Tes3WriteEntry>, i: int)
    requires
        0 <= i < es.len(),
    ensures
        ({
            let o = data_total(es.take(i));
            &&& 0 <= o
            &&& o + es[i].data@.len() <= data_total(es)
            &&& data_img(es).subrange(o, o + es[i].data@.len()) == es[i].data@
        }),
    decreases es.len(),
{
    let p = es.drop_last();
    lemma_lens(p);
    lemma_lens(es.take(i));
    if i == es.len() - 1 {
        assert(es.take(i) =~= p);
        assert(data_img(es).subrange(data_total(p), data_total(p) + es[i].data@.len()) =~= es[i].data@);
    } else {
        lemma_data(p, i);
        assert(p.take(i) =~= es.take(i));
        let o = data_total(es.take(i));
        assert(data_img(es).subrange(o, o + es[i].data@.len()) =~= data_img(p).subrange(o, o + es[i].data@.len()));
    }
}

proof fn lemma_lens(es: Seq<Tes3WriteEntry>)
    ensures
        records_img(es).len() == 8 * es.len(),
        name_offsets_img(es).len() == 4 * es.len(),
        hashes_img(es).len() == 8 * es.len(),
        names_img(es).len() == names_total(es),
        data_img(es).len() == data_total(es),
        names_total(es) >= 0,
        data_total(es) >= 0,
    decreases es.len(),
{
    if es.len() > 0 {
        lemma_lens(es.drop_last());
    }
}

/// Whether archive `a` holds the entries `es` of a writer, in order: the same
/// names, hashes and sizes, with each file's bytes at its offset in `b`.
pub open spec fn restores(b: Seq<u8>, a: Seq<Tes3File>, es: Seq<Tes3WriteEntry>) -> bool {
    &&& a.len() == es.len()
    &&& forall|i: int| 0 <= i < es.len() ==> {
        let f = #[trigger] a[i];
        &&& f.name@ == es[i].name@
        &&& f.hash == es[i].hash
        &&& f.size == es[i].data@.len()
        &&& f.offset + f.size <= b.len()
        &&& b.subrange(f.offset as int, f.offset + f.size) == es[i].data@
    }
}

proof fn lemma_cat(x: Seq<u8>, y: Seq<u8>)
    ensures
        (x + y).subrange(0, x.len() as int) == x,
        (x + y).subrange(x.len() as int, (x.len() + y.len()) as int) == y,
        (x + y).len() == x.len() + y.len(),
{
    assert((x + y).subrange(0, x.len() as int) =~= x);
    assert((x + y).subrange(x.len() as int, (x.len() + y.len()) as int) =~= y);
}

proof fn lemma_sub_prefix(x: Seq<u8>, y: Seq<u8>, lo: int, hi: int)
    requires
        0 <= lo <= hi <= x.len(),
    ensures
        (x + y).subrange(lo, hi) == x.subrange(lo, hi),
{
    assert((x + y).subrange(lo, hi) =~= x.subrange(lo, hi));
}

#[verifier::rlimit(60)]
proof fn lemma_image_header(es: Seq<Tes3WriteEntry>)
    requires
        fits(es),
    ensures
        ({
            let b = tes3_image(es);
            let n = es.len() as int;
            let ht = 12 * n + names_total(es);
            &&& layout_ok(b)
            &&& hash_table_offset_of(b) == ht
            &&& file_count_of(b) == n
            &&& name_block_of(b) == names_img(es)
            &&& data_start_of(b) == 12 + ht + 8 * n
            &&& b.len() == 12 + ht + 8 * n + data_total(es)
            &&& b.subrange(12, 12 + 8 * n) == records_img(es)
            &&& b.subrange(12 + 8 * n, 12 + 12 * n) == name_offsets_img(es)
            &&& b.subrange(12 + ht, 12 + ht + 8 * n) == hashes_img(es)
            &&& b.subrange(12 + ht + 8 * n, b.len() as int) == data_img(es)
        }),
{
    reveal(tes3_image);
    let b = tes3_image(es);
    let n = es.len() as int;
    lemma_lens(es);
    let nt = names_total(es);
    let ht = 12 * n + nt;
    let p0 = le_bytes32(TES3_MAGIC) + le_bytes32(ht as u32) + le_bytes32(n as u32);
    let p1 = p0 + records_img(es);
    let p2 = p1 + name_offsets_img(es);
    let p3 = p2 + names_img(es);
    let p4 = p3 + hashes_img(es);
    assert(b == p4 + data_img(es));
    lemma_cat(p0, records_img(es));
    lemma_cat(p1, name_offsets_img(es));
    lemma_cat(p2, names_img(es));
    lemma_cat(p3, hashes_img(es));
    lemma_cat(p4, data_img(es));
    assert(p0.subrange(0, 4) =~= le_bytes32(TES3_MAGIC));
    assert(p0.subrange(4, 8) =~= le_bytes32(ht as u32));
    assert(p0.subrange(8, 12) =~= le_bytes32(n as u32));
    lemma_sub_prefix(p0, records_img(es), 0, 12);
    lemma_sub_prefix(p1, name_offsets_img(es), 0, 12);
    lemma_sub_prefix(p2, names_img(es), 0, 12);
    lemma_sub_prefix(p3, hashes_img(es), 0, 12);
    lemma_sub_prefix(p4, data_img(es), 0, 12);
    assert(b.subrange(0, 4) =~= b.subrange(0, 12).subrange(0, 4));
    assert(b.subrange(4, 8) =~= b.subrange(0, 12).subrange(4, 8));
    assert(b.subrange(8, 12) =~= b.subrange(0, 12).subrange(8, 12));
    lemma_u32_at(b, 0, TES3_MAGIC);
    assert(b.skip(0) =~= b);
    lemma_u32_at(b, 4, ht as u32);
    lemma_u32_at(b, 8, n as u32);
    lemma_sub_prefix(p1, name_offsets_img(es), 12, 12 + 8 * n);
    lemma_sub_prefix(p2, names_img(es), 12, 12 + 8 * n);
    lemma_sub_prefix(p3, hashes_img(es), 12, 12 + 8 * n);
    lemma_sub_prefix(p4, data_img(es), 12, 12 + 8 * n);
    assert(p1.subrange(12, 12 + 8 * n) =~= records_img(es));
    lemma_sub_prefix(p2, names_img(es), 12 + 8 * n, 12 + 12 * n);
    lemma_sub_prefix(p3, hashes_img(es), 12 + 8 * n, 12 + 12 * n);
    lemma_sub_prefix(p4, data_img(es), 12 + 8 * n, 12 + 12 * n);
    lemma_sub_prefix(p3, hashes_img(es), 12 + 12 * n, 12 + ht);
    lemma_sub_prefix(p4, data_img(es), 12 + 12 * n, 12 + ht);
    lemma_sub_prefix(p4, data_img(es), 12 + ht, 12 + ht + 8 * n);
}

#[verifier::rlimit(60)]
proof fn lemma_entry_size(es: Seq<Tes3WriteEntry>, i: int)
    requires
        fits(es),
        0 <= i < es.len(),
    ensures
        u32_at(tes3_image(es), 12 + 8 * i) == es[i].data@.len(),
        u32_at(tes3_image(es), 16 + 8 * i) == data_total(es.take(i)),
{
    let b = tes3_image(es);
    let n = es.len() as int;
    lemma_image_header(es);
    lemma_records(es, i);
    lemma_data(es, i);
    lemma_totals_grow(es, i);
    let len_i = es[i].data@.len();
    let off_i = data_total(es.take(i));
    let r = b.subrange(12, 12 + 8 * n);
    let x = le_bytes32(len_i as u32) + le_bytes32(off_i as u32);
    assert(r.subrange(8 * i, 8 * i + 8) == x);
    assert(8 * i + 8 <= 8 * n) by (nonlinear_arith)
        requires i < n;
    lemma_sub_sub(b, 12, 12 + 8 * n, 8 * i, 8 * i + 8);
    assert(b.subrange(12 + 8 * i, 12 + 8 * i + 4) =~= x.subrange(0, 4));
    assert(x.subrange(0, 4) =~= le_bytes32(len_i as u32));
    lemma_u32_at(b, 12 + 8 * i, len_i as u32);
    assert(b.subrange(16 + 8 * i, 16 + 8 * i + 4) =~= x.subrange(4, 8));
    assert(x.subrange(4, 8) =~= le_bytes32(off_i as u32));
    lemma_u32_at(b, 16 + 8 * i, off_i as u32);
}

#[verifier::rlimit(60)]
proof fn lemma_entry_name_offset(es: Seq<Tes3WriteEntry>, i: int)
    requires
        fits(es),
        0 <= i < es.len(),
    ensures
        name_offset_of(tes3_image(es), i) == names_total(es.take(i)),
{
    let b = tes3_image(es);
    let n = es.len() as int;
    lemma_image_header(es);
    lemma_name_offsets(es, i);
    lemma_names(es, i);
    lemma_lens(es);
    let no_i = names_total(es.take(i));
    assert(4 * i + 4 <= 4 * n) by (nonlinear_arith)
        requires i < n;
    lemma_sub_sub(b, 12 + 8 * n, 12 + 12 * n, 4 * i, 4 * i + 4);
    lemma_u32_at(b, 12 + 8 * n + 4 * i, no_i as u32);
}

#[verifier::rlimit(60)]
proof fn lemma_entry_hash(es: Seq<Tes3WriteEntry>, i: int)
    requires
        fits(es),
        0 <= i < es.len(),
    ensures
        le64(tes3_image(es).skip(12 + hash_table_offset_of(tes3_image(es)) + 8 * i)) == es[i].hash,
{
    let b = tes3_image(es);
    let n = es.len() as int;
    lemma_image_header(es);
    lemma_hashes(es, i);
    let ht = 12 * n + names_total(es);
    assert(8 * i + 8 <= 8 * n) by (nonlinear_arith)
        requires i < n;
    lemma_sub_sub(b, 12 + ht, 12 + ht + 8 * n, 8 * i, 8 * i + 8);
    lemma_u64_at(b, 12 + ht + 8 * i, es[i].hash);
}

proof fn lemma_sub_sub(b: Seq<u8>, lo: int, hi: int, a: int, c: int)
    requires
        0 <= lo <= hi <= b.len(),
        0 <= a <= c <= hi - lo,
    ensures
        b.subrange(lo, hi).subrange(a, c) == b.subrange(lo + a, lo + c),
{
    assert(b.subrange(lo, hi).subrange(a, c) =~= b.subrange(lo + a, lo + c));
}

#[verifier::rlimit(60)]
proof fn lemma_entry_data(es: Seq<Tes3WriteEntry>, i: int)
    requires
        fits(es),
        0 <= i < es.len(),
    ensures
        ({
            let b = tes3_image(es);
            let start = data_start_of(b) + data_total(es.take(i));
            &&& start + es[i].data@.len() <= b.len()
            &&& b.subrange(start, start + es[i].data@.len()) == es[i].data@
        }),
{
    let b = tes3_image(es);
    let n = es.len() as int;
    lemma_image_header(es);
    lemma_lens(es);
    lemma_data(es, i);
    let ht = 12 * n + names_total(es);
    let ds = 12 + ht + 8 * n;
    let off_i = data_total(es.take(i));
    let len_i = es[i].data@.len() as int;
    let d = b.subrange(ds, b.len() as int);
    assert(b.subrange(ds + off_i, ds + off_i + len_i) =~= d.subrange(off_i, off_i + len_i));
}

#[verifier::rlimit(60)]
proof fn lemma_image_entry(es: Seq<Tes3WriteEntry>, i: int)
    requires
        fits(es),
        0 <= i < es.len(),
        forall|j: int| 0 <= j < es[i].name@.len() ==> (#[trigger] es[i].name@[j]) != 0,
    ensures
        ({
            let b = tes3_image(es);
            &&& file_ok(b, i)
            &&& forall|f: Tes3File| #[trigger] file_matches(b, i, f) ==> {
                &&& f.name@ == es[i].name@
                &&& f.hash == es[i].hash
                &&& f.size == es[i].data@.len()
                &&& f.offset + f.size <= b.len()
                &&& b.subrange(f.offset as int, f.offset + f.size) == es[i].data@
            }
        }),
{
    let b = tes3_image(es);
    lemma_image_header(es);
    lemma_entry_size(es, i);
    lemma_entry_name_offset(es, i);
    lemma_entry_hash(es, i);
    lemma_entry_data(es, i);
    lemma_names(es, i);
    let no_i = names_total(es.take(i));
    let nb = names_img(es);
    let ln = es[i].name@.len() as int;
    assert(nb.subrange(no_i, no_i + ln + 1)[ln] == 0);
    assert(nb[no_i + ln] == 0);
    assert(file_ok(b, i));
    assert forall|f: Tes3File| #[trigger] file_matches(b, i, f) implies {
        &&& f.name@ == es[i].name@
        &&& f.hash == es[i].hash
        &&& f.size == es[i].data@.len()
        &&& f.offset + f.size <= b.len()
        &&& b.subrange(f.offset as int, f.offset + f.size) == es[i].data@
    } by {
        let l = f.name@.len() as int;
        if l < ln {
            assert(nb[no_i + l] == nb.subrange(no_i, no_i + ln + 1)[l]);
            assert(nb[no_i + l] == es[i].name@[l]);
        } else if l > ln {
            assert(nb[no_i + ln] == 0);
        }
        assert forall|j: int| 0 <= j < l implies f.name@[j] == es[i].name@[j] by {
            assert(f.name@[j] == nb[no_i + j]);
            assert(nb[no_i + j] == nb.subrange(no_i, no_i + ln + 1)[j]);
        }
        assert(f.name@ =~= es[i].name@);
    }
}

/// What a writer emits reads back as its files: the archive is well formed and
/// any directory of it that the parser's contract describes holds the writer's
/// entries, in order.
pub proof fn lemma_writer_round_trip(w: Tes3Writer, a: Seq<Tes3File>)
    requires
        w.wf(),
        fits(w@),
        a.len() == w@.len(),
        forall|i: int| 0 <= i < a.len() ==> file_matches(tes3_image(w@), i, #[trigger] a[i]),
    ensures
        well_formed(tes3_image(w@)),
        restores(tes3_image(w@), a, w@),
{
    lemma_round_trip(w@, a);
}

/// Reading back what the writer emits gives its entries: the image of entries
/// whose offsets fit and whose names hold no NUL is a well-formed archive, and
/// any directory that describes it, as the parser's does, holds those entries.
pub proof fn lemma_round_trip(es: Seq<Tes3WriteEntry>, a: Seq<Tes3File>)
    requires
        fits(es),
        forall|i: int, j: int| 0 <= i < es.len() && 0 <= j < es[i].name@.len() ==> (#[trigger] es[i].name@[j]) != 0,
        a.len() == es.len(),
        forall|i: int| 0 <= i < a.len() ==> file_matches(tes3_image(es), i, #[trigger] a[i]),
    ensures
        well_formed(tes3_image(es)),
        restores(tes3_image(es), a, es),
{
    lemma_image_header(es);
    assert forall|i: int| 0 <= i < es.len() implies #[trigger] file_ok(tes3_image(es), i) by {
        lemma_image_entry(es, i);
    }
    assert forall|i: int| 0 <= i < es.len() implies {
        let f = #[trigger] a[i];
        &&& f.name@ == es[i].name@
        &&& f.hash == es[i].hash
        &&& f.size == es[i].data@.len()
        &&& f.offset + f.size <= tes3_image(es).len()
        &&& tes3_image(es).subrange(f.offset as int, f.offset + f.size) == es[i].data@
    } by {
        lemma_image_entry(es, i);
        assert(file_matches(tes3_image(es), i, a[i]));
    }
}

/// An index of an archive's files sorted by hash key, for binary search.
pub struct HashTable {
    entries: Vec<(u64, usize)>,
}

impl View for HashTable {
    type V = Seq<(u64, usize)>;

    closed spec fn view(&self) -> Seq<(u64, usize)> {
        self.entries@
    }
}

/// Whether `t` lists every file of `files` once, each with its key, in key order.
pub open spec fn indexes(t: Seq<(u64, usize)>, files: Seq<Tes3File>) -> bool {
    &&& t.len() == files.len()
    &&& forall|p: int, q: int| 0 <= p < q < t.len() ==> (#[trigger] t[p]).0 <= (#[trigger] t[q]).0
    &&& forall|p: int| 0 <= p < t.len() ==> (#[trigger] t[p]).1 < files.len() && t[p].0 == rotate_key(files[t[p].1 as int].hash)
    &&& forall|i: int| 0 <= i < files.len() ==> #[trigger] listed(t, i)
}

/// Whether file `i` has an entry in `t`.
pub open spec fn listed(t: Seq<(u64, usize)>, i: int) -> bool {
    exists|p: int| 0 <= p < t.len() && (#[trigger] t[p]).1 == i
}

impl HashTable {
    /// Sorts the files of `a` by hash key.
    pub fn new(a: &Tes3Archive) -> (r: HashTable)
        ensures
            indexes(r@, a.files@),
    {
        let files = &a.files;
        let mut t: Vec<(u64, usize)> = Vec::new();
        let mut i: usize = 0;
        while i < files.len()
            invariant
                i <= files@.len(),
                t@.len() == i,
                forall|p: int, q: int| 0 <= p < q < t@.len() ==> (#[trigger] t@[p]).0 <= (#[trigger] t@[q]).0,
                forall|p: int| 0 <= p < t@.len() ==> (#[trigger] t@[p]).1 < i && t@[p].0 == rotate_key(files@[t@[p].1 as int].hash),
                forall|k: int| 0 <= k < i ==> #[trigger] listed(t@, k),
            decreases files@.len() - i,
        {
            let key = key_of_hash(files[i].hash);
            let mut pos: usize = 0;
            while pos < t.len() && t[pos].0 <= key
                invariant
                    pos <= t@.len(),
                    forall|p: int| 0 <= p < pos ==> (#[trigger] t@[p]).0 <= key,
                decreases t@.len() - pos,
            {
                pos = pos + 1;
            }
            let ghost old_t = t@;
            t.insert(pos, (key, i));
            proof {
                assert forall|p: int, q: int| 0 <= p < q < t@.len() implies (#[trigger] t@[p]).0 <= (#[trigger] t@[q]).0 by {
                    if p < pos && q > pos {
                        assert(t@[q] == old_t[q - 1]);
                    } else if p > pos {
                        assert(t@[p] == old_t[p - 1] && t@[q] == old_t[q - 1]);
                    } else if p == pos && q > pos {
                        assert(t@[q] == old_t[q - 1]);
                        assert(old_t[pos as int].0 > key);
                    }
                }
                assert forall|k: int| 0 <= k < i + 1 implies #[trigger] listed(t@, k) by {
                    if k == i {
                        assert(t@[pos as int].1 == k);
                    } else {
                        assert(listed(old_t, k));
                        let p0 = choose|p: int| 0 <= p < old_t.len() && (#[trigger] old_t[p]).1 == k;
                        if p0 < pos {
                            assert(t@[p0].1 == k);
                        } else {
                            assert(t@[p0 + 1].1 == k);
                        }
                    }
                }
            }
            i = i + 1;
        }
        HashTable { entries: t }
    }

    /// The index of a file with hash `hash`, found by binary search over the keys.
    pub fn find_by_hash(&self, a: &Tes3Archive, hash: u64) -> (r: Option<usize>)
        requires
            indexes(self@, a.files@),
        ensures
            match r {
                Some(i) => i < a.files@.len() && a.files@[i as int].hash == hash,
                None => forall|i: int| 0 <= i < a.files@.len() ==> a.files@[i].hash != hash,
            },
    {
        let key = key_of_hash(hash);
        let t = &self.entries;
        let mut lo: usize = 0;
        let mut hi: usize = t.len();
        while lo < hi
            invariant
                indexes(t@, a.files@),
                key == rotate_key(hash),
                hi <= t@.len(),
                lo <= hi,
                forall|p: int| 0 <= p < lo ==> (#[trigger] t@[p]).0 < key,
                forall|p: int| hi <= p < t@.len() ==> (#[trigger] t@[p]).0 > key,
            decreases hi - lo,
        {
            let mid = lo + (hi - lo) / 2;
            let k = t[mid].0;
            if k == key {
                proof {
                    let e = t@[mid as int];
                    assert(e.1 < a.files@.len() && e.0 == rotate_key(a.files@[e.1 as int].hash));
                    lemma_rotate_key_injective(a.files@[e.1 as int].hash, hash);
                }
                return Some(t[mid].1);
            } else if k < key {
                lo = mid + 1;
            } else {
                hi = mid;
            }
        }
        proof {
            assert forall|i: int| 0 <= i < a.files@.len() implies a.files@[i].hash != hash by {
                assert(listed(t@, i));
                let p = choose|p: int| 0 <= p < t@.len() && (#[trigger] t@[p]).1 == i;
                assert(t@[p].0 == rotate_key(a.files@[i].hash));
            }
        }
        None
    }

    /// The index of the file stored under `name` once normalized: its hash is
    /// found by binary search, then its stored name is compared.
    pub fn find_by_name(&self, a: &Tes3Archive, name: &[u8]) -> (r: Option<usize>)
        requires
            indexes(self@, a.files@),
        ensures
            match r {
                Some(i) => i < a.files@.len() && hashable(name@) && a.files@[i as int].name@ == norm_path(name@),
                None => !hashable(name@) || forall|i: int| 0 <= i < a.files@.len()
                    ==> a.files@[i].hash != tes3_hash_spec(norm_path(name@)) || a.files@[i].name@ != norm_path(name@)
                    || exists|j: int| 0 <= j < a.files@.len() && a.files@[j].hash == a.files@[i].hash
                        && a.files@[j].name@ != norm_path(name@),
            },
    {
        let n = match normalize(name) {
            Some(n) => n,
            None => return None,
        };
        let h = hash_normalized(n.as_slice());
        match self.find_by_hash(a, h) {
            Some(i) => {
                if bytes_eq(a.files[i].name.as_slice(), n.as_slice()) {
                    Some(i)
                } else {
                    None
                }
            },
            None => None,
        }
    }
}

fn key_of_hash(h: u64) -> (r: u64)
    ensures
        r == rotate_key(h),
{
    (NameHash { value: h }).compare_key()
}

} // verus!
