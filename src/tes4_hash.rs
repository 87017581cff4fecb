//! The TES4-family name hash: first, last and second-to-last bytes, the length,
//! and a multiplicative checksum of the middle.

use crate::path::{canon_char, file_name_of, parent_of, is_sep, normalize, normalize_spec, rfind_spec, split, split_extension, MAX_PATH};

use vstd::prelude::*;
use vstd::std_specs::iter::IteratorSpec;

verus! {

/// An eight-byte name hash, ordered by its little-endian `u64` value.
#[derive(Debug, Clone, Copy, PartialEq, Eq, Structural)]
pub struct Hash {
    pub last: u8,
    pub last2: u8,
    pub len: u8,
    pub first: u8,
    pub crc: u32,
}

/// The checksum of a byte string: `crc = byte + crc * 0x1003F`, wrapping, from 0.
pub open spec fn crc_spec(s: Seq<u8>) -> u32
    decreases s.len(),
{
    if s.len() == 0 {
        0
    } else {
        ((crc_spec(s.drop_last()) as int * 0x1003F + s.last() as int) % 0x1_0000_0000) as u32
    }
}

/// The hash of a directory name.
pub open spec fn dir_hash_spec(name: Seq<u8>) -> Hash {
    Hash {
        last: if name.len() > 0 { name.last() } else { 0 },
        last2: if name.len() >= 3 { name[name.len() - 2] } else { 0 },
        len: (name.len() % 256) as u8,
        first: if name.len() > 0 { name[0] } else { 0 },
        crc: if name.len() >= 3 { crc_spec(name.subrange(1, name.len() - 2)) } else { 0 },
    }
}

/// The position of an extension in the table of known extensions.
pub open spec fn ext_index(ext: Seq<u8>) -> Option<u8> {
    if ext.len() == 0 {
        Some(0u8)
    } else if ext == seq![0x2Eu8, 0x6Eu8, 0x69u8, 0x66u8] {
        Some(1u8)
    } else if ext == seq![0x2Eu8, 0x6Bu8, 0x66u8] {
        Some(2u8)
    } else if ext == seq![0x2Eu8, 0x64u8, 0x64u8, 0x73u8] {
        Some(3u8)
    } else if ext == seq![0x2Eu8, 0x77u8, 0x61u8, 0x76u8] {
        Some(4u8)
    } else if ext == seq![0x2Eu8, 0x61u8, 0x64u8, 0x70u8] {
        Some(5u8)
    } else {
        None
    }
}

/// The hash of a file name split into stem and extension (with its dot).
pub open spec fn file_hash_spec(stem: Seq<u8>, ext: Seq<u8>) -> Hash {
    let h = dir_hash_spec(stem);
    let crc = ((h.crc as int + crc_spec(ext) as int) % 0x1_0000_0000) as u32;
    match ext_index(ext) {
        Some(i) => Hash {
            first: ((h.first as int + 32 * (i & 0xFC) as int) % 256) as u8,
            last: ((h.last as int + (i & 0xFE) as int * 64) % 256) as u8,
            last2: ((h.last2 as int + i as int * 128) % 256) as u8,
            crc,
            ..h
        },
        None => Hash { crc, ..h },
    }
}

/// The stem and extension of a file name: split at its last `.`.
pub open spec fn stem_of(name: Seq<u8>) -> Seq<u8> {
    match rfind_spec(name, 0x2Eu8) {
        Some(i) => name.take(i),
        None => name,
    }
}

/// The extension of a file name, with its dot; empty where there is none.
pub open spec fn ext_of(name: Seq<u8>) -> Seq<u8> {
    match rfind_spec(name, 0x2Eu8) {
        Some(i) => name.skip(i),
        None => Seq::empty(),
    }
}

/// The hash of a file name in archive form, or `None` where its stem is empty or
/// reaches `MAX_PATH`, or its extension is 16 bytes or longer.
pub open spec fn file_name_hash_spec(name: Seq<u8>) -> Option<Hash> {
    if stem_of(name).len() == 0 || stem_of(name).len() >= MAX_PATH || ext_of(name).len() >= 16 {
        None
    } else {
        Some(file_hash_spec(stem_of(name), ext_of(name)))
    }
}

/// The little-endian `u64` value of a hash.
pub open spec fn hash_u64(h: Hash) -> int {
    h.last as int + h.last2 as int * 0x100 + h.len as int * 0x1_0000 + h.first as int * 0x100_0000
        + h.crc as int * 0x1_0000_0000
}

/// Computes the checksum of a byte string.
pub fn crc32(bytes: &[u8]) -> (r: u32)
    ensures
        r == crc_spec(bytes@),
{
    let mut crc: u32 = 0;
    let mut i: usize = 0;
    while i < bytes.len()
        invariant
            i <= bytes@.len(),
            crc == crc_spec(bytes@.take(i as int)),
        decreases bytes@.len() - i,
    {
        let ghost prev = crc;
        let b = bytes[i];
        crc = crc.wrapping_mul(0x1003F).wrapping_add(b as u32);
        proof {
            assert(bytes@.take(i + 1).drop_last() =~= bytes@.take(i as int));
            lemma_crc_step(prev, b, crc);
        }
        i = i + 1;
    }
    assert(bytes@.take(bytes@.len() as int) =~= bytes@);
    crc
}

proof fn lemma_crc_step(prev: u32, b: u8, next: u32)
    requires
        next == (((prev as int * 0x1003F) % 0x1_0000_0000) + b as int) % 0x1_0000_0000,
    ensures
        next == ((prev as int * 0x1003F + b as int) % 0x1_0000_0000) as u32,
{
    vstd::arithmetic::div_mod::lemma_add_mod_noop(prev as int * 0x1003F, b as int, 0x1_0000_0000);
    assert(b as int % 0x1_0000_0000 == b as int);
}

/// The hash of a directory name in archive form, without checking it.
pub fn hash_directory_name_unchecked(name: &[u8]) -> (r: Hash)
    ensures
        r == dir_hash_spec(name@),
{
    let n = name.len();
    let mut h = Hash { last: 0, last2: 0, len: (n % 256) as u8, first: 0, crc: 0 };
    if 3 <= n {
        h.last2 = name[n - 2];
        h.crc = crc32(vstd::slice::slice_subrange(name, 1, n - 2));
    }
    if n > 0 {
        h.first = name[0];
        h.last = name[n - 1];
    }
    h
}

fn extension_index(ext: &[u8]) -> (r: Option<u8>)
    ensures
        r == ext_index(ext@),
{
    let n = ext.len();
    let r = if n == 0 {
        Some(0)
    } else if n == 4 && ext[0] == 0x2E && ext[1] == 0x6E && ext[2] == 0x69 && ext[3] == 0x66 {
        Some(1)
    } else if n == 3 && ext[0] == 0x2E && ext[1] == 0x6B && ext[2] == 0x66 {
        Some(2)
    } else if n == 4 && ext[0] == 0x2E && ext[1] == 0x64 && ext[2] == 0x64 && ext[3] == 0x73 {
        Some(3)
    } else if n == 4 && ext[0] == 0x2E && ext[1] == 0x77 && ext[2] == 0x61 && ext[3] == 0x76 {
        Some(4)
    } else if n == 4 && ext[0] == 0x2E && ext[1] == 0x61 && ext[2] == 0x64 && ext[3] == 0x70 {
        Some(5)
    } else {
        None
    };
    proof {
        let e = ext@;
        if n == 4 {
            assert(e =~= seq![e[0], e[1], e[2], e[3]]);
        }
        if n == 3 {
            assert(e =~= seq![e[0], e[1], e[2]]);
        }
    }
    r
}

/// The hash of a file name split into stem and extension, without checking them.
pub fn hash_file_name_unchecked(stem: &[u8], extension: &[u8]) -> (r: Hash)
    ensures
        r == file_hash_spec(stem@, extension@),
{
    let mut h = hash_directory_name_unchecked(stem);
    h.crc = h.crc.wrapping_add(crc32(extension));
    match extension_index(extension) {
        Some(i) => {
            h.first = ((h.first as u32 + 32 * ((i & 0xFC) as u32)) % 256) as u8;
            h.last = ((h.last as u32 + ((i & 0xFE) as u32) * 64) % 256) as u8;
            h.last2 = ((h.last2 as u32 + (i as u32) * 128) % 256) as u8;
        },
        None => {},
    }
    h
}

impl Hash {
    /// The hash of a directory name in archive form; `None` where it is empty,
    /// holds a NUL or reaches `MAX_PATH`.
    pub fn from_dirname(name: &[u8]) -> (r: Option<Hash>)
        ensures
            r == (if name@.len() == 0 || name@.len() >= MAX_PATH || name@.contains(0u8) {
                None::<Hash>
            } else {
                Some(dir_hash_spec(name@))
            }),
    {
        if name.len() == 0 || name.len() >= MAX_PATH {
            return None;
        }
        match crate::bytes::find_byte(0, name) {
            Some(i) => {
                assert(name@[i as int] == 0);
                None
            },
            None => Some(hash_directory_name_unchecked(name)),
        }
    }

    /// The hash of a file name in archive form.
    pub fn from_filename(base_name: &[u8]) -> (r: Option<Hash>)
        ensures
            r == file_name_hash_spec(base_name@),
    {
        let (stem, extension) = split_extension(base_name);
        if stem.len() == 0 || stem.len() >= MAX_PATH || extension.len() >= 16 {
            None
        } else {
            Some(hash_file_name_unchecked(stem, extension))
        }
    }

    /// The hash of the eight bytes of a record.
    pub fn from_bytes(bytes: [u8; 8]) -> (r: Hash)
        ensures
            r.last == bytes@[0] && r.last2 == bytes@[1] && r.len == bytes@[2] && r.first == bytes@[3],
            r.crc == crate::bytes::le32(bytes@.subrange(4, 8)),
    {
        Hash {
            last: bytes[0],
            last2: bytes[1],
            len: bytes[2],
            first: bytes[3],
            crc: bytes[4] as u32 + bytes[5] as u32 * 0x100 + bytes[6] as u32 * 0x1_0000
                + bytes[7] as u32 * 0x100_0000,
        }
    }

    /// The eight bytes of a hash as a record holds them.
    pub fn to_bytes(self) -> (r: [u8; 8])
        ensures
            Hash::from_bytes_spec(r@) == self,
            crate::bytes::le64(r@) == hash_u64(self),
    {
        let c = self.crc;
        let r = [
            self.last,
            self.last2,
            self.len,
            self.first,
            (c % 0x100) as u8,
            (c / 0x100 % 0x100) as u8,
            (c / 0x1_0000 % 0x100) as u8,
            (c / 0x100_0000) as u8,
        ];
        proof {
            assert(r@.subrange(4, 8) =~= seq![r@[4], r@[5], r@[6], r@[7]]);
        }
        r
    }

    /// The hash that eight record bytes hold.
    pub open spec fn from_bytes_spec(b: Seq<u8>) -> Hash {
        Hash {
            last: b[0],
            last2: b[1],
            len: b[2],
            first: b[3],
            crc: crate::bytes::le32(b.subrange(4, 8)) as u32,
        }
    }

    /// The hash whose little-endian `u64` value is `value`.
    pub fn from_u64(value: u64) -> (r: Hash)
        ensures
            hash_u64(r) == value,
    {
        let v1 = value / 0x100;
        let v2 = v1 / 0x100;
        let v3 = v2 / 0x100;
        let v4 = v3 / 0x100;
        assert(value == value % 0x100 + v1 * 0x100);
        assert(v1 == v1 % 0x100 + v2 * 0x100);
        assert(v2 == v2 % 0x100 + v3 * 0x100);
        assert(v3 == v3 % 0x100 + v4 * 0x100);
        Hash {
            last: (value % 0x100) as u8,
            last2: (v1 % 0x100) as u8,
            len: (v2 % 0x100) as u8,
            first: (v3 % 0x100) as u8,
            crc: v4 as u32,
        }
    }

    /// The little-endian `u64` value of the hash, which orders hashes.
    pub fn to_u64(self) -> (r: u64)
        ensures
            r == hash_u64(self),
    {
        self.last as u64 + self.last2 as u64 * 0x100 + self.len as u64 * 0x1_0000
            + self.first as u64 * 0x100_0000 + self.crc as u64 * 0x1_0000_0000
    }
}

/// The archive bytes of a name whose characters all have one.
pub open spec fn canon_seq(p: Seq<char>) -> Seq<u8> {
    p.map_values(|c: char| canon_char(c)->0)
}

/// Whether every character of `p` has an archive byte.
pub open spec fn all_canon(p: Seq<char>) -> bool {
    forall|i: int| 0 <= i < p.len() ==> (#[trigger] canon_char(p[i])) is Some
}

/// The hash of a directory path, as `hash_directory_name` computes it.
pub open spec fn directory_name_hash_spec(path: Seq<char>) -> Option<Hash> {
    match normalize_spec(path) {
        Some(n) => if n.len() == 0 { None } else { Some(dir_hash_spec(n)) },
        None => None,
    }
}

/// The hash of a file name, as `hash_file_name` computes it.
pub open spec fn plain_file_name_hash_spec(name: Seq<char>) -> Option<Hash> {
    if exists|i: int| 0 <= i < name.len() && is_sep(#[trigger] name[i]) {
        None
    } else if !all_canon(name) {
        None
    } else {
        file_name_hash_spec(canon_seq(name))
    }
}

/// The (directory, file) hashes of a file path, as `hash_file_path` computes them.
pub open spec fn file_path_hash_spec(path: Seq<char>) -> Option<(Hash, Hash)> {
    match normalize_spec(path) {
        Some(n) => if parent_of(n).len() == 0 {
            None
        } else {
            match file_name_hash_spec(file_name_of(n)) {
                Some(f) => Some((dir_hash_spec(parent_of(n)), f)),
                None => None,
            }
        },
        None => None,
    }
}

/// Hashes a directory path after normalizing it; `None` where it does not
/// normalize or is empty.
pub fn hash_directory_name(path: &str) -> (r: Option<Hash>)
    ensures
        r == directory_name_hash_spec(path@),
{
    match normalize(path) {
        Some(n) => {
            if n.len() == 0 {
                None
            } else {
                Some(hash_directory_name_unchecked(n.as_slice()))
            }
        },
        None => None,
    }
}

/// Hashes a file name after folding it to lowercase Windows-1252; `None` where it
/// holds a separator or a character without a byte, or its stem or extension is
/// out of bounds.
pub fn hash_file_name(name: &str) -> (r: Option<Hash>)
    ensures
        r == plain_file_name_hash_spec(name@),
{
    let mut it = name.chars();
    let ghost n = name@.len();
    let ghost mut k: int = 0;
    let mut buf: Vec<u8> = Vec::new();
    loop
        invariant
            it.remaining() == name@.skip(k),
            0 <= k <= n,
            n == name@.len(),
            forall|j: int| 0 <= j < k ==> !is_sep(#[trigger] name@[j]) && canon_char(name@[j]) is Some,
            buf@ == canon_seq(name@.take(k)),
        decreases n - k,
    {
        match it.next() {
            Some(c) => {
                assert(c == name@[k]);
                if c == '/' || c == '\\' {
                    return None;
                }
                match crate::path::canon_byte(c) {
                    Some(b) => {
                        buf.push(b);
                        proof {
                            assert(canon_seq(name@.take(k + 1)) =~= canon_seq(name@.take(k)).push(b));
                            k = k + 1;
                        }
                    },
                    None => {
                        return None;
                    },
                }
            },
            None => {
                assert(name@.skip(k).len() == 0);
                assert(name@.take(k) =~= name@);
                return Hash::from_filename(buf.as_slice());
            },
        }
    }
}

/// Hashes a file path after normalizing it into (directory hash, file hash);
/// `None` where it does not normalize, has no directory, or its file name does
/// not hash.
pub fn hash_file_path(path: &str) -> (r: Option<(Hash, Hash)>)
    ensures
        r == file_path_hash_spec(path@),
{
    match normalize(path) {
        Some(n) => {
            let (dir, file) = split(n.as_slice());
            if dir.len() == 0 {
                return None;
            }
            match Hash::from_filename(file) {
                Some(f) => Some((hash_directory_name_unchecked(dir), f)),
                None => None,
            }
        },
        None => None,
    }
}

/// Whether two paths agree character by character up to the choice of separator
/// and letter case.
pub open spec fn equivalent_paths(p: Seq<char>, q: Seq<char>) -> bool {
    p.len() == q.len() && forall|i: int| 0 <= i < p.len() ==> canon_char(#[trigger] p[i]) == canon_char(q[i])
}

proof fn lemma_norm_state_equiv(p: Seq<char>, q: Seq<char>)
    requires
        equivalent_paths(p, q),
    ensures
        crate::path::norm_state(p) == crate::path::norm_state(q),
    decreases p.len(),
{
    if p.len() > 0 {
        assert(canon_char(p[p.len() - 1]) == canon_char(q[q.len() - 1]));
        lemma_norm_state_equiv(p.drop_last(), q.drop_last());
    }
}

proof fn lemma_sep_canon(c: char)
    ensures
        canon_char(c) == Some(0x5Cu8) ==> is_sep(c),
{
}

/// Normalization, and with it the directory hash and the file-path hashes, do not
/// change when separators are swapped for one another or letters change case.
pub proof fn lemma_hash_stable(p: Seq<char>, q: Seq<char>)
    requires
        equivalent_paths(p, q),
    ensures
        normalize_spec(p) == normalize_spec(q),
        directory_name_hash_spec(p) == directory_name_hash_spec(q),
        file_path_hash_spec(p) == file_path_hash_spec(q),
{
    lemma_norm_state_equiv(p, q);
    if p.len() > 0 {
        lemma_sep_canon(p[0]);
        lemma_sep_canon(q[0]);
        assert(canon_char(p[0]) == canon_char(q[0]));
    }
}

proof fn lemma_norm_state_extend(a: Seq<char>, b: Seq<char>, r: Seq<char>)
    requires
        crate::path::norm_state(a) == crate::path::norm_state(b),
    ensures
        crate::path::norm_state(a + r) == crate::path::norm_state(b + r),
    decreases r.len(),
{
    if r.len() > 0 {
        let r1 = r.drop_last();
        lemma_norm_state_extend(a, b, r1);
        assert((a + r).drop_last() =~= a + r1);
        assert((b + r).drop_last() =~= b + r1);
        assert((a + r).last() == r.last());
        assert((b + r).last() == r.last());
    }
}

proof fn lemma_sep_canon_is(c: char)
    requires
        is_sep(c),
    ensures
        canon_char(c) == Some(0x5Cu8),
{
}

/// A separator doubled after another separator does not change normalization,
/// nor the hashes computed from it: runs of separators count as one.
pub proof fn lemma_repeated_separator(p: Seq<char>, i: int, c: char)
    requires
        0 < i <= p.len(),
        is_sep(p[i - 1]),
        is_sep(c),
    ensures
        normalize_spec(p.insert(i, c)) == normalize_spec(p),
        directory_name_hash_spec(p.insert(i, c)) == directory_name_hash_spec(p),
        file_path_hash_spec(p.insert(i, c)) == file_path_hash_spec(p),
{
    let a = p.take(i);
    let r = p.skip(i);
    let q = p.insert(i, c);
    lemma_sep_canon_is(c);
    lemma_sep_canon_is(p[i - 1]);
    assert(a.push(c).drop_last() =~= a);
    assert(a.drop_last().push(p[i - 1]) =~= a);
    assert(a.last() == p[i - 1]);
    assert(crate::path::norm_state(a.push(c)) == crate::path::norm_state(a));
    lemma_norm_state_extend(a.push(c), a, r);
    assert(q =~= a.push(c) + r);
    assert(p =~= a + r);
    assert(q[0] == p[0]);
}

/// A trailing separator does not change normalization, nor the hashes computed
/// from it.
pub proof fn lemma_trailing_separator(p: Seq<char>, c: char)
    requires
        p.len() > 0,
        is_sep(c),
    ensures
        normalize_spec(p.push(c)) == normalize_spec(p),
        directory_name_hash_spec(p.push(c)) == directory_name_hash_spec(p),
        file_path_hash_spec(p.push(c)) == file_path_hash_spec(p),
{
    lemma_sep_canon_is(c);
    assert(p.push(c).drop_last() =~= p);
    assert(p.push(c)[0] == p[0]);
}

} // verus!
