//! Opening an archive of any of the formats, and the stream of one entry.

use crate::bytes::le32;
use crate::compress::{decoded, decompress_exact, Codec};
use crate::fo4::{parse_fo4, Fo4Archive};
use crate::tes3::{parse_tes3, Tes3Archive};
use crate::tes4::{parse_tes4, Tes4Archive};
use crate::{ArchiveReadError, Error, Format};
use vstd::prelude::*;

verus! {

/// The format that the magic of `b` names.
pub open spec fn format_spec(b: Seq<u8>) -> Option<Format> {
    if b.len() >= 8 && b.take(4) == seq![0x42u8, 0x53u8, 0x41u8, 0u8] {
        if le32(b.skip(4)) == 103 {
            Some(Format::Tes4)
        } else if le32(b.skip(4)) == 104 {
            Some(Format::Tes5)
        } else if le32(b.skip(4)) == 105 {
            Some(Format::Sse)
        } else {
            None
        }
    } else if b.len() >= 4 && b.take(4) == seq![0x42u8, 0x54u8, 0x44u8, 0x58u8] {
        Some(Format::Fo4)
    } else if b.len() >= 4 && le32(b) == 0x100 {
        Some(Format::Tes3)
    } else {
        None
    }
}

fn magic_is(b: &[u8], x: u8, y: u8, z: u8, w: u8) -> (r: bool)
    requires
        b@.len() >= 4,
    ensures
        r == (b@.take(4) == seq![x, y, z, w]),
{
    let r = b[0] == x && b[1] == y && b[2] == z && b[3] == w;
    proof {
        if r {
            assert(b@.take(4) =~= seq![x, y, z, w]);
        } else {
            assert(b@.take(4)[0] == b@[0] && b@.take(4)[1] == b@[1] && b@.take(4)[2] == b@[2] && b@.take(4)[3] == b@[3]);
            assert(seq![x, y, z, w][0] == x && seq![x, y, z, w][1] == y && seq![x, y, z, w][2] == z && seq![x, y, z, w][3] == w);
        }
    }
    r
}

/// Tells the format of an archive from its magic number, and for the TES4 family
/// its version.
pub fn detect_format(b: &[u8]) -> (r: Option<Format>)
    ensures
        r == format_spec(b@),
{
    if b.len() < 4 {
        return None;
    }
    if magic_is(b, 0x42, 0x53, 0x41, 0) {
        if b.len() < 8 {
            return if crate::bytes::read_le32(b) == 0x100 { Some(Format::Tes3) } else { None };
        }
        let rest = vstd::slice::slice_subrange(b, 4, b.len());
        assert(rest@ =~= b@.skip(4));
        let v = crate::bytes::read_le32(rest);
        if v == 103 {
            Some(Format::Tes4)
        } else if v == 104 {
            Some(Format::Tes5)
        } else if v == 105 {
            Some(Format::Sse)
        } else {
            None
        }
    } else if magic_is(b, 0x42, 0x54, 0x44, 0x58) {
        Some(Format::Fo4)
    } else if crate::bytes::read_le32(b) == 0x100 {
        Some(Format::Tes3)
    } else {
        None
    }
}

/// An opened archive of one of the formats.
#[derive(Debug, Clone)]
pub enum Archive {
    Tes3(Tes3Archive),
    Tes4(Tes4Archive),
    Fo4(Fo4Archive),
}

/// Opens an archive; the format is `hint` where one is given, else the one its
/// magic names. `UnsupportedFormat` where neither names one.
pub fn open(b: &[u8], hint: Option<Format>) -> (r: Result<Archive, Error>)
    ensures
        ({
            let f = match hint { Some(h) => Some(h), None => format_spec(b@) };
            &&& f is None ==> r == Err::<Archive, Error>(Error::Read(ArchiveReadError::UnsupportedFormat))
            &&& f == Some(Format::Tes3) ==> (r is Ok <==> crate::tes3::well_formed(b@))
            &&& (f == Some(Format::Tes4) || f == Some(Format::Tes5) || f == Some(Format::Sse))
                ==> (r is Ok <==> crate::tes4::tes4_well_formed(b@))
            &&& f == Some(Format::Fo4) ==> (r is Ok <==> crate::fo4::fo4_well_formed(b@))
            &&& f == Some(Format::Fo4) && crate::fo4::fo4_result(b@) is Err ==> r == Err::<Archive, Error>(
                Error::Read(fo4_error_spec(crate::fo4::fo4_result(b@)->Err_0)))
            &&& r is Ok ==> match r->Ok_0 {
                Archive::Tes3(a) => f == Some(Format::Tes3) && a.files@.len() == crate::tes3::file_count_of(b@)
                    && forall|i: int| 0 <= i < a.files@.len() ==> crate::tes3::file_matches(b@, i, #[trigger] a.files@[i]),
                Archive::Tes4(a) => (f == Some(Format::Tes4) || f == Some(Format::Tes5) || f == Some(Format::Sse))
                    && crate::tes4::archive_matches(b@, a),
                Archive::Fo4(a) => f == Some(Format::Fo4) && crate::fo4::sentinels_ok(a),
            }
        }),
{
    let f = match hint {
        Some(h) => h,
        None => match detect_format(b) {
            Some(f) => f,
            None => return Err(Error::Read(ArchiveReadError::UnsupportedFormat)),
        },
    };
    match f {
        Format::Tes3 => match parse_tes3(b) {
            Ok(a) => Ok(Archive::Tes3(a)),
            Err(e) => Err(Error::Read(e)),
        },
        Format::Tes4 | Format::Tes5 | Format::Sse => match parse_tes4(b) {
            Ok(a) => Ok(Archive::Tes4(a)),
            Err(e) => Err(Error::Read(e)),
        },
        Format::Fo4 => match parse_fo4(b) {
            Ok(a) => Ok(Archive::Fo4(a)),
            Err(e) => Err(Error::Read(fo4_error(e))),
        },
    }
}

/// The library-wide error of a Fallout 4 read error.
pub open spec fn fo4_error_spec(e: crate::fo4::ReadError) -> ArchiveReadError {
    match e {
        crate::fo4::ReadError::Eof => ArchiveReadError::BadArchive,
        crate::fo4::ReadError::InvalidMagic => ArchiveReadError::InvalidMagic,
        crate::fo4::ReadError::InvalidVersion => ArchiveReadError::InvalidVersion,
        crate::fo4::ReadError::UnsupportedFormat => ArchiveReadError::UnsupportedFormat,
        crate::fo4::ReadError::InvalidChunkSize => ArchiveReadError::BadHeader,
        crate::fo4::ReadError::InvalidChunkSentinel => ArchiveReadError::BadSentinel,
    }
}

/// Maps a Fallout 4 read error to the library-wide error.
pub fn fo4_error(e: crate::fo4::ReadError) -> (r: ArchiveReadError)
    ensures
        r == fo4_error_spec(e),
        r == match e {
            crate::fo4::ReadError::Eof => ArchiveReadError::BadArchive,
            crate::fo4::ReadError::InvalidMagic => ArchiveReadError::InvalidMagic,
            crate::fo4::ReadError::InvalidVersion => ArchiveReadError::InvalidVersion,
            crate::fo4::ReadError::UnsupportedFormat => ArchiveReadError::UnsupportedFormat,
            crate::fo4::ReadError::InvalidChunkSize => ArchiveReadError::BadHeader,
            crate::fo4::ReadError::InvalidChunkSentinel => ArchiveReadError::BadSentinel,
        },
{
    match e {
        crate::fo4::ReadError::Eof => ArchiveReadError::BadArchive,
        crate::fo4::ReadError::InvalidMagic => ArchiveReadError::InvalidMagic,
        crate::fo4::ReadError::InvalidVersion => ArchiveReadError::InvalidVersion,
        crate::fo4::ReadError::UnsupportedFormat => ArchiveReadError::UnsupportedFormat,
        crate::fo4::ReadError::InvalidChunkSize => ArchiveReadError::BadHeader,
        crate::fo4::ReadError::InvalidChunkSentinel => ArchiveReadError::BadSentinel,
    }
}

/// The stored bytes of one entry, with the length and codec of its contents
/// where it is compressed.
#[derive(Debug, Clone, Copy)]
pub struct RawEntryData<'a> {
    pub data: &'a [u8],
    pub uncompressed_len: Option<u32>,
    pub codec: Codec,
}

impl<'a> RawEntryData<'a> {
    /// An entry stored as is.
    pub fn from_slice(data: &'a [u8]) -> (r: RawEntryData<'a>)
        ensures
            r.data@ == data@,
            r.uncompressed_len is None,
    {
        RawEntryData { data, uncompressed_len: None, codec: Codec::Zlib }
    }

    /// The length of the contents: the announced length where compressed, the
    /// stored length otherwise.
    pub fn len(&self) -> (r: u64)
        ensures
            r == match self.uncompressed_len {
                Some(n) => n as int,
                None => self.data@.len() as int,
            },
    {
        match self.uncompressed_len {
            Some(n) => n as u64,
            None => self.data.len() as u64,
        }
    }

    /// The stored bytes.
    pub fn to_slice(&self) -> (r: &'a [u8])
        ensures
            r@ == self.data@,
    {
        self.data
    }

    /// The contents: the stored bytes, decoded where compressed; `Compression`
    /// where they do not decode to the announced length.
    pub fn into_owned(self) -> (r: Result<Vec<u8>, Error>)
        ensures
            match self.uncompressed_len {
                None => r is Ok && r->Ok_0@ == self.data@,
                Some(n) => match r {
                    Ok(v) => decoded(self.codec, self.data@) == Some(v@) && v@.len() == n,
                    Err(e) => e == Error::Compression && (decoded(self.codec, self.data@) is None
                        || decoded(self.codec, self.data@)->0.len() != n),
                },
            },
    {
        match self.uncompressed_len {
            None => Ok(crate::bytes::slice_to_vec_bytes(self.data)),
            Some(n) => match decompress_exact(self.codec, self.data, n) {
                Some(v) => Ok(v),
                None => Err(Error::Compression),
            },
        }
    }
}

/// Where an entry lives: a folder and file index for the TES4 family, a file
/// index otherwise.
#[derive(Debug, Clone, Copy, PartialEq, Eq, Structural)]
pub struct EntryId {
    pub dir: usize,
    pub file: usize,
}

/// An entry of an archive: where it lives and its path (empty where the archive
/// stores no names).
#[derive(Debug, Clone)]
pub struct Entry {
    pub id: EntryId,
    pub path: Vec<u8>,
}

/// The path of a TES4 file: folder name, `\`, file name.
pub open spec fn tes4_path(d: Option<Vec<u8>>, f: Option<Vec<u8>>) -> Seq<u8> {
    match (d, f) {
        (Some(d), Some(f)) => d@.push(0x5Cu8) + f@,
        (None, Some(f)) => f@,
        _ => Seq::empty(),
    }
}

fn join_path(d: &Option<Vec<u8>>, f: &Option<Vec<u8>>) -> (r: Vec<u8>)
    ensures
        r@ == tes4_path(*d, *f),
{
    let mut out: Vec<u8> = Vec::new();
    match f {
        Some(f) => {
            match d {
                Some(d) => {
                    crate::bytes::push_slice(&mut out, d.as_slice());
                    out.push(0x5C);
                },
                None => {},
            }
            crate::bytes::push_slice(&mut out, f.as_slice());
        },
        None => {},
    }
    assert(out@ =~= tes4_path(*d, *f));
    out
}

/// Whether `e` is a valid entry of `a`.
pub open spec fn valid_entry(a: Archive, e: EntryId) -> bool {
    match a {
        Archive::Tes3(t) => e.dir == 0 && e.file < t.files@.len(),
        Archive::Tes4(t) => e.dir < t.directories@.len() && e.file < t.directories@[e.dir as int].files@.len(),
        Archive::Fo4(t) => e.dir == 0 && e.file < t.files@.len(),
    }
}

/// An entry as a pair of its id and path.
pub open spec fn entry_view(e: Entry) -> (EntryId, Seq<u8>) {
    (e.id, e.path@)
}

/// Entries as pairs of id and path.
pub open spec fn entry_views(s: Seq<Entry>) -> Seq<(EntryId, Seq<u8>)> {
    s.map_values(|e: Entry| entry_view(e))
}

proof fn lemma_entry_views_push(s: Seq<Entry>, e: Entry)
    ensures
        entry_views(s.push(e)) == entry_views(s).push(entry_view(e)),
{
    assert(entry_views(s.push(e)) =~= entry_views(s).push(entry_view(e)));
}

/// The entries of one TES4 folder, folder index `d`.
pub open spec fn tes4_dir_entries(d: int, dir: crate::tes4::Tes4Directory, n: int) -> Seq<(EntryId, Seq<u8>)> {
    Seq::new(n as nat, |j: int| (EntryId { dir: d as usize, file: j as usize }, tes4_path(dir.name, dir.files@[j].name)))
}

/// The entries of TES4 folders, folder by folder.
pub open spec fn tes4_entries(dirs: Seq<crate::tes4::Tes4Directory>) -> Seq<(EntryId, Seq<u8>)>
    decreases dirs.len(),
{
    if dirs.len() == 0 {
        Seq::empty()
    } else {
        tes4_entries(dirs.drop_last()) + tes4_dir_entries(dirs.len() - 1, dirs.last(), dirs.last().files@.len() as int)
    }
}

/// The entries of an archive, in archive order: ids and paths.
pub open spec fn entries_spec(a: Archive) -> Seq<(EntryId, Seq<u8>)> {
    match a {
        Archive::Tes3(t) => Seq::new(t.files@.len(), |i: int| (EntryId { dir: 0, file: i as usize }, t.files@[i].name@)),
        Archive::Tes4(t) => tes4_entries(t.directories@),
        Archive::Fo4(t) => Seq::new(t.files@.len(), |i: int| (EntryId { dir: 0, file: i as usize },
            match t.files@[i].name { Some(n) => n@, None => Seq::empty() })),
    }
}

impl Archive {
    /// The entries in archive order, each with its id and path: the file name for
    /// TES3, folder name, `\\` and file name for the TES4 family, the stored name
    /// (or nothing) for Fallout 4.
    pub fn entries(&self) -> (r: Vec<Entry>)
        ensures
            entry_views(r@) == entries_spec(*self),
            forall|k: int| 0 <= k < r@.len() ==> valid_entry(*self, (#[trigger] r@[k]).id),
    {
        let mut out: Vec<Entry> = Vec::new();
        match self {
            Archive::Tes3(t) => {
                let mut i: usize = 0;
                while i < t.files.len()
                    invariant
                        *self == Archive::Tes3(*t),
                        i <= t.files@.len(),
                        entry_views(out@) == entries_spec(*self).take(i as int),
                        forall|k: int| 0 <= k < out@.len() ==> valid_entry(*self, (#[trigger] out@[k]).id),
                    decreases t.files@.len() - i,
                {
                    let path = crate::bytes::slice_to_vec_bytes(t.files[i].name.as_slice());
                    let e = Entry { id: EntryId { dir: 0, file: i }, path };
                    proof { lemma_entry_views_push(out@, e); }
                    out.push(e);
                    assert(entry_views(out@) =~= entries_spec(*self).take(i + 1));
                    i = i + 1;
                }
                assert(entries_spec(*self).take(i as int) =~= entries_spec(*self));
            },
            Archive::Tes4(t) => {
                let ghost ds = t.directories@;
                let mut d: usize = 0;
                while d < t.directories.len()
                    invariant
                        *self == Archive::Tes4(*t),
                        ds == t.directories@,
                        d <= ds.len(),
                        entry_views(out@) == tes4_entries(ds.take(d as int)),
                        forall|k: int| 0 <= k < out@.len() ==> valid_entry(*self, (#[trigger] out@[k]).id),
                    decreases ds.len() - d,
                {
                    let dir = &t.directories[d];
                    let ghost head = entry_views(out@);
                    let mut f: usize = 0;
                    while f < dir.files.len()
                        invariant
                            *self == Archive::Tes4(*t),
                            ds == t.directories@,
                            d < ds.len(),
                            *dir == ds[d as int],
                            f <= dir.files@.len(),
                            head == tes4_entries(ds.take(d as int)),
                            entry_views(out@) == head + tes4_dir_entries(d as int, *dir, f as int),
                            forall|k: int| 0 <= k < out@.len() ==> valid_entry(*self, (#[trigger] out@[k]).id),
                        decreases dir.files@.len() - f,
                    {
                        let path = join_path(&dir.name, &dir.files[f].name);
                        let e = Entry { id: EntryId { dir: d, file: f }, path };
                        proof { lemma_entry_views_push(out@, e); }
                        out.push(e);
                        assert(entry_views(out@) =~= head + tes4_dir_entries(d as int, *dir, f + 1));
                        f = f + 1;
                    }
                    proof {
                        assert(ds.take(d + 1).drop_last() =~= ds.take(d as int));
                        assert(ds.take(d + 1).last() == *dir);
                    }
                    d = d + 1;
                }
                assert(ds.take(d as int) =~= ds);
            },
            Archive::Fo4(t) => {
                let mut i: usize = 0;
                while i < t.files.len()
                    invariant
                        *self == Archive::Fo4(*t),
                        i <= t.files@.len(),
                        entry_views(out@) == entries_spec(*self).take(i as int),
                        forall|k: int| 0 <= k < out@.len() ==> valid_entry(*self, (#[trigger] out@[k]).id),
                    decreases t.files@.len() - i,
                {
                    let path = match &t.files[i].name {
                        Some(n) => crate::bytes::slice_to_vec_bytes(n.as_slice()),
                        None => Vec::new(),
                    };
                    let e = Entry { id: EntryId { dir: 0, file: i }, path };
                    proof { lemma_entry_views_push(out@, e); }
                    out.push(e);
                    assert(entry_views(out@) =~= entries_spec(*self).take(i + 1));
                    i = i + 1;
                }
                assert(entries_spec(*self).take(i as int) =~= entries_spec(*self));
            },
        }
        out
    }

    /// The contents of an entry, read from the archive bytes `bytes`.
    pub fn extract(&self, bytes: &[u8], e: EntryId) -> (r: Result<Vec<u8>, Error>)
        requires
            valid_entry(*self, e),
        ensures
            match *self {
                Archive::Tes3(t) => {
                    let f = t.files@[e.file as int];
                    match r {
                        Ok(v) => f.offset + f.size <= bytes@.len()
                            && v@ == bytes@.subrange(f.offset as int, f.offset + f.size),
                        Err(err) => err == Error::Read(ArchiveReadError::BadOffset),
                    }
                },
                Archive::Fo4(t) => match r {
                    Ok(v) => crate::fo4::file_contents(bytes@, t.files@[e.file as int].chunks@) == Some(v@),
                    Err(err) => err == Error::Compression
                        && crate::fo4::file_contents(bytes@, t.files@[e.file as int].chunks@) is None,
                },
                Archive::Tes4(t) => {
                    let c = crate::tes4::file_contents_spec(bytes@, t.directories@[e.dir as int].files@[e.file as int],
                        t.header.version != crate::tes4::Version::V103
                            && t.header.archive_flags & crate::tes4::EMBED_FILENAMES != 0,
                        crate::tes4::codec_of(t.header.version));
                    match r {
                        Ok(v) => c == Some(v@),
                        Err(_) => c is None,
                    }
                },
            },
    {
        match self {
            Archive::Tes3(t) => match t.file_data(bytes, e.file) {
                Ok(s) => Ok(crate::bytes::slice_to_vec_bytes(s)),
                Err(err) => Err(Error::Read(err)),
            },
            Archive::Tes4(t) => t.extract(bytes, e.dir, e.file),
            Archive::Fo4(t) => match t.extract(bytes, e.file) {
                Some(v) => Ok(v),
                None => Err(Error::Compression),
            },
        }
    }
}

} // verus!
