//! A bounded cursor over a byte slice, with little-endian integer and archive
//! string readers.

use crate::{ArchiveReadError, ReadBytesError};
use vstd::prelude::*;
use vstd::slice::slice_subrange;

verus! {

/// The little-endian value of the first two bytes of `s`.
pub open spec fn le16(s: Seq<u8>) -> int {
    s[0] as int + s[1] as int * 0x100
}

/// The little-endian value of the first four bytes of `s`.
pub open spec fn le32(s: Seq<u8>) -> int {
    s[0] as int + s[1] as int * 0x100 + s[2] as int * 0x1_0000 + s[3] as int * 0x100_0000
}

/// The little-endian value of the first eight bytes of `s`.
pub open spec fn le64(s: Seq<u8>) -> int {
    le32(s) + le32(s.subrange(4, 8)) * 0x1_0000_0000
}

/// Finds the first occurrence of `needle` in `hay`.
pub fn find_byte(needle: u8, hay: &[u8]) -> (r: Option<usize>)
    ensures
        match r {
            Some(i) => i < hay@.len() && hay@[i as int] == needle
                && forall|j: int| 0 <= j < i ==> hay@[j] != needle,
            None => forall|j: int| 0 <= j < hay@.len() ==> hay@[j] != needle,
        },
{
    let mut i: usize = 0;
    while i < hay.len()
        invariant
            i <= hay@.len(),
            forall|j: int| 0 <= j < i ==> hay@[j] != needle,
        decreases hay@.len() - i,
    {
        if hay[i] == needle {
            return Some(i);
        }
        i = i + 1;
    }
    None
}

/// The error of a read past the end of a cursor.
#[derive(Debug, Clone, Copy, PartialEq, Eq, Structural)]
pub struct EofError;

/// A cursor over the bytes that remain to be read.
#[derive(Clone, Copy)]
pub struct Bytes<'a> {
    buf: &'a [u8],
}

impl<'a> View for Bytes<'a> {
    type V = Seq<u8>;

    closed spec fn view(&self) -> Seq<u8> {
        self.buf@
    }
}

impl<'a> Bytes<'a> {
    /// A cursor at the start of `buf`.
    pub fn new(buf: &'a [u8]) -> (r: Bytes<'a>)
        ensures
            r@ == buf@,
    {
        Bytes { buf }
    }

    /// The number of bytes left.
    pub fn len(&self) -> (r: usize)
        ensures
            r == self@.len(),
    {
        self.buf.len()
    }

    /// The bytes left, as a slice.
    pub fn as_slice(&self) -> (r: &'a [u8])
        ensures
            r@ == self@,
    {
        self.buf
    }

    /// Advances past `n` bytes; fails, moving nothing, where fewer remain.
    pub fn skip(&mut self, n: usize) -> (r: Result<(), EofError>)
        ensures
            r is Err <==> old(self)@.len() < n,
            r is Ok ==> final(self)@ == old(self)@.skip(n as int),
            r is Err ==> final(self)@ == old(self)@,
    {
        if self.buf.len() < n {
            Err(EofError)
        } else {
            self.buf = slice_subrange(self.buf, n, self.buf.len());
            Ok(())
        }
    }

    /// Reads the next `n` bytes; fails, moving nothing, where fewer remain.
    pub fn read_bytes(&mut self, n: usize) -> (r: Result<&'a [u8], EofError>)
        ensures
            r is Err <==> old(self)@.len() < n,
            r is Ok ==> r->Ok_0@ == old(self)@.take(n as int)
                && final(self)@ == old(self)@.skip(n as int),
            r is Err ==> final(self)@ == old(self)@,
    {
        if self.buf.len() < n {
            Err(EofError)
        } else {
            let head = slice_subrange(self.buf, 0, n);
            self.buf = slice_subrange(self.buf, n, self.buf.len());
            Ok(head)
        }
    }

    /// The next `n` bytes, without moving.
    pub fn peek_bytes(&self, n: usize) -> (r: Result<&'a [u8], EofError>)
        ensures
            r is Err <==> self@.len() < n,
            r is Ok ==> r->Ok_0@ == self@.take(n as int),
    {
        let mut temp = *self;
        temp.read_bytes(n)
    }

    /// Reads one byte.
    pub fn read_u8(&mut self) -> (r: Result<u8, ReadBytesError>)
        ensures
            r is Err <==> old(self)@.len() < 1,
            r is Ok ==> r->Ok_0 == old(self)@[0] && final(self)@ == old(self)@.skip(1),
            r is Err ==> final(self)@ == old(self)@,
    {
        if self.buf.len() < 1 {
            return Err(ReadBytesError::Eof);
        }
        let b = self.buf[0];
        self.buf = slice_subrange(self.buf, 1, self.buf.len());
        Ok(b)
    }

    /// Reads a little-endian `u16`.
    pub fn read_u16(&mut self) -> (r: Result<u16, ReadBytesError>)
        ensures
            r is Err <==> old(self)@.len() < 2,
            r is Ok ==> r->Ok_0 == le16(old(self)@) && final(self)@ == old(self)@.skip(2),
            r is Err ==> final(self)@ == old(self)@,
    {
        if self.buf.len() < 2 {
            return Err(ReadBytesError::Eof);
        }
        let v = self.buf[0] as u16 + self.buf[1] as u16 * 0x100;
        self.buf = slice_subrange(self.buf, 2, self.buf.len());
        Ok(v)
    }

    /// Reads a little-endian `u32`.
    pub fn read_u32(&mut self) -> (r: Result<u32, ReadBytesError>)
        ensures
            r is Err <==> old(self)@.len() < 4,
            r is Ok ==> r->Ok_0 == le32(old(self)@) && final(self)@ == old(self)@.skip(4),
            r is Err ==> final(self)@ == old(self)@,
    {
        if self.buf.len() < 4 {
            return Err(ReadBytesError::Eof);
        }
        let v = read_le32(self.buf);
        self.buf = slice_subrange(self.buf, 4, self.buf.len());
        Ok(v)
    }

    /// Reads a little-endian `u64`.
    pub fn read_u64(&mut self) -> (r: Result<u64, ReadBytesError>)
        ensures
            r is Err <==> old(self)@.len() < 8,
            r is Ok ==> r->Ok_0 == le64(old(self)@) && final(self)@ == old(self)@.skip(8),
            r is Err ==> final(self)@ == old(self)@,
    {
        if self.buf.len() < 8 {
            return Err(ReadBytesError::Eof);
        }
        let lo = read_le32(self.buf);
        let rest = slice_subrange(self.buf, 4, 8);
        let hi = read_le32(rest);
        self.buf = slice_subrange(self.buf, 8, self.buf.len());
        Ok(lo as u64 + hi as u64 * 0x1_0000_0000)
    }

    /// Reads a string with a one-byte length prefix and no terminator; the string
    /// may hold no NUL. A short read is a malformed archive.
    pub fn read_bstring(&mut self) -> (r: Result<&'a [u8], ArchiveReadError>)
        ensures
            seq_result(r) == bstring_result(old(self)@),
            r is Ok ==> final(self)@ == old(self)@.skip(1 + old(self)@[0]),
    {
        let s = read_bstring_bytes(self)?;
        match find_byte(0, s) {
            Some(_) => Err(ArchiveReadError::EmbeddedNul),
            None => Ok(s),
        }
    }

    /// Reads a string with a one-byte length prefix whose last byte, and only that
    /// one, is a NUL; returns it without the NUL.
    pub fn read_bzstring(&mut self) -> (r: Result<&'a [u8], ArchiveReadError>)
        ensures
            seq_result(r) == bzstring_result(old(self)@),
            r is Ok ==> final(self)@ == old(self)@.skip(1 + old(self)@[0]),
    {
        let s = read_bstring_bytes(self)?;
        match find_byte(0, s) {
            Some(i) => {
                let ghost body = s@;
                if i != s.len() - 1 {
                    assert(body.drop_last()[i as int] == 0);
                    Err(ArchiveReadError::EmbeddedNul)
                } else {
                    let t = slice_subrange(s, 0, i);
                    assert(t@ =~= body.drop_last());
                    Ok(t)
                }
            },
            None => Err(ArchiveReadError::MissingNul),
        }
    }

    /// Reads a NUL-terminated string and returns it without the NUL.
    pub fn read_zstring(&mut self) -> (r: Result<&'a [u8], ArchiveReadError>)
        ensures
            r is Err <==> !has_nul(old(self)@),
            r is Ok ==> {
                let i = r->Ok_0@.len() as int;
                &&& r->Ok_0@ == old(self)@.take(i)
                &&& i < old(self)@.len() && old(self)@[i] == 0
                &&& forall|j: int| 0 <= j < i ==> old(self)@[j] != 0
                &&& final(self)@ == old(self)@.skip(i + 1)
            },
            r is Err ==> r->Err_0 == ArchiveReadError::MissingNul,
    {
        match find_byte(0, self.buf) {
            Some(i) => {
                let n = self.buf.len();
                assert(i < n);
                let s = slice_subrange(self.buf, 0, i);
                self.buf = slice_subrange(self.buf, i + 1, self.buf.len());
                Ok(s)
            },
            None => Err(ArchiveReadError::MissingNul),
        }
    }
}

/// The contents of a slice result.
pub open spec fn seq_result<'a>(r: Result<&'a [u8], ArchiveReadError>) -> Result<Seq<u8>, ArchiveReadError> {
    match r {
        Ok(s) => Ok(s@),
        Err(e) => Err(e),
    }
}

/// Whether `s` holds a NUL byte.
pub open spec fn has_nul(s: Seq<u8>) -> bool {
    exists|j: int| 0 <= j < s.len() && s[j] == 0
}

/// The body of a string with a one-byte length prefix at the start of `s`.
pub open spec fn bstring_body(s: Seq<u8>) -> Seq<u8> {
    s.subrange(1, 1 + s[0])
}

/// What reading a length-prefixed string without terminator from `s` gives.
pub open spec fn bstring_result(s: Seq<u8>) -> Result<Seq<u8>, ArchiveReadError> {
    if s.len() < 1 || s.len() < 1 + s[0] {
        Err(ArchiveReadError::BadArchive)
    } else if has_nul(bstring_body(s)) {
        Err(ArchiveReadError::EmbeddedNul)
    } else {
        Ok(bstring_body(s))
    }
}

/// What reading a length-prefixed, NUL-terminated string from `s` gives.
pub open spec fn bzstring_result(s: Seq<u8>) -> Result<Seq<u8>, ArchiveReadError> {
    if s.len() < 1 || s.len() < 1 + s[0] {
        Err(ArchiveReadError::BadArchive)
    } else if !has_nul(bstring_body(s)) {
        Err(ArchiveReadError::MissingNul)
    } else if has_nul(bstring_body(s).drop_last()) || bstring_body(s).last() != 0 {
        Err(ArchiveReadError::EmbeddedNul)
    } else {
        Ok(bstring_body(s).drop_last())
    }
}

/// Reads the body of a string with a one-byte length prefix.
fn read_bstring_bytes<'a>(bytes: &mut Bytes<'a>) -> (r: Result<&'a [u8], ArchiveReadError>)
    ensures
        r is Err <==> old(bytes)@.len() < 1 || old(bytes)@.len() < 1 + old(bytes)@[0],
        r is Err ==> r->Err_0 == ArchiveReadError::BadArchive,
        r is Ok ==> r->Ok_0@ == bstring_body(old(bytes)@)
            && final(bytes)@ == old(bytes)@.skip(1 + old(bytes)@[0]),
{
    if bytes.buf.len() < 1 {
        return Err(ArchiveReadError::BadArchive);
    }
    let n = bytes.buf[0] as usize;
    if bytes.buf.len() - 1 < n {
        return Err(ArchiveReadError::BadArchive);
    }
    let s = slice_subrange(bytes.buf, 1, 1 + n);
    bytes.buf = slice_subrange(bytes.buf, 1 + n, bytes.buf.len());
    Ok(s)
}

/// The little-endian `u32` at the start of `b`.
pub fn read_le32(b: &[u8]) -> (r: u32)
    requires
        b@.len() >= 4,
    ensures
        r == le32(b@),
{
    b[0] as u32 + b[1] as u32 * 0x100 + b[2] as u32 * 0x1_0000 + b[3] as u32 * 0x100_0000
}

/// Reads a string with a two-byte little-endian length prefix and no terminator.
pub fn read_wstring<'a>(r: &mut Bytes<'a>) -> (out: Result<&'a [u8], ReadBytesError>)
    ensures
        out is Err <==> old(r)@.len() < 2 || old(r)@.len() < 2 + le16(old(r)@),
        out is Ok ==> out->Ok_0@ == old(r)@.subrange(2, 2 + le16(old(r)@))
            && final(r)@ == old(r)@.skip(2 + le16(old(r)@)),
        out is Err ==> final(r)@ == old(r)@,
{
    let mut probe = *r;
    let n = probe.read_u16()?;
    match probe.read_bytes(n as usize) {
        Ok(s) => {
            *r = probe;
            Ok(s)
        },
        Err(_) => Err(ReadBytesError::Eof),
    }
}

/// The four little-endian bytes of `x`.
pub open spec fn le_bytes32(x: u32) -> Seq<u8> {
    seq![(x % 0x100) as u8, (x / 0x100 % 0x100) as u8, (x / 0x1_0000 % 0x100) as u8, (x / 0x100_0000) as u8]
}

/// The two little-endian bytes of `x`.
pub open spec fn le_bytes16(x: u16) -> Seq<u8> {
    seq![(x % 0x100) as u8, (x / 0x100) as u8]
}

/// The eight little-endian bytes of `x`.
pub open spec fn le_bytes64(x: u64) -> Seq<u8> {
    le_bytes32((x % 0x1_0000_0000) as u32) + le_bytes32((x / 0x1_0000_0000) as u32)
}

/// Reading back the bytes of a `u32` gives the `u32`.
pub proof fn lemma_le32_round_trip(x: u32, rest: Seq<u8>)
    ensures
        le32(le_bytes32(x) + rest) == x,
{
    let s = le_bytes32(x) + rest;
    assert(s[0] == (x % 0x100) as u8);
    assert(s[1] == (x / 0x100 % 0x100) as u8);
    assert(s[2] == (x / 0x1_0000 % 0x100) as u8);
    assert(s[3] == (x / 0x100_0000) as u8);
}

/// Reading back the bytes of a `u64` gives the `u64`.
pub proof fn lemma_le64_round_trip(x: u64, rest: Seq<u8>)
    ensures
        le64(le_bytes64(x) + rest) == x,
{
    let lo = (x % 0x1_0000_0000) as u32;
    let hi = (x / 0x1_0000_0000) as u32;
    let s = le_bytes64(x) + rest;
    assert(s =~= le_bytes32(lo) + (le_bytes32(hi) + rest));
    lemma_le32_round_trip(lo, le_bytes32(hi) + rest);
    assert(s.subrange(4, 8) =~= le_bytes32(hi) + Seq::<u8>::empty());
    lemma_le32_round_trip(hi, Seq::<u8>::empty());
}

/// Appends the little-endian bytes of `x`.
pub fn push_u32(v: &mut Vec<u8>, x: u32)
    ensures
        final(v)@ == old(v)@ + le_bytes32(x),
{
    v.push((x % 0x100) as u8);
    v.push((x / 0x100 % 0x100) as u8);
    v.push((x / 0x1_0000 % 0x100) as u8);
    v.push((x / 0x100_0000) as u8);
    assert(v@ =~= old(v)@ + le_bytes32(x));
}

/// Appends the little-endian bytes of `x`.
pub fn push_u16(v: &mut Vec<u8>, x: u16)
    ensures
        final(v)@ == old(v)@ + le_bytes16(x),
{
    v.push((x % 0x100) as u8);
    v.push((x / 0x100) as u8);
    assert(v@ =~= old(v)@ + le_bytes16(x));
}

/// Appends the little-endian bytes of `x`.
pub fn push_u64(v: &mut Vec<u8>, x: u64)
    ensures
        final(v)@ == old(v)@ + le_bytes64(x),
{
    push_u32(v, (x % 0x1_0000_0000) as u32);
    push_u32(v, (x / 0x1_0000_0000) as u32);
    assert(v@ =~= old(v)@ + le_bytes64(x));
}

/// Appends the bytes of `src`.
pub fn push_slice(v: &mut Vec<u8>, src: &[u8])
    ensures
        final(v)@ == old(v)@ + src@,
{
    let mut i: usize = 0;
    while i < src.len()
        invariant
            i <= src@.len(),
            v@ == old(v)@ + src@.take(i as int),
        decreases src@.len() - i,
    {
        v.push(src[i]);
        proof {
            assert(src@.take(i + 1) =~= src@.take(i as int).push(src@[i as int]));
        }
        i = i + 1;
    }
    assert(src@.take(i as int) =~= src@);
}

/// Reads the next `n` bytes into a vector; fails, moving nothing, where fewer remain.
pub fn read_vec(c: &mut Bytes, n: usize) -> (r: Result<Vec<u8>, ReadBytesError>)
    ensures
        r is Err <==> old(c)@.len() < n,
        r is Ok ==> r->Ok_0@ == old(c)@.take(n as int) && final(c)@ == old(c)@.skip(n as int),
        r is Err ==> final(c)@ == old(c)@,
{
    match c.read_bytes(n) {
        Ok(s) => Ok(slice_to_vec_bytes(s)),
        Err(_) => Err(ReadBytesError::Eof),
    }
}

/// A copy of a byte slice.
pub fn slice_to_vec_bytes(s: &[u8]) -> (r: Vec<u8>)
    ensures
        r@ == s@,
{
    let mut v: Vec<u8> = Vec::new();
    push_slice(&mut v, s);
    assert(v@ =~= s@);
    v
}

} // verus!
