//! The Windows-1252 character set: the encoding of every string stored in an archive.

use vstd::prelude::*;
use vstd::std_specs::iter::IteratorSpec;

verus! {

/// Whether the byte `v` (0x80..0x9F) is one that Windows-1252 assigns to a
/// character outside Latin-1.
pub open spec fn is_remapped(v: u32) -> bool {
    v == 0x80 || v == 0x82 || v == 0x83 || v == 0x84 || v == 0x85 || v == 0x86 || v == 0x87 || v == 0x88 || v == 0x89 || v == 0x8A || v == 0x8B || v == 0x8C || v == 0x8E || v == 0x91 || v == 0x92 || v == 0x93 || v == 0x94 || v == 0x95 || v == 0x96 || v == 0x97 || v == 0x98 || v == 0x99 || v == 0x9A || v == 0x9B || v == 0x9C || v == 0x9E || v == 0x9F
}

/// The character that a Windows-1252 byte stands for. Bytes that Windows-1252
/// does not remap stand for the code point of the same value.
pub open spec fn decode_spec(b: u8) -> char {
    match b {
            0x80 => '\u{20AC}',
            0x82 => '\u{201A}',
            0x83 => '\u{0192}',
            0x84 => '\u{201E}',
            0x85 => '\u{2026}',
            0x86 => '\u{2020}',
            0x87 => '\u{2021}',
            0x88 => '\u{02C6}',
            0x89 => '\u{2030}',
            0x8A => '\u{0160}',
            0x8B => '\u{2039}',
            0x8C => '\u{0152}',
            0x8E => '\u{017D}',
            0x91 => '\u{2018}',
            0x92 => '\u{2019}',
            0x93 => '\u{201C}',
            0x94 => '\u{201D}',
            0x95 => '\u{2022}',
            0x96 => '\u{2013}',
            0x97 => '\u{2014}',
            0x98 => '\u{02DC}',
            0x99 => '\u{2122}',
            0x9A => '\u{0161}',
            0x9B => '\u{203A}',
            0x9C => '\u{0153}',
            0x9E => '\u{017E}',
            0x9F => '\u{0178}',
            _ => b as char,
    }
}

/// The Windows-1252 byte of a character, if it has one.
pub open spec fn encode_spec(c: char) -> Option<u8> {
    if (c as u32) <= 0xFF && !is_remapped(c as u32) {
        Some(c as u32 as u8)
    } else {
        match c {
            '\u{20AC}' => Some(0x80u8),
            '\u{201A}' => Some(0x82u8),
            '\u{0192}' => Some(0x83u8),
            '\u{201E}' => Some(0x84u8),
            '\u{2026}' => Some(0x85u8),
            '\u{2020}' => Some(0x86u8),
            '\u{2021}' => Some(0x87u8),
            '\u{02C6}' => Some(0x88u8),
            '\u{2030}' => Some(0x89u8),
            '\u{0160}' => Some(0x8Au8),
            '\u{2039}' => Some(0x8Bu8),
            '\u{0152}' => Some(0x8Cu8),
            '\u{017D}' => Some(0x8Eu8),
            '\u{2018}' => Some(0x91u8),
            '\u{2019}' => Some(0x92u8),
            '\u{201C}' => Some(0x93u8),
            '\u{201D}' => Some(0x94u8),
            '\u{2022}' => Some(0x95u8),
            '\u{2013}' => Some(0x96u8),
            '\u{2014}' => Some(0x97u8),
            '\u{02DC}' => Some(0x98u8),
            '\u{2122}' => Some(0x99u8),
            '\u{0161}' => Some(0x9Au8),
            '\u{203A}' => Some(0x9Bu8),
            '\u{0153}' => Some(0x9Cu8),
            '\u{017E}' => Some(0x9Eu8),
            '\u{0178}' => Some(0x9Fu8),
            _ => None,
        }
    }
}

/// Decodes one Windows-1252 byte.
pub fn decode(b: u8) -> (r: char)
    ensures
        r == decode_spec(b),
{
    match b {
            0x80 => '\u{20AC}',
            0x82 => '\u{201A}',
            0x83 => '\u{0192}',
            0x84 => '\u{201E}',
            0x85 => '\u{2026}',
            0x86 => '\u{2020}',
            0x87 => '\u{2021}',
            0x88 => '\u{02C6}',
            0x89 => '\u{2030}',
            0x8A => '\u{0160}',
            0x8B => '\u{2039}',
            0x8C => '\u{0152}',
            0x8E => '\u{017D}',
            0x91 => '\u{2018}',
            0x92 => '\u{2019}',
            0x93 => '\u{201C}',
            0x94 => '\u{201D}',
            0x95 => '\u{2022}',
            0x96 => '\u{2013}',
            0x97 => '\u{2014}',
            0x98 => '\u{02DC}',
            0x99 => '\u{2122}',
            0x9A => '\u{0161}',
            0x9B => '\u{203A}',
            0x9C => '\u{0153}',
            0x9E => '\u{017E}',
            0x9F => '\u{0178}',
        _ => b as char,
    }
}

/// Encodes one character as Windows-1252, or `None` where the character set lacks it.
pub fn encode(c: char) -> (r: Option<u8>)
    ensures
        r == encode_spec(c),
{
    let v = c as u32;
    if v <= 0xFF && !(v == 0x80 || v == 0x82 || v == 0x83 || v == 0x84 || v == 0x85 || v == 0x86 || v == 0x87 || v == 0x88 || v == 0x89 || v == 0x8A || v == 0x8B || v == 0x8C || v == 0x8E || v == 0x91 || v == 0x92 || v == 0x93 || v == 0x94 || v == 0x95 || v == 0x96 || v == 0x97 || v == 0x98 || v == 0x99 || v == 0x9A || v == 0x9B || v == 0x9C || v == 0x9E || v == 0x9F) {
        Some(v as u8)
    } else {
        match c {
            '\u{20AC}' => Some(0x80u8),
            '\u{201A}' => Some(0x82u8),
            '\u{0192}' => Some(0x83u8),
            '\u{201E}' => Some(0x84u8),
            '\u{2026}' => Some(0x85u8),
            '\u{2020}' => Some(0x86u8),
            '\u{2021}' => Some(0x87u8),
            '\u{02C6}' => Some(0x88u8),
            '\u{2030}' => Some(0x89u8),
            '\u{0160}' => Some(0x8Au8),
            '\u{2039}' => Some(0x8Bu8),
            '\u{0152}' => Some(0x8Cu8),
            '\u{017D}' => Some(0x8Eu8),
            '\u{2018}' => Some(0x91u8),
            '\u{2019}' => Some(0x92u8),
            '\u{201C}' => Some(0x93u8),
            '\u{201D}' => Some(0x94u8),
            '\u{2022}' => Some(0x95u8),
            '\u{2013}' => Some(0x96u8),
            '\u{2014}' => Some(0x97u8),
            '\u{02DC}' => Some(0x98u8),
            '\u{2122}' => Some(0x99u8),
            '\u{0161}' => Some(0x9Au8),
            '\u{203A}' => Some(0x9Bu8),
            '\u{0153}' => Some(0x9Cu8),
            '\u{017E}' => Some(0x9Eu8),
            '\u{0178}' => Some(0x9Fu8),
            _ => None,
        }
    }
}

/// Encoding a decoded byte gives the byte back.
pub proof fn lemma_encode_decode(b: u8)
    ensures
        encode_spec(decode_spec(b)) == Some(b),
{
}

/// The lowercase form of a Windows-1252 byte: `A..Z`, `Š Œ Ž` and `À..Þ` but `×`
/// fold to their lowercase counterparts, every other byte is kept.
pub open spec fn lower_spec(b: u8) -> u8 {
    if 0x41 <= b <= 0x5A {
        (b + 0x20) as u8
    } else if b == 0x8A || b == 0x8C || b == 0x8E {
        (b + 0x10) as u8
    } else if 0xC0 <= b <= 0xDE && b != 0xD7 {
        (b + 0x20) as u8
    } else {
        b
    }
}

/// Folds a Windows-1252 byte to lowercase.
pub fn to_lowercase(b: u8) -> (r: u8)
    ensures
        r == lower_spec(b),
{
    if 0x41 <= b && b <= 0x5A {
        b + 0x20
    } else if b == 0x8A || b == 0x8C || b == 0x8E {
        b + 0x10
    } else if 0xC0 <= b && b <= 0xDE && b != 0xD7 {
        b + 0x20
    } else {
        b
    }
}

/// Whether every character of `s` has a Windows-1252 byte.
pub open spec fn encodable(s: Seq<char>) -> bool {
    forall|i: int| 0 <= i < s.len() ==> (#[trigger] encode_spec(s[i])) is Some
}

/// The Windows-1252 bytes of an encodable character sequence.
pub open spec fn encode_seq(s: Seq<char>) -> Seq<u8> {
    s.map_values(|c: char| encode_spec(c)->0)
}

/// Appends the Windows-1252 bytes of `s` to `buf`; `None` where a character has none,
/// in which case `buf` holds the bytes of the characters before it.
pub fn decode_into(s: &str, buf: &mut Vec<u8>) -> (r: Option<()>)
    ensures
        r is Some <==> encodable(s@),
        r is Some ==> final(buf)@ == old(buf)@ + encode_seq(s@),
{
    let ghost start = buf@;
    let mut it = s.chars();
    let ghost n = s@.len();
    let ghost mut k: int = 0;
    loop
        invariant
            it.remaining() == s@.skip(k),
            0 <= k <= n,
            n == s@.len(),
            buf@ == start + encode_seq(s@.take(k)),
            encodable(s@.take(k)),
            start == old(buf)@,
        decreases n - k,
    {
        match it.next() {
            Some(c) => {
                assert(c == s@[k]);
                match encode(c) {
                    Some(b) => {
                        buf.push(b);
                        proof {
                            assert(s@.take(k + 1) =~= s@.take(k).push(c));
                            assert(encode_seq(s@.take(k + 1)) =~= encode_seq(s@.take(k)).push(b));
                            assert(s@.skip(k + 1) =~= s@.skip(k).drop_first());
                        }
                        proof {
                            k = k + 1;
                        }
                    },
                    None => {
                        return None;
                    },
                }
            },
            None => {
                assert(s@.skip(k).len() == 0);
                assert(s@.take(k) =~= s@);
                assert(buf@ == start + encode_seq(s@));
                return Some(());
            },
        }
    }
}

/// The Windows-1252 bytes of `s`; `None` where a character has none.
pub fn from_str(s: &str) -> (r: Option<Vec<u8>>)
    ensures
        r is Some <==> encodable(s@),
        r is Some ==> r->0@ == encode_seq(s@),
{
    let mut buf: Vec<u8> = Vec::new();
    match decode_into(s, &mut buf) {
        Some(()) => {
            assert(buf@ =~= encode_seq(s@));
            Some(buf)
        },
        None => None,
    }
}

/// The Windows-1252 bytes of `s`; `None` where a character has none.
pub fn from_string(s: String) -> (r: Option<Vec<u8>>)
    ensures
        r is Some <==> encodable(s@),
        r is Some ==> r->0@ == encode_seq(s@),
{
    from_str(s.as_str())
}

/// The characters of Windows-1252 bytes.
pub open spec fn decode_seq(b: Seq<u8>) -> Seq<char> {
    b.map_values(|x: u8| decode_spec(x))
}

/// Decodes Windows-1252 bytes; every byte has a character.
pub fn decode_bytes(b: &[u8]) -> (r: Vec<char>)
    ensures
        r@ == decode_seq(b@),
{
    let mut out: Vec<char> = Vec::new();
    let mut i: usize = 0;
    while i < b.len()
        invariant
            i <= b@.len(),
            out@ == decode_seq(b@.take(i as int)),
        decreases b@.len() - i,
    {
        out.push(decode(b[i]));
        proof {
            assert(decode_seq(b@.take(i + 1)) =~= decode_seq(b@.take(i as int)).push(decode_spec(b@[i as int])));
        }
        i = i + 1;
    }
    assert(b@.take(i as int) =~= b@);
    out
}

/// A string held as Windows-1252 bytes.
#[derive(Debug, Clone, PartialEq, Eq, Hash)]
pub struct Win1252String {
    bytes: Vec<u8>,
}

impl View for Win1252String {
    type V = Seq<u8>;

    closed spec fn view(&self) -> Seq<u8> {
        self.bytes@
    }
}

impl Win1252String {
    /// The empty string.
    pub fn new() -> (r: Win1252String)
        ensures
            r@.len() == 0,
    {
        Win1252String { bytes: Vec::new() }
    }

    /// The string of the given bytes.
    pub fn from_bytes(bytes: Vec<u8>) -> (r: Win1252String)
        ensures
            r@ == bytes@,
    {
        Win1252String { bytes }
    }

    /// The string of a Unicode string; `None` where a character has no byte.
    pub fn try_from_str(s: &str) -> (r: Option<Win1252String>)
        ensures
            r is Some <==> encodable(s@),
            r is Some ==> r->0@ == encode_seq(s@),
    {
        match from_str(s) {
            Some(b) => Some(Win1252String { bytes: b }),
            None => None,
        }
    }

    /// The characters of the string.
    pub fn chars(&self) -> (r: Vec<char>)
        ensures
            r@ == decode_seq(self@),
    {
        decode_bytes(self.bytes.as_slice())
    }

    /// The bytes of the string.
    pub fn as_bytes(&self) -> (r: &[u8])
        ensures
            r@ == self@,
    {
        self.bytes.as_slice()
    }

    /// The bytes of the string, taken.
    pub fn into_bytes(self) -> (r: Vec<u8>)
        ensures
            r@ == self@,
    {
        self.bytes
    }
}

/// Decoding then encoding gives back the bytes: every Windows-1252 string
/// converts to Unicode and back unchanged.
pub proof fn lemma_decode_encode_seq(b: Seq<u8>)
    ensures
        encodable(decode_seq(b)),
        encode_seq(decode_seq(b)) == b,
{
    assert forall|i: int| 0 <= i < b.len() implies (#[trigger] encode_spec(decode_seq(b)[i])) is Some by {
        lemma_encode_decode(b[i]);
    }
    assert forall|i: int| 0 <= i < b.len() implies #[trigger] encode_seq(decode_seq(b))[i] == b[i] by {
        lemma_encode_decode(b[i]);
    }
    assert(encode_seq(decode_seq(b)) =~= b);
}

} // verus!
