use bsa::fo4::parse_fo4;
use bsa::tes4::{parse_tes4, split, FileRecord, FileSize, Version};
use bsa::tes4_writer::Tes4Writer;
use bsa::ArchiveReadError;

#[test]
fn size_word_keeps_low_thirty_bits() {
    let r = FileRecord { hash: bsa::tes4_hash::Hash { last: 0, last2: 0, len: 0, first: 0, crc: 0 }, size_word: 0x8000_0010, offset: 0 };
    assert_eq!(r.size(), 0x10);
    assert!(!r.negate_compression());
    let r2 = FileRecord { size_word: 0x4000_0020, ..r };
    assert_eq!(r2.size(), 0x20);
    assert!(r2.negate_compression());
    assert!(FileSize::new(0x4000_0000, false).is_none());
    let s = FileSize::new(7, true).unwrap();
    assert_eq!(s.get(), 7);
    assert!(s.compression_inverted());
}

#[test]
fn tes4_split_forms() {
    assert_eq!(split(b"textures\\dirt.dds"), (&b"textures"[..], Some(&b"dirt.dds"[..])));
    assert_eq!(split(b"a\\b\\c"), (&b"a\\b"[..], Some(&b"c"[..])));
    assert_eq!(split(b"hello"), (&b"hello"[..], None));
    assert_eq!(split(b""), (&b""[..], None));
}

#[test]
fn tes4_rejects_inconsistent_name_lengths() {
    let mut w = Tes4Writer::new(Version::V104);
    w.add("meshes/a.nif", vec![1, 2]).unwrap();
    let mut bytes = w.write().unwrap();
    assert!(parse_tes4(&bytes).is_ok());
    bytes[24] = bytes[24].wrapping_add(1);
    assert_eq!(parse_tes4(&bytes).unwrap_err(), ArchiveReadError::BadArchive);
}

#[test]
fn fo4_without_string_table_has_no_names() {
    let mut b = Vec::new();
    b.extend_from_slice(b"BTDX");
    b.extend_from_slice(&1u32.to_le_bytes());
    b.extend_from_slice(b"GNRL");
    b.extend_from_slice(&1u32.to_le_bytes());
    b.extend_from_slice(&0u64.to_le_bytes());
    b.extend_from_slice(&[1, 0, 0, 0, 2, 0, 0, 0, 3, 0, 0, 0, 0, 1]);
    b.extend_from_slice(&0x10u16.to_le_bytes());
    let at = (b.len() + 20) as u64;
    b.extend_from_slice(&at.to_le_bytes());
    b.extend_from_slice(&0u32.to_le_bytes());
    b.extend_from_slice(&2u32.to_le_bytes());
    b.extend_from_slice(&0xBAADF00Du32.to_le_bytes());
    b.extend_from_slice(&[4, 5]);
    let a = parse_fo4(&b).unwrap();
    assert!(a.files[0].name.is_none());
    assert_eq!(a.extract(&b, 0).unwrap(), vec![4, 5]);
    let mut bad = b.clone();
    bad[24 + 14] = 0x18;
    assert_eq!(parse_fo4(&bad).unwrap_err(), bsa::fo4::ReadError::InvalidChunkSize);
    assert_eq!(parse_fo4(&b[..40]).unwrap_err(), bsa::fo4::ReadError::Eof);
}
