use bsa::bytes::{find_byte, read_wstring, Bytes};
use bsa::path::normalize;
use bsa::tes4_hash::hash_file_path;
use bsa::windows_1252::{decode, decode_into, encode, to_lowercase};
use bsa::ArchiveReadError;

#[test]
fn windows_1252_round_trips() {
    for b in 0..=255u8 {
        assert_eq!(encode(decode(b)), Some(b));
    }
    assert_eq!(decode(0x80), '€');
    assert_eq!(encode('€'), Some(0x80));
    assert_eq!(encode('🚀'), None);
    assert_eq!(to_lowercase(b'A'), b'a');
    assert_eq!(to_lowercase(0x8A), 0x9A);
    assert_eq!(to_lowercase(0xC0), 0xE0);
    assert_eq!(to_lowercase(0xD7), 0xD7);
    assert_eq!(to_lowercase(0xDF), 0xDF);
    let mut buf = Vec::new();
    assert_eq!(decode_into("Àb€", &mut buf), Some(()));
    assert_eq!(buf, vec![0xC0, b'b', 0x80]);
    assert_eq!(decode_into("🚀", &mut buf), None);
}

#[test]
fn normalize_paths() {
    assert_eq!(normalize("Meshes//Foo\\BAR.nif/").unwrap(), b"meshes\\foo\\bar.nif".to_vec());
    assert_eq!(normalize("Š/À").unwrap(), vec![0x9A, b'\\', 0xE0]);
    assert!(normalize("a/\u{0}b").is_none());
    assert!(normalize("\\a").is_none());
    assert!(normalize("a/..").is_none());
    assert_eq!(normalize("").unwrap(), Vec::<u8>::new());
    let ok: String = "a".repeat(259);
    assert_eq!(normalize(&ok).unwrap().len(), 259);
    let too_long: String = "a".repeat(260);
    assert!(normalize(&too_long).is_none());
}

#[test]
fn file_path_hashes() {
    let (d, f) = hash_file_path("meshes/dungeons/mines/caveshaft/fxambblowingfog01.nif").unwrap();
    assert_eq!(Some(d), bsa::tes4_hash::hash_directory_name("meshes\\dungeons\\mines\\caveshaft"));
    assert_eq!(Some(f), bsa::tes4_hash::hash_file_name("fxambblowingfog01.nif"));
    assert!(hash_file_path("noparent.nif").is_none());
    assert!(bsa::tes4_hash::hash_file_name("a/b.nif").is_none());
    assert!(bsa::tes4_hash::Hash::from_filename(b".nif").is_none());
    assert!(bsa::tes4_hash::Hash::from_filename(b"a.0123456789abcdef").is_none());
}

#[test]
fn hash_bytes_round_trip() {
    let h = bsa::tes4_hash::Hash { last: 1, last2: 2, len: 3, first: 4, crc: 0x0807_0605 };
    assert_eq!(h.to_bytes(), [1, 2, 3, 4, 5, 6, 7, 8]);
    assert_eq!(bsa::tes4_hash::Hash::from_bytes(h.to_bytes()), h);
    assert_eq!(h.to_u64(), 0x0807_0605_0403_0201);
    assert_eq!(bsa::tes4_hash::Hash::from_u64(h.to_u64()), h);
    assert_eq!(bsa::tes4_hash::crc32(b"ab"), 0x61 * 0x1003F + 0x62);
}

#[test]
fn cursor_reads() {
    let data = [3u8, b'a', b'b', 0, 2, 0, b'x', b'y', b'z', 0, 9];
    let mut c = Bytes::new(&data);
    assert_eq!(c.read_bzstring().unwrap(), b"ab");
    let mut w = Bytes::new(&data[4..]);
    assert_eq!(read_wstring(&mut w).unwrap(), b"xy");
    assert_eq!(w.read_zstring().unwrap(), b"z");
    assert_eq!(w.read_u8().unwrap(), 9);
    assert!(w.read_u8().is_err());
    let mut e = Bytes::new(&[2u8, 0, b'a']);
    assert_eq!(e.read_bstring().unwrap_err(), ArchiveReadError::EmbeddedNul);
    let mut m = Bytes::new(&[2u8, b'a', b'b']);
    assert_eq!(m.read_bzstring().unwrap_err(), ArchiveReadError::MissingNul);
    let mut s = Bytes::new(&[5u8, b'a']);
    assert_eq!(s.read_bstring().unwrap_err(), ArchiveReadError::BadArchive);
    assert_eq!(find_byte(b'z', b"xyz"), Some(2));
    let mut k = Bytes::new(&[1u8, 2, 3, 4, 5, 6, 7, 8]);
    assert_eq!(k.peek_bytes(2).unwrap(), &[1, 2]);
    assert_eq!(k.read_u64().unwrap(), 0x0807_0605_0403_0201);
    assert!(k.skip(1).is_err());
}
