use bsa::compress::Codec;
use bsa::read::{open, Archive, RawEntryData};
use bsa::tes3::{parse_tes3, HashTable, Tes3Writer};
use bsa::tes4::{parse_tes4, Version};
use bsa::tes4_writer::Tes4Writer;
use bsa::windows_1252::{from_str, from_string, Win1252String};
use bsa::Error;
use std::io::Write;

#[test]
fn tes3_hash_table_finds_files() {
    let mut w = Tes3Writer::new();
    for (i, name) in ["a/one.dds", "b/two.nif", "c/three.kf", "d/four.wav"].iter().enumerate() {
        w.add(name.as_bytes(), vec![i as u8; i + 1]).unwrap();
    }
    let bytes = w.write().unwrap();
    let a = parse_tes3(&bytes).unwrap();
    let t = HashTable::new(&a);
    for name in ["a/one.dds", "B\\TWO.NIF", "c/three.kf", "d/four.wav"] {
        let i = t.find_by_name(&a, name.as_bytes()).unwrap();
        let expected = ["a\\one.dds", "b\\two.nif", "c\\three.kf", "d\\four.wav"]
            .iter()
            .position(|n| n.as_bytes() == name.to_ascii_lowercase().replace('/', "\\").as_bytes())
            .unwrap();
        assert_eq!(a.file_data(&bytes, i).unwrap(), &vec![expected as u8; expected + 1][..]);
        assert_eq!(t.find_by_hash(&a, a.files[i].hash), Some(i));
    }
    assert_eq!(t.find_by_name(&a, b"e/five.dds"), None);
    assert_eq!(t.find_by_hash(&a, 12345), None);
}

#[test]
fn tes4_find_by_path() {
    let mut w = Tes4Writer::new(Version::V104);
    w.add("meshes/a.nif", vec![1]).unwrap();
    w.add("meshes/b.nif", vec![2]).unwrap();
    w.add("textures/c.dds", vec![3]).unwrap();
    let bytes = w.write().unwrap();
    let a = parse_tes4(&bytes).unwrap();
    let ix = a.find_file_by_name("Meshes\\B.nif").unwrap();
    assert_eq!(a.extract(&bytes, ix.folder, ix.file).unwrap(), vec![2]);
    let ix = a.find_file_by_name("textures/c.dds").unwrap();
    assert_eq!(a.extract(&bytes, ix.folder, ix.file).unwrap(), vec![3]);
    assert!(a.find_file_by_name("textures/d.dds").is_none());
    assert!(a.find_file_by_name("../x.dds").is_none());
}

#[test]
fn archive_entries_and_extract() {
    let mut w = Tes4Writer::new(Version::V105);
    w.set_compressed(true);
    w.add("sound/fx/boom.wav", b"boom boom boom boom".to_vec()).unwrap();
    w.add("meshes/rock.nif", b"rock".to_vec()).unwrap();
    let bytes = w.write().unwrap();
    let a = open(&bytes, None).unwrap();
    let entries = a.entries();
    let mut seen: Vec<(Vec<u8>, Vec<u8>)> =
        entries.iter().map(|e| (e.path.clone(), a.extract(&bytes, e.id).unwrap())).collect();
    seen.sort();
    assert_eq!(
        seen,
        vec![
            (b"meshes\\rock.nif".to_vec(), b"rock".to_vec()),
            (b"sound\\fx\\boom.wav".to_vec(), b"boom boom boom boom".to_vec()),
        ]
    );
    match &a {
        Archive::Tes4(t) => assert_eq!(t.header.file_flags, 0x1 | 0x8),
        _ => panic!("expected a TES4-family archive"),
    }
    let mut t3 = Tes3Writer::new();
    t3.add(b"x/y.txt", b"why".to_vec()).unwrap();
    let b3 = t3.write().unwrap();
    let a3 = open(&b3, None).unwrap();
    let e3 = a3.entries();
    assert_eq!(e3[0].path, b"x\\y.txt".to_vec());
    assert_eq!(a3.extract(&b3, e3[0].id).unwrap(), b"why".to_vec());
    assert!(matches!(open(b"junk", None), Err(Error::Read(_))));
}

#[test]
fn raw_entry_data_lengths() {
    let stored = RawEntryData::from_slice(b"abc");
    assert_eq!(stored.len(), 3);
    assert_eq!(stored.to_slice(), b"abc");
    assert_eq!(stored.into_owned().unwrap(), b"abc".to_vec());
    let mut enc = flate2::write::ZlibEncoder::new(Vec::new(), flate2::Compression::fast());
    enc.write_all(&[5u8; 40]).unwrap();
    let packed = enc.finish().unwrap();
    let z = RawEntryData { data: &packed, uncompressed_len: Some(40), codec: Codec::Zlib };
    assert_eq!(z.len(), 40);
    assert_eq!(z.into_owned().unwrap(), vec![5u8; 40]);
    let wrong = RawEntryData { data: &packed, uncompressed_len: Some(41), codec: Codec::Zlib };
    assert_eq!(wrong.into_owned().unwrap_err(), Error::Compression);
    let garbage = RawEntryData { data: b"not a stream", uncompressed_len: Some(3), codec: Codec::Lz4 };
    assert_eq!(garbage.into_owned().unwrap_err(), Error::Compression);
}

#[test]
fn win1252_strings() {
    assert_eq!(from_str("Œuvre"), Some(vec![0x8C, b'u', b'v', b'r', b'e']));
    assert_eq!(from_string("日本".to_string()), None);
    let s = Win1252String::try_from_str("café").unwrap();
    assert_eq!(s.as_bytes(), &[b'c', b'a', b'f', 0xE9]);
    assert_eq!(s.chars().into_iter().collect::<String>(), "café");
    assert_eq!(Win1252String::from_bytes(vec![0x80]).chars(), vec!['€']);
    assert_eq!(Win1252String::new().into_bytes(), Vec::<u8>::new());
}
