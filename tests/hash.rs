use bsa::path::{split, split_extension};
use bsa::tes4_hash::{hash_directory_name, hash_file_name};

fn h(last: u8, last2: u8, len: u8, first: u8, crc: u32) -> bsa::tes4_hash::Hash {
    bsa::tes4_hash::Hash { last, last2, len, first, crc }
}

#[test]
fn test_hash_file_name() {
    let cases: &[(&[u8], Option<bsa::tes4_hash::Hash>)] = &[
        (b"fxambblowingfog01.nif", Some(h(49, 176, 17, 102, 17588009))),
        (b"dog.dds", Some(h(231, 239, 3, 100, 2379983301))),
    ];
    for &(name, hash) in cases {
        assert_eq!(bsa::tes4_hash::Hash::from_filename(name), hash);
    }
}

#[test]
fn tests_test_hash_file_name() {
    let cases: &[(&str, Option<bsa::tes4_hash::Hash>)] = &[
        ("fxambblowingfog01.nif", Some(h(49, 176, 17, 102, 17588009))),
        ("dog.dds", Some(h(231, 239, 3, 100, 2379983301))),
    ];
    for &(name, hash) in cases {
        assert_eq!(hash_file_name(name), hash);
    }
}

#[test]
fn test_hash_dir_name() {
    let cases: &[(&[u8], Option<bsa::tes4_hash::Hash>)] =
        &[(b"meshes\\dungeons\\mines\\caveshaft", Some(h(116, 102, 31, 109, 743299860)))];
    for &(name, hash) in cases {
        assert_eq!(bsa::tes4_hash::Hash::from_dirname(name), hash);
    }
}

#[test]
fn test_hash_directory_name() {
    let long: String = (0..50)
        .map(|_| "this/is/a/name/that/exceeds/maximum/path/length/limitations/")
        .collect();
    let expected = Some(h(116, 102, 31, 109, 743299860));
    let cases: Vec<(&str, Option<bsa::tes4_hash::Hash>)> = vec![
        ("meshes/dungeons/mines/caveshaft", expected),
        ("meshes\\dungeons\\mines\\caveshaft", expected),
        ("meshes/DUNGEONS\\mines\\CAVEshaft", expected),
        ("meshes/DUNGEONS\\\\\\mines\\CAVEshaft/", expected),
        ("meshes/../dungeons/caveshaft", None),
        ("/meshes/", None),
        ("meshes/🚀", None),
        ("meshes/./caves", None),
        ("", None),
        (long.as_str(), None),
    ];
    for (name, hash) in cases {
        assert_eq!(hash_directory_name(name), hash);
    }
}

#[test]
fn test_split() {
    let cases: &[(&[u8], (&[u8], &[u8]))] = &[
        (b"", (b"", b"")),
        (b"hello", (b"", b"hello")),
        (b"textures\\dirt.dds", (b"textures", b"dirt.dds")),
        (b"textures\\ground\\dirt.dds", (b"textures\\ground", b"dirt.dds")),
    ];
    for &(path, result) in cases {
        assert_eq!(split(path), result);
    }
}

#[test]
fn test_split_extension() {
    let cases: &[(&[u8], (&[u8], &[u8]))] = &[
        (b"", (b"", b"")),
        (b"hello", (b"hello", b"")),
        (b"dirt.dds", (b"dirt", b".dds")),
    ];
    for &(path, result) in cases {
        assert_eq!(split_extension(path), result);
    }
}
