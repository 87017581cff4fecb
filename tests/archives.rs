use bsa::fo4::{parse_fo4, ReadError};
use bsa::read::{detect_format, open, Archive};
use bsa::tes3::{compute_hash, parse_tes3, Tes3Writer};
use bsa::tes4::{parse_tes4, Version};
use bsa::tes4_writer::Tes4Writer;
use bsa::{ArchiveReadError, ArchiveWriteError, Error, Format};
use rayon::iter::{IndexedParallelIterator, IntoParallelRefIterator, ParallelIterator};
use std::io::Write;

fn le32(b: &[u8], at: usize) -> u32 {
    u32::from_le_bytes([b[at], b[at + 1], b[at + 2], b[at + 3]])
}

fn tes3_sample() -> Vec<u8> {
    let mut w = Tes3Writer::new();
    w.add(b"textures/a.dds", vec![0x00, 0x01]).unwrap();
    w.add(b"meshes/b.nif", vec![0xFF]).unwrap();
    w.write().unwrap()
}

#[test]
fn tes3_writer_layout() {
    let bytes = tes3_sample();
    assert_eq!(le32(&bytes, 0), 0x100);
    assert_eq!(le32(&bytes, 8), 2);
    let names_len = "textures\\a.dds".len() + 1 + "meshes\\b.nif".len() + 1;
    let ht = le32(&bytes, 4) as usize;
    assert_eq!(ht, 2 * 8 + 2 * 4 + names_len);
    let hashes_at = 12 + ht;
    let h0 = u64::from_le_bytes(bytes[hashes_at..hashes_at + 8].try_into().unwrap());
    let h1 = u64::from_le_bytes(bytes[hashes_at + 8..hashes_at + 16].try_into().unwrap());
    assert!(h0.rotate_right(32) < h1.rotate_right(32));
    assert_eq!(bytes.len(), 12 + ht + 16 + 3);
}

#[test]
fn tes3_round_trip() {
    let bytes = tes3_sample();
    let a = parse_tes3(&bytes).unwrap();
    assert_eq!(a.files.len(), 2);
    let i = a.find_by_name(b"textures/a.dds").unwrap();
    assert_eq!(a.file_data(&bytes, i).unwrap(), &[0x00, 0x01]);
    let j = a.find_by_name(b"MESHES\\B.NIF").unwrap();
    assert_eq!(a.file_data(&bytes, j).unwrap(), &[0xFF]);
    assert_eq!(a.files[i].name, b"textures\\a.dds".to_vec());
    assert_eq!(a.files[i].hash, compute_hash(b"textures\\a.dds").unwrap().get());
    assert!(a.find_by_name(b"meshes/c.nif").is_none());
}

#[test]
fn tes3_rejects_bad_input() {
    assert_eq!(parse_tes3(&[0u8; 4]).unwrap_err(), ArchiveReadError::BadHeader);
    let mut bytes = tes3_sample();
    bytes[0] = 7;
    assert_eq!(parse_tes3(&bytes).unwrap_err(), ArchiveReadError::InvalidMagic);
    let mut w = Tes3Writer::new();
    assert_eq!(w.add("é.dds".as_bytes(), vec![]).unwrap_err(), ArchiveWriteError::InvalidFileName);
    assert_eq!(w.set_compressed(true).unwrap_err(), ArchiveWriteError::CompressionUnsupported);
}

#[test]
fn tes3_hash_values() {
    let a = compute_hash(b"textures/a.dds").unwrap();
    let b = compute_hash(b"TEXTURES\\A.DDS").unwrap();
    assert_eq!(a, b);
    assert!(compute_hash(b"a\0b").is_none());
    assert_eq!(compute_hash(b"").unwrap().get(), 0);
    let h = compute_hash(b"ab").unwrap().get();
    assert_eq!(h, (b'a' as u64) | (((b'b' as u32).rotate_right(2) as u64) << 32));
}

fn build_tes4(version: Version, compressed: bool, embed: bool) -> Vec<u8> {
    let mut w = Tes4Writer::new(version);
    w.set_compressed(compressed);
    w.set_embed_filenames(embed);
    w.add("meshes/dungeons/cave.nif", b"cave mesh data".to_vec()).unwrap();
    w.add("textures/dirt.dds", vec![7u8; 300]).unwrap();
    w.add("textures/Grass.dds", b"grass".to_vec()).unwrap();
    w.write().unwrap()
}

fn contents(bytes: &[u8]) -> Vec<(Vec<u8>, Vec<u8>, Vec<u8>)> {
    let a = parse_tes4(bytes).unwrap();
    let mut out = Vec::new();
    for (d, dir) in a.directories.iter().enumerate() {
        for (f, file) in dir.files.iter().enumerate() {
            let data = a.extract(bytes, d, f).unwrap();
            out.push((dir.name.clone().unwrap(), file.name.clone().unwrap(), data));
        }
    }
    out.sort();
    out
}

#[test]
fn tes4_round_trip_all_versions() {
    for &(v, c, e) in &[
        (Version::V103, false, false),
        (Version::V103, true, false),
        (Version::V104, true, true),
        (Version::V104, false, true),
        (Version::V105, true, false),
        (Version::V105, true, true),
    ] {
        let bytes = build_tes4(v, c, e);
        let got = contents(&bytes);
        let expected = vec![
            (b"meshes\\dungeons".to_vec(), b"cave.nif".to_vec(), b"cave mesh data".to_vec()),
            (b"textures".to_vec(), b"dirt.dds".to_vec(), vec![7u8; 300]),
            (b"textures".to_vec(), b"grass.dds".to_vec(), b"grass".to_vec()),
        ];
        assert_eq!(got, expected);
        let a = parse_tes4(&bytes).unwrap();
        assert_eq!(a.header.folder_count, 2);
        assert_eq!(a.header.file_count, 3);
        assert_eq!(a.header.file_flags, 0x3);
        for dir in &a.directories {
            for file in &dir.files {
                assert_eq!(file.compressed, c);
            }
        }
        assert!(a.directories[0].record.hash.to_u64() < a.directories[1].record.hash.to_u64());
    }
}

#[test]
fn tes4_rewrite_is_identical() {
    let first = build_tes4(Version::V104, false, false);
    let a = parse_tes4(&first).unwrap();
    let mut w = Tes4Writer::new(Version::V104);
    for (d, dir) in a.directories.iter().enumerate() {
        for (f, file) in dir.files.iter().enumerate() {
            let mut path = dir.name.clone().unwrap();
            path.push(b'\\');
            path.extend_from_slice(file.name.as_ref().unwrap());
            let data = a.extract(&first, d, f).unwrap();
            w.add(std::str::from_utf8(&path).unwrap(), data).unwrap();
        }
    }
    assert_eq!(w.write().unwrap(), first);
}

#[test]
fn tes4_compressed_entry() {
    let payload: Vec<u8> = (0..256u32).map(|i| (i % 7) as u8).collect();
    let mut enc = flate2::write::ZlibEncoder::new(Vec::new(), flate2::Compression::fast());
    enc.write_all(&payload).unwrap();
    let packed = enc.finish().unwrap();
    let mut w = Tes4Writer::new(Version::V104);
    w.set_compressed(true);
    w.add("meshes/a.nif", payload.clone()).unwrap();
    let bytes = w.write().unwrap();
    let a = parse_tes4(&bytes).unwrap();
    let file = &a.directories[0].files[0];
    assert!(file.compressed);
    assert!(!file.record.negate_compression());
    let block = a.file_block(&bytes, 0, 0).unwrap();
    assert_eq!(block.uncompressed_len, Some(256));
    assert_eq!(file.record.size() as usize, 4 + block.raw_data.len());
    assert_eq!(block.raw_data, &packed[..]);
    let out = a.extract(&bytes, 0, 0).unwrap();
    assert_eq!(out.len(), 256);
    assert_eq!(out, payload);
}

#[test]
fn tes4_invert_bit_flips_compression() {
    let mut bytes = build_tes4(Version::V104, false, false);
    let a = parse_tes4(&bytes).unwrap();
    let frs = 16;
    let block_start = 36 + frs * a.directories.len();
    let name_len = a.directories[0].name.as_ref().unwrap().len() + 2;
    let size_at = block_start + name_len + 8;
    bytes[size_at + 3] |= 0x40;
    let b = parse_tes4(&bytes).unwrap();
    assert!(b.directories[0].files[0].compressed);
    assert!(b.directories[0].files[0].record.negate_compression());
    assert!(!b.directories[0].files.get(1).map(|f| f.compressed).unwrap_or(false));
}

#[test]
fn tes4_header_errors() {
    let bytes = build_tes4(Version::V104, false, false);
    assert_eq!(parse_tes4(&bytes[..20]).unwrap_err(), ArchiveReadError::BadHeader);
    let mut m = bytes.clone();
    m[0] = b'X';
    assert_eq!(parse_tes4(&m).unwrap_err(), ArchiveReadError::InvalidMagic);
    let mut v = bytes.clone();
    v[4] = 99;
    assert_eq!(parse_tes4(&v).unwrap_err(), ArchiveReadError::InvalidVersion);
    let mut h = bytes.clone();
    h[8] = 35;
    assert_eq!(parse_tes4(&h).unwrap_err(), ArchiveReadError::BadHeader);
    let mut f = bytes.clone();
    f[13] = 0x80;
    assert_eq!(parse_tes4(&f).unwrap_err(), ArchiveReadError::InvalidFlags);
}

#[test]
fn tes4_writer_rejects_bad_paths() {
    let mut w = Tes4Writer::new(Version::V104);
    assert_eq!(w.add("nodir.nif", vec![]).unwrap_err(), ArchiveWriteError::InvalidFileName);
    assert_eq!(w.add("a/../b.nif", vec![]).unwrap_err(), ArchiveWriteError::InvalidFileName);
    assert_eq!(w.add("a/.nif", vec![]).unwrap_err(), ArchiveWriteError::InvalidFileName);
    w.add("a/b.nif", vec![1]).unwrap();
    w.add("A\\B.NIF", vec![2]).unwrap();
    let bytes = w.write().unwrap();
    let a = parse_tes4(&bytes).unwrap();
    assert_eq!(a.header.file_count, 1);
    assert_eq!(a.extract(&bytes, 0, 0).unwrap(), vec![2]);
}

fn fo4_dx10(sentinel: u32) -> Vec<u8> {
    let mut b = Vec::new();
    b.extend_from_slice(b"BTDX");
    b.extend_from_slice(&1u32.to_le_bytes());
    b.extend_from_slice(b"DX10");
    b.extend_from_slice(&1u32.to_le_bytes());
    b.extend_from_slice(&0u64.to_le_bytes());
    b.extend_from_slice(&[1, 0, 0, 0, 2, 0, 0, 0, 3, 0, 0, 0]);
    b.push(0);
    b.push(1);
    b.extend_from_slice(&0x18u16.to_le_bytes());
    b.extend_from_slice(&4u16.to_le_bytes());
    b.extend_from_slice(&4u16.to_le_bytes());
    b.extend_from_slice(&[1, 2, 3, 4]);
    let data_at = (b.len() + 24) as u64;
    b.extend_from_slice(&data_at.to_le_bytes());
    b.extend_from_slice(&0u32.to_le_bytes());
    b.extend_from_slice(&3u32.to_le_bytes());
    b.extend_from_slice(&0u16.to_le_bytes());
    b.extend_from_slice(&0u16.to_le_bytes());
    b.extend_from_slice(&sentinel.to_le_bytes());
    b.extend_from_slice(&[9, 8, 7]);
    b
}

#[test]
fn fo4_dx10_bad_sentinel() {
    assert_eq!(parse_fo4(&fo4_dx10(0xDEADBEEF)).unwrap_err(), ReadError::InvalidChunkSentinel);
    match open(&fo4_dx10(0xDEADBEEF), None) {
        Err(Error::Read(e)) => assert_eq!(e, ArchiveReadError::BadSentinel),
        _ => panic!("expected a sentinel error"),
    }
}

#[test]
fn fo4_dx10_reads() {
    let bytes = fo4_dx10(0xBAADF00D);
    let a = parse_fo4(&bytes).unwrap();
    assert_eq!(a.files.len(), 1);
    let f = &a.files[0];
    assert_eq!(f.id.file(), 1);
    assert_eq!(f.id.extension(), 2);
    assert_eq!(f.id.directory(), 3);
    assert_eq!(f.texture.unwrap().height, 4);
    assert_eq!(f.chunks[0].sentinel, 0xBAADF00D);
    assert_eq!(a.extract(&bytes, 0).unwrap(), vec![9, 8, 7]);
    let mut bad = bytes.clone();
    bad[0] = b'X';
    assert_eq!(parse_fo4(&bad).unwrap_err(), ReadError::InvalidMagic);
    let mut fmt = bytes.clone();
    fmt[8] = b'Q';
    assert_eq!(parse_fo4(&fmt).unwrap_err(), ReadError::UnsupportedFormat);
}

#[test]
fn detect_formats() {
    assert_eq!(detect_format(&tes3_sample()), Some(Format::Tes3));
    assert_eq!(detect_format(&build_tes4(Version::V103, false, false)), Some(Format::Tes4));
    assert_eq!(detect_format(&build_tes4(Version::V104, false, false)), Some(Format::Tes5));
    assert_eq!(detect_format(&build_tes4(Version::V105, false, false)), Some(Format::Sse));
    assert_eq!(detect_format(&fo4_dx10(0xBAADF00D)), Some(Format::Fo4));
    assert_eq!(detect_format(b"nope"), None);
    match open(&build_tes4(Version::V105, true, false), None).unwrap() {
        Archive::Tes4(a) => assert_eq!(a.header.version, Version::V105),
        _ => panic!("expected a TES4-family archive"),
    }
}

#[test]
fn positioned_reads_match_sequential() {
    let bytes = build_tes4(Version::V105, true, true);
    let a = parse_tes4(&bytes).unwrap();
    let mut jobs = Vec::new();
    for (d, dir) in a.directories.iter().enumerate() {
        for f in 0..dir.files.len() {
            jobs.push((d, f));
        }
    }
    let sequential: Vec<Vec<u8>> = jobs.iter().map(|&(d, f)| a.extract(&bytes, d, f).unwrap()).collect();
    let mut parallel: Vec<(usize, Vec<u8>)> = jobs
        .par_iter()
        .enumerate()
        .map(|(i, &(d, f))| (i, a.extract(&bytes, d, f).unwrap()))
        .collect();
    parallel.sort();
    let parallel: Vec<Vec<u8>> = parallel.into_iter().map(|(_, v)| v).collect();
    assert_eq!(parallel, sequential);
}
