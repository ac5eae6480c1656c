use rusty_zip::add::SourceFile;
use rusty_zip::archive::Archive;
use rusty_zip::archive::Integrity;
use rusty_zip::codec::open;
use rusty_zip::codec::stage;
use rusty_zip::error::ArchiveError;
use rusty_zip::format::detect_archive_type;
use rusty_zip::format::CodecKind;
use rusty_zip::format::FormatKind;
use rusty_zip::gzip::decode;
use rusty_zip::gzip::encode;
use rusty_zip::gzip::has_no_zero;
use rusty_zip::gzip::push_block;
use rusty_zip::gzip::push_blocks;
use rusty_zip::gzip::push_head;
use rusty_zip::gzip::read_head;
use rusty_zip::gzip::read_stored;

fn single(path: &str, content: &[u8]) -> Archive {
    let mut archive = Archive::new(CodecKind::Gzip);
    archive
        .add(&vec![SourceFile {
            path: path.to_string(),
            modified: 1_700_000_000,
            content: Some(content.to_vec()),
        }])
        .unwrap();
    archive
}

/// `a.txt` with "hello", stored, as another gzip writer gives it.
fn foreign_gzip() -> Vec<u8> {
    vec![
        0x1F, 0x8B, 0x08, 0x08, 0x00, 0xF1, 0x53, 0x65, 0x00, 0xFF, 0x61, 0x2E, 0x74, 0x78, 0x74,
        0x00, 0x01, 0x05, 0x00, 0xFA, 0xFF, 0x68, 0x65, 0x6C, 0x6C, 0x6F, 0x86, 0xA6, 0x10, 0x36,
        0x05, 0x00, 0x00, 0x00,
    ]
}

/// "hello hello hello hello", deflated.
fn deflated_gzip() -> Vec<u8> {
    vec![
        0x1F, 0x8B, 0x08, 0x00, 0x00, 0xF1, 0x53, 0x65, 0x02, 0xFF, 0xCB, 0x48, 0xCD, 0xC9, 0xC9,
        0x57, 0xC8, 0x40, 0x27, 0x01, 0xE3, 0x51, 0x3D, 0x8D, 0x17, 0x00, 0x00, 0x00,
    ]
}

#[test]
fn decode_foreign_gzip() {
    let archive = decode(&foreign_gzip()).unwrap();
    assert_eq!(archive.codec, CodecKind::Gzip);
    assert_eq!(archive.names(), vec!["a.txt"]);
    let entries = archive.list();
    assert_eq!(entries[0].size, 5);
    assert_eq!(entries[0].compressed_size, 5);
    assert_eq!(entries[0].modified, 1_700_000_000);
    assert_eq!(entries[0].checksum, None);
    assert_eq!(archive.members[0].content, b"hello");
    assert_eq!(archive.test()[0].status, Integrity::Unverifiable);
    assert_eq!(archive.test()[0].digest, 0x3610_A686);
}

#[test]
fn encode_writes_the_same_as_the_foreign_writer() {
    assert_eq!(encode(&single("a.txt", b"hello")).unwrap(), foreign_gzip());
    assert_eq!(detect_archive_type(&foreign_gzip()), FormatKind::Gzip);
}

#[test]
fn gzip_head() {
    let head = read_head(&foreign_gzip()).unwrap();
    assert_eq!(head.name, b"a.txt");
    assert_eq!(head.start, 16);
    assert_eq!(head.modified, 1_700_000_000);
    let unnamed = read_head(&deflated_gzip()).unwrap();
    assert_eq!(unnamed.name, b"");
    assert_eq!(unnamed.start, 10);
    let mut out = Vec::new();
    push_head(&mut out, b"", 7);
    assert_eq!(out, vec![0x1F, 0x8B, 0x08, 0x00, 7, 0, 0, 0, 0x00, 0xFF]);
    assert!(has_no_zero(b"a.txt"));
    assert!(!has_no_zero(b"a\0txt"));
}

#[test]
fn gzip_blocks() {
    let mut one = Vec::new();
    push_block(&mut one, b"hi", false);
    assert_eq!(one, vec![0x00, 0x02, 0x00, 0xFD, 0xFF, b'h', b'i']);
    let mut empty = Vec::new();
    push_blocks(&mut empty, b"");
    assert_eq!(empty, vec![0x01, 0x00, 0x00, 0xFF, 0xFF]);
    let content: Vec<u8> = (0..150_000u32).map(|i| (i % 251) as u8).collect();
    let mut blocks = Vec::new();
    push_blocks(&mut blocks, &content);
    assert_eq!(blocks.len(), 150_000 + 3 * 5);
    assert_eq!(blocks[0], 0);
    assert_eq!(blocks[5 + 65535], 0);
    assert_eq!(blocks[2 * (5 + 65535)], 1);
    let (back, end) = read_stored(&blocks, 0).unwrap();
    assert_eq!(back, content);
    assert_eq!(end, blocks.len());
    // A content of exactly one full block is one block.
    let mut full = Vec::new();
    push_blocks(&mut full, &content[..65535]);
    assert_eq!(full.len(), 65535 + 5);
    assert_eq!(full[0], 1);
}

#[test]
fn gzip_round_trip() {
    let content: Vec<u8> = (0..200_000u32).map(|i| (i * 31 % 256) as u8).collect();
    for (name, data) in [("big.bin", &content[..]), ("empty", &b""[..]), ("", &b"unnamed"[..])] {
        let archive = single(name, data);
        let bytes = encode(&archive).unwrap();
        let back = decode(&bytes).unwrap();
        assert_eq!(back.names(), archive.names());
        assert_eq!(back.members[0].content, archive.members[0].content);
        assert_eq!(back.members[0].entry.size, archive.members[0].entry.size);
        assert_eq!(back.members[0].entry.modified, 1_700_000_000);
        assert_eq!(back.members[0].entry.checksum, None);
    }
}

#[test]
fn decode_gzip_features_not_covered() {
    assert_eq!(decode(&deflated_gzip()).err(), Some(ArchiveError::UnsupportedFeature));
    for flag in [0x02u8, 0x04, 0x10] {
        let mut bytes = foreign_gzip();
        bytes[3] |= flag;
        assert_eq!(decode(&bytes).err(), Some(ArchiveError::UnsupportedFeature));
    }
}

#[test]
fn decode_corrupt_gzip() {
    let good = foreign_gzip();
    assert_eq!(decode(&[]).err(), Some(ArchiveError::CorruptHeader));
    assert_eq!(decode(&good[..9]).err(), Some(ArchiveError::CorruptHeader));
    let mut mark = good.clone();
    mark[1] = 0x8C;
    assert_eq!(decode(&mark).err(), Some(ArchiveError::CorruptHeader));
    let mut method = good.clone();
    method[2] = 0x07;
    assert_eq!(decode(&method).err(), Some(ArchiveError::CorruptHeader));
    let mut reserved = good.clone();
    reserved[3] |= 0x20;
    assert_eq!(decode(&reserved).err(), Some(ArchiveError::CorruptHeader));
    // A name that does not end.
    assert_eq!(decode(&good[..15]).err(), Some(ArchiveError::CorruptHeader));
    // Two lengths that do not agree.
    let mut lengths = good.clone();
    lengths[19] = 0xFB;
    assert_eq!(decode(&lengths).err(), Some(ArchiveError::CorruptHeader));
    // A block that is cut off, and a trailer that is.
    assert_eq!(decode(&good[..24]).err(), Some(ArchiveError::CorruptHeader));
    assert_eq!(decode(&good[..good.len() - 1]).err(), Some(ArchiveError::CorruptHeader));
    // A length in the trailer that is not that of the content.
    let mut said = good.clone();
    said[30] = 6;
    assert_eq!(decode(&said).err(), Some(ArchiveError::CorruptHeader));
    // A name that is no UTF-8.
    let mut name = good.clone();
    name[10] = 0xFF;
    assert_eq!(decode(&name).err(), Some(ArchiveError::CorruptHeader));
}

#[test]
fn encode_refuses_what_gzip_cannot_hold() {
    assert_eq!(encode(&Archive::new(CodecKind::Gzip)).err(), Some(ArchiveError::UnsupportedFeature));
    let mut two = single("a.txt", b"hello");
    two.add(&vec![SourceFile { path: "b.txt".to_string(), modified: 1, content: Some(Vec::new()) }])
        .unwrap();
    assert_eq!(encode(&two).err(), Some(ArchiveError::UnsupportedFeature));
    assert_eq!(encode(&single("a\0b", b"x")).err(), Some(ArchiveError::UnsupportedFeature));
    let mut late = single("late", b"x");
    late.members[0].entry.modified = 0x1_0000_0000;
    assert_eq!(encode(&late).err(), Some(ArchiveError::UnsupportedFeature));
}

#[test]
fn open_and_stage_gzip() {
    let bytes = stage(&single("a.txt", b"hello")).unwrap();
    assert_eq!(bytes, foreign_gzip());
    let mut archive = open(CodecKind::Gzip, Some(&bytes)).unwrap();
    archive
        .add(&vec![SourceFile {
            path: "a.txt".to_string(),
            modified: 1_700_000_002,
            content: Some(b"world".to_vec()),
        }])
        .unwrap();
    let again = open(CodecKind::Gzip, Some(&stage(&archive).unwrap())).unwrap();
    assert_eq!(again.names(), vec!["a.txt"]);
    assert_eq!(again.members[0].content, b"world");
    assert_eq!(open(CodecKind::Gzip, None).err(), Some(ArchiveError::NotFound));
}
