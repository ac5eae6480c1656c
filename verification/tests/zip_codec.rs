use rusty_zip::add::SourceFile;
use rusty_zip::archive::Archive;
use rusty_zip::archive::Integrity;
use rusty_zip::codec::open;
use rusty_zip::codec::stage;
use rusty_zip::error::ArchiveError;
use rusty_zip::format::detect_archive_type;
use rusty_zip::format::CodecKind;
use rusty_zip::format::FormatKind;
use rusty_zip::little_endian::push_u16;
use rusty_zip::little_endian::push_u32;
use rusty_zip::little_endian::read_u16;
use rusty_zip::little_endian::read_u32;
use rusty_zip::zip::decode;
use rusty_zip::zip::encode;
use rusty_zip::zip::find_end_record;
use rusty_zip::zip::mark_at;

/// 14 November 2023, 22:13:20, in seconds since 1970.
const STAMP: u64 = 1_700_000_000;

fn source(path: &str, content: &[u8]) -> SourceFile {
    SourceFile { path: path.to_string(), modified: STAMP, content: Some(content.to_vec()) }
}

fn zip_sample() -> Archive {
    let mut archive = Archive::new(CodecKind::Zip);
    archive.add(&vec![source("a.txt", b"hello"), source("dir/b.txt", b"world")]).unwrap();
    archive
}

/// `a.txt`, the directory `dir/` and `dir/b.txt`, stored by another zip
/// writer.
fn foreign_zip() -> Vec<u8> {
    vec![
        0x50, 0x4B, 0x03, 0x04, 0x14, 0x00, 0x00, 0x00, 0x00, 0x00, 0xAA, 0xB1, 0x6E, 0x57, 0x86,
        0xA6, 0x10, 0x36, 0x05, 0x00, 0x00, 0x00, 0x05, 0x00, 0x00, 0x00, 0x05, 0x00, 0x00, 0x00,
        0x61, 0x2E, 0x74, 0x78, 0x74, 0x68, 0x65, 0x6C, 0x6C, 0x6F, 0x50, 0x4B, 0x03, 0x04, 0x14,
        0x00, 0x00, 0x00, 0x00, 0x00, 0xAA, 0xB1, 0x6E, 0x57, 0x00, 0x00, 0x00, 0x00, 0x00, 0x00,
        0x00, 0x00, 0x00, 0x00, 0x00, 0x00, 0x04, 0x00, 0x00, 0x00, 0x64, 0x69, 0x72, 0x2F, 0x50,
        0x4B, 0x03, 0x04, 0x14, 0x00, 0x00, 0x00, 0x00, 0x00, 0xAA, 0xB1, 0x6E, 0x57, 0x43, 0x11,
        0x77, 0x3A, 0x05, 0x00, 0x00, 0x00, 0x05, 0x00, 0x00, 0x00, 0x09, 0x00, 0x00, 0x00, 0x64,
        0x69, 0x72, 0x2F, 0x62, 0x2E, 0x74, 0x78, 0x74, 0x77, 0x6F, 0x72, 0x6C, 0x64, 0x50, 0x4B,
        0x01, 0x02, 0x14, 0x03, 0x14, 0x00, 0x00, 0x00, 0x00, 0x00, 0xAA, 0xB1, 0x6E, 0x57, 0x86,
        0xA6, 0x10, 0x36, 0x05, 0x00, 0x00, 0x00, 0x05, 0x00, 0x00, 0x00, 0x05, 0x00, 0x00, 0x00,
        0x00, 0x00, 0x00, 0x00, 0x00, 0x00, 0x00, 0x00, 0x80, 0x01, 0x00, 0x00, 0x00, 0x00, 0x61,
        0x2E, 0x74, 0x78, 0x74, 0x50, 0x4B, 0x01, 0x02, 0x14, 0x03, 0x14, 0x00, 0x00, 0x00, 0x00,
        0x00, 0xAA, 0xB1, 0x6E, 0x57, 0x00, 0x00, 0x00, 0x00, 0x00, 0x00, 0x00, 0x00, 0x00, 0x00,
        0x00, 0x00, 0x04, 0x00, 0x00, 0x00, 0x00, 0x00, 0x00, 0x00, 0x00, 0x00, 0x00, 0x00, 0x80,
        0x01, 0x28, 0x00, 0x00, 0x00, 0x64, 0x69, 0x72, 0x2F, 0x50, 0x4B, 0x01, 0x02, 0x14, 0x03,
        0x14, 0x00, 0x00, 0x00, 0x00, 0x00, 0xAA, 0xB1, 0x6E, 0x57, 0x43, 0x11, 0x77, 0x3A, 0x05,
        0x00, 0x00, 0x00, 0x05, 0x00, 0x00, 0x00, 0x09, 0x00, 0x00, 0x00, 0x00, 0x00, 0x00, 0x00,
        0x00, 0x00, 0x00, 0x00, 0x80, 0x01, 0x4A, 0x00, 0x00, 0x00, 0x64, 0x69, 0x72, 0x2F, 0x62,
        0x2E, 0x74, 0x78, 0x74, 0x50, 0x4B, 0x05, 0x06, 0x00, 0x00, 0x00, 0x00, 0x03, 0x00, 0x03,
        0x00, 0x9C, 0x00, 0x00, 0x00, 0x76, 0x00, 0x00, 0x00, 0x00, 0x00,
    ]
}

/// What the encoder is to write for the sample, byte for byte.
fn expected_zip() -> Vec<u8> {
    vec![
        0x50, 0x4B, 0x03, 0x04, 0x14, 0x00, 0x00, 0x08, 0x00, 0x00, 0xAA, 0xB1, 0x6E, 0x57, 0x86,
        0xA6, 0x10, 0x36, 0x05, 0x00, 0x00, 0x00, 0x05, 0x00, 0x00, 0x00, 0x05, 0x00, 0x00, 0x00,
        0x61, 0x2E, 0x74, 0x78, 0x74, 0x68, 0x65, 0x6C, 0x6C, 0x6F, 0x50, 0x4B, 0x03, 0x04, 0x14,
        0x00, 0x00, 0x08, 0x00, 0x00, 0xAA, 0xB1, 0x6E, 0x57, 0x43, 0x11, 0x77, 0x3A, 0x05, 0x00,
        0x00, 0x00, 0x05, 0x00, 0x00, 0x00, 0x09, 0x00, 0x00, 0x00, 0x64, 0x69, 0x72, 0x2F, 0x62,
        0x2E, 0x74, 0x78, 0x74, 0x77, 0x6F, 0x72, 0x6C, 0x64, 0x50, 0x4B, 0x01, 0x02, 0x14, 0x00,
        0x14, 0x00, 0x00, 0x08, 0x00, 0x00, 0xAA, 0xB1, 0x6E, 0x57, 0x86, 0xA6, 0x10, 0x36, 0x05,
        0x00, 0x00, 0x00, 0x05, 0x00, 0x00, 0x00, 0x05, 0x00, 0x00, 0x00, 0x00, 0x00, 0x00, 0x00,
        0x00, 0x00, 0x00, 0x00, 0x00, 0x00, 0x00, 0x00, 0x00, 0x00, 0x61, 0x2E, 0x74, 0x78, 0x74,
        0x50, 0x4B, 0x01, 0x02, 0x14, 0x00, 0x14, 0x00, 0x00, 0x08, 0x00, 0x00, 0xAA, 0xB1, 0x6E,
        0x57, 0x43, 0x11, 0x77, 0x3A, 0x05, 0x00, 0x00, 0x00, 0x05, 0x00, 0x00, 0x00, 0x09, 0x00,
        0x00, 0x00, 0x00, 0x00, 0x00, 0x00, 0x00, 0x00, 0x00, 0x00, 0x00, 0x00, 0x28, 0x00, 0x00,
        0x00, 0x64, 0x69, 0x72, 0x2F, 0x62, 0x2E, 0x74, 0x78, 0x74, 0x50, 0x4B, 0x05, 0x06, 0x00,
        0x00, 0x00, 0x00, 0x02, 0x00, 0x02, 0x00, 0x6A, 0x00, 0x00, 0x00, 0x54, 0x00, 0x00, 0x00,
        0x00, 0x00,
    ]
}

#[test]
fn little_endian_fields() {
    assert_eq!(read_u16(&[0x34, 0x12, 0xFF], 0), 0x1234);
    assert_eq!(read_u16(&[0x00, 0xFF, 0xFF], 1), 0xFFFF);
    assert_eq!(read_u32(&[0x78, 0x56, 0x34, 0x12], 0), 0x1234_5678);
    assert_eq!(read_u32(&[0, 0xFF, 0xFF, 0xFF, 0xFF], 1), 0xFFFF_FFFF);
    let mut out = vec![9u8];
    push_u16(&mut out, 0x1234);
    push_u32(&mut out, 0x89AB_CDEF);
    assert_eq!(out, vec![9, 0x34, 0x12, 0xEF, 0xCD, 0xAB, 0x89]);
}

#[test]
fn zip_marks() {
    let bytes = foreign_zip();
    assert!(mark_at(&bytes, 0, 3, 4));
    assert!(!mark_at(&bytes, 0, 1, 2));
    assert!(!mark_at(&bytes, 1, 3, 4));
    assert!(!mark_at(&bytes, bytes.len() - 3, 3, 4));
    assert!(!mark_at(&[0x50, 0x4B], 0, 3, 4));
    assert_eq!(find_end_record(&bytes), Some(bytes.len() - 22));
    assert_eq!(find_end_record(&[0u8; 22]), None);
}

#[test]
fn decode_foreign_zip() {
    let archive = decode(&foreign_zip()).unwrap();
    assert_eq!(archive.codec, CodecKind::Zip);
    assert_eq!(archive.names(), vec!["a.txt", "dir/b.txt"]);
    let entries = archive.list();
    assert_eq!(entries[0].size, 5);
    assert_eq!(entries[0].compressed_size, 5);
    assert_eq!(entries[0].modified, STAMP);
    assert_eq!(entries[0].checksum, Some(0x3610_A686));
    assert_eq!(entries[1].checksum, Some(0x3A77_1143));
    assert_eq!(archive.members[0].content, b"hello");
    assert_eq!(archive.members[1].content, b"world");
    assert!(archive.test().iter().all(|line| line.status == Integrity::Passed));
}

#[test]
fn encode_writes_the_expected_bytes() {
    assert_eq!(encode(&zip_sample()).unwrap(), expected_zip());
    assert_eq!(
        encode(&Archive::new(CodecKind::Zip)).unwrap(),
        vec![0x50, 0x4B, 0x05, 0x06, 0, 0, 0, 0, 0, 0, 0, 0, 0, 0, 0, 0, 0, 0, 0, 0, 0, 0]
    );
}

#[test]
fn zip_round_trip() {
    let mut archive = zip_sample();
    archive
        .add(&vec![
            source("empty", b""),
            source("data/blob.bin", &(0..=255u8).collect::<Vec<u8>>()),
            source("d\u{e9}j\u{e0}/vu.txt", b"accents"),
        ])
        .unwrap();
    let bytes = encode(&archive).unwrap();
    let back = decode(&bytes).unwrap();
    assert_eq!(back.names(), archive.names());
    assert_eq!(back.len(), 5);
    for (read, written) in back.members.iter().zip(archive.members.iter()) {
        assert_eq!(read.entry.path, written.entry.path);
        assert_eq!(read.entry.size, written.entry.size);
        assert_eq!(read.entry.compressed_size, written.entry.compressed_size);
        assert_eq!(read.entry.modified, written.entry.modified);
        assert_eq!(read.entry.checksum, written.entry.checksum);
        assert_eq!(read.content, written.content);
    }
    assert_eq!(detect_archive_type(&bytes), FormatKind::Zip);
}

#[test]
fn decode_zip_with_comment() {
    let mut bytes = expected_zip();
    let end = bytes.len() - 22;
    bytes[end + 20] = 5;
    bytes.extend_from_slice(b"hello");
    assert_eq!(find_end_record(&bytes), Some(end));
    assert_eq!(decode(&bytes).unwrap().names(), vec!["a.txt", "dir/b.txt"]);
}

#[test]
fn damaged_content_fails_the_test_of_that_entry() {
    let mut bytes = expected_zip();
    // The first byte of "world".
    bytes[79] ^= 0x01;
    let archive = decode(&bytes).unwrap();
    let report = archive.test();
    assert_eq!(report[0].status, Integrity::Passed);
    assert_eq!(report[1].status, Integrity::Failed);
    assert_eq!(report[1].path, "dir/b.txt");
}

#[test]
fn decode_corrupt_zip() {
    let good = expected_zip();
    assert_eq!(decode(&[]).err(), Some(ArchiveError::CorruptHeader));
    assert_eq!(decode(b"PK\x03\x04 and nothing more of a zip").err(), Some(ArchiveError::CorruptHeader));
    // Cut off in the end record.
    assert_eq!(decode(&good[..good.len() - 1]).err(), Some(ArchiveError::CorruptHeader));
    // The directory is said to begin behind the end record.
    let end = good.len() - 22;
    let mut far = good.clone();
    far[end + 16] = 0xFF;
    assert_eq!(decode(&far).err(), Some(ArchiveError::CorruptHeader));
    // No central record where the directory is said to be.
    let mut shifted = good.clone();
    shifted[end + 16] += 1;
    assert_eq!(decode(&shifted).err(), Some(ArchiveError::CorruptHeader));
    // More records said than there are.
    let mut more = good.clone();
    more[end + 8] = 3;
    more[end + 10] = 3;
    assert_eq!(decode(&more).err(), Some(ArchiveError::CorruptHeader));
    // Sizes that differ though the entry is stored.
    let mut sizes = good.clone();
    sizes[84 + 20] = 4;
    assert_eq!(decode(&sizes).err(), Some(ArchiveError::CorruptHeader));
    // A name that is no UTF-8.
    let mut name = good.clone();
    name[84 + 46] = 0xFF;
    assert_eq!(decode(&name).err(), Some(ArchiveError::CorruptHeader));
    // A local record that is not where the directory points.
    let mut local = good.clone();
    local[84 + 42] = 1;
    assert_eq!(decode(&local).err(), Some(ArchiveError::CorruptHeader));
}

#[test]
fn decode_zip_features_not_covered() {
    let good = expected_zip();
    let end = good.len() - 22;
    // Deflated.
    let mut deflated = good.clone();
    deflated[84 + 10] = 8;
    assert_eq!(decode(&deflated).err(), Some(ArchiveError::UnsupportedFeature));
    // Encrypted.
    let mut encrypted = good.clone();
    encrypted[84 + 8] |= 0x01;
    assert_eq!(decode(&encrypted).err(), Some(ArchiveError::UnsupportedFeature));
    // In several parts.
    let mut parts = good.clone();
    parts[end + 4] = 1;
    assert_eq!(decode(&parts).err(), Some(ArchiveError::UnsupportedFeature));
}

#[test]
fn encode_refuses_what_zip_cannot_hold() {
    let mut unnamed = Archive::new(CodecKind::Zip);
    unnamed.add(&vec![source("/", b"1")]).unwrap();
    assert_eq!(encode(&unnamed).err(), Some(ArchiveError::UnsupportedFeature));
    let mut dir = Archive::new(CodecKind::Zip);
    dir.add(&vec![source("dir/", b"")]).unwrap();
    assert_eq!(encode(&dir).err(), Some(ArchiveError::UnsupportedFeature));
    let mut long = Archive::new(CodecKind::Zip);
    long.add(&vec![source(&"n".repeat(65536), b"1")]).unwrap();
    assert_eq!(encode(&long).err(), Some(ArchiveError::UnsupportedFeature));
}

#[test]
fn encode_holds_times_to_what_a_stamp_can_say() {
    let mut archive = Archive::new(CodecKind::Zip);
    archive
        .add(&vec![
            SourceFile { path: "early".to_string(), modified: 0, content: Some(Vec::new()) },
            SourceFile {
                path: "late".to_string(),
                modified: 5_000_000_000,
                content: Some(Vec::new()),
            },
            SourceFile {
                path: "odd".to_string(),
                modified: 1_700_000_001,
                content: Some(Vec::new()),
            },
        ])
        .unwrap();
    let back = decode(&encode(&archive).unwrap()).unwrap();
    let entries = back.list();
    assert_eq!(entries[0].modified, 315_532_800);
    assert_eq!(entries[1].modified, 4_354_819_198);
    assert_eq!(entries[2].modified, 1_700_000_000);
}

#[test]
fn encode_writes_a_checksum_where_none_is_stored() {
    let mut archive = zip_sample();
    archive.members[0].entry.checksum = None;
    let back = decode(&encode(&archive).unwrap()).unwrap();
    assert_eq!(back.list()[0].checksum, Some(0x3610_A686));
}

#[test]
fn open_and_stage_zip() {
    let bytes = stage(&zip_sample()).unwrap();
    assert_eq!(bytes, expected_zip());
    let mut archive = open(CodecKind::Zip, Some(&bytes)).unwrap();
    archive.rename(&vec![rusty_zip::rename::RenamePair {
        from: "a.txt".to_string(),
        to: "first.txt".to_string(),
    }])
    .unwrap();
    let rebuilt = stage(&archive).unwrap();
    let again = open(CodecKind::Zip, Some(&rebuilt)).unwrap();
    assert_eq!(again.names(), vec!["first.txt", "dir/b.txt"]);
    assert_eq!(again.members[0].content, b"hello");
    assert_eq!(open(CodecKind::Zip, Some(b"garbage")).err(), Some(ArchiveError::CorruptHeader));
    for codec in [CodecKind::SevenZ, CodecKind::RarReadOnly] {
        assert_eq!(open(codec, Some(&bytes)).err(), Some(ArchiveError::UnsupportedFeature));
        assert_eq!(stage(&Archive::new(codec)).err(), Some(ArchiveError::UnsupportedFeature));
    }
}
