use rusty_zip::add::SourceFile;
use rusty_zip::archive::Archive;
use rusty_zip::bytes::field_text;
use rusty_zip::codec::open;
use rusty_zip::codec::stage;
use rusty_zip::error::ArchiveError;
use rusty_zip::format::detect_archive_type;
use rusty_zip::format::CodecKind;
use rusty_zip::format::FormatKind;
use rusty_zip::octal::parse_octal;
use rusty_zip::octal::push_octal;
use rusty_zip::octal::sum_bytes;
use rusty_zip::tar::all_zero;
use rusty_zip::tar::decode;
use rusty_zip::tar::encode;
use rusty_zip::tar::push_header;
use rusty_zip::tar::read_header;

fn source(path: &str, content: &[u8]) -> SourceFile {
    SourceFile { path: path.to_string(), modified: 1_700_000_000, content: Some(content.to_vec()) }
}

fn tar_sample() -> Archive {
    let mut archive = Archive::new(CodecKind::Tar);
    archive.add(&vec![source("a.txt", b"hello"), source("dir/b.txt", b"world")]).unwrap();
    archive
}

/// A header block as another tar writer lays it out, field by field.
fn foreign_header(name: &[u8], size: &[u8], kind: u8, checksum: &[u8]) -> Vec<u8> {
    let mut block = vec![0u8; 512];
    block[..name.len()].copy_from_slice(name);
    block[100..107].copy_from_slice(b"0000644");
    block[108..115].copy_from_slice(b"0000000");
    block[116..123].copy_from_slice(b"0000000");
    block[124..135].copy_from_slice(size);
    block[136..147].copy_from_slice(b"14524770400");
    block[148..154].copy_from_slice(checksum);
    block[155] = b' ';
    block[156] = kind;
    block[257..262].copy_from_slice(b"ustar");
    block[263..265].copy_from_slice(b"00");
    block
}

/// The checksum field that belongs to the block.
fn fix_checksum(block: &mut Vec<u8>) {
    let sum: u32 = block[..148].iter().map(|b| *b as u32).sum::<u32>()
        + 256
        + block[156..].iter().map(|b| *b as u32).sum::<u32>();
    let text = format!("{:06o}", sum);
    block[148..154].copy_from_slice(text.as_bytes());
}

#[test]
fn octal_fields() {
    assert_eq!(parse_octal(b"00000000005"), Some(5));
    assert_eq!(parse_octal(b"14524770400"), Some(1_700_000_000));
    assert_eq!(parse_octal(b"77777777777"), Some(8_589_934_591));
    assert_eq!(parse_octal(b"006763"), Some(3571));
    assert_eq!(parse_octal(b""), Some(0));
    assert_eq!(parse_octal(b"0000008"), None);
    assert_eq!(parse_octal(b"12 "), None);
    let mut out = vec![b'x'];
    push_octal(&mut out, 1_700_000_000, 11);
    assert_eq!(out, b"x14524770400");
    let mut narrow = Vec::new();
    push_octal(&mut narrow, 0o1234, 2);
    assert_eq!(narrow, b"34");
    assert_eq!(sum_bytes(&[1, 2, 3, 250], 1, 4), 255);
    assert_eq!(sum_bytes(&[1, 2, 3], 2, 2), 0);
}

#[test]
fn header_is_laid_out_as_ustar() {
    let mut block = Vec::new();
    push_header(&mut block, b"a.txt", 5, 1_700_000_000);
    assert_eq!(block.len(), 512);
    assert_eq!(block, foreign_header(b"a.txt", b"00000000005", b'0', b"006763"));
    let mut second = Vec::new();
    push_header(&mut second, b"dir/b.txt", 5, 1_700_000_000);
    assert_eq!(second, foreign_header(b"dir/b.txt", b"00000000005", b'0', b"007542"));
}

#[test]
fn header_reads_back() {
    let block = foreign_header(b"a.txt", b"00000000005", b'0', b"006763");
    let header = read_header(&block).unwrap();
    assert_eq!(header.name, b"a.txt");
    assert_eq!(header.size, 5);
    assert_eq!(header.modified, 1_700_000_000);
    assert!(header.is_file);
    assert_eq!(field_text(b"abc\0def"), b"abc");
    assert_eq!(field_text(b"abc"), b"abc");
    assert_eq!(field_text(b"\0abc"), b"");
    assert!(all_zero(&[0, 0, 0]));
    assert!(!all_zero(&[0, 1, 0]));
}

#[test]
fn header_with_wrong_checksum_is_corrupt() {
    let block = foreign_header(b"a.txt", b"00000000005", b'0', b"006764");
    assert_eq!(read_header(&block).err(), Some(ArchiveError::CorruptHeader));
    let mut damaged = foreign_header(b"a.txt", b"00000000005", b'0', b"006763");
    damaged[0] = b'b';
    assert_eq!(read_header(&damaged).err(), Some(ArchiveError::CorruptHeader));
    let mut bad_size = foreign_header(b"a.txt", b"0000000000x", b'0', b"006763");
    fix_checksum(&mut bad_size);
    assert_eq!(read_header(&bad_size).err(), Some(ArchiveError::CorruptHeader));
}

#[test]
fn header_features_not_covered() {
    let mut link = foreign_header(b"a.txt", b"00000000000", b'2', b"000000");
    fix_checksum(&mut link);
    assert_eq!(read_header(&link).err(), Some(ArchiveError::UnsupportedFeature));
    let mut prefixed = foreign_header(b"a.txt", b"00000000005", b'0', b"000000");
    prefixed[345] = b'p';
    fix_checksum(&mut prefixed);
    assert_eq!(read_header(&prefixed).err(), Some(ArchiveError::UnsupportedFeature));
    let mut dir = foreign_header(b"dir/", b"00000000000", b'5', b"000000");
    fix_checksum(&mut dir);
    assert!(!read_header(&dir).unwrap().is_file);
}

#[test]
fn encode_writes_whole_blocks() {
    let bytes = encode(&tar_sample()).unwrap();
    assert_eq!(bytes.len(), 2 * 1024 + 1024);
    assert_eq!(&bytes[..5], b"a.txt");
    assert_eq!(&bytes[512..517], b"hello");
    assert!(bytes[517..1024].iter().all(|b| *b == 0));
    assert_eq!(&bytes[1024..1033], b"dir/b.txt");
    assert_eq!(&bytes[1536..1541], b"world");
    assert!(bytes[2048..].iter().all(|b| *b == 0));
    assert_eq!(encode(&Archive::new(CodecKind::Tar)).unwrap(), vec![0u8; 1024]);
}

#[test]
fn encode_then_decode_round_trip() {
    let mut archive = tar_sample();
    archive
        .add(&vec![
            source("empty", b""),
            source("block", &[7u8; 512]),
            source("more", &[9u8; 513]),
            source("d\u{e9}j\u{e0}/vu.txt", b"accents"),
        ])
        .unwrap();
    let bytes = encode(&archive).unwrap();
    assert_eq!(bytes.len() % 512, 0);
    let back = decode(&bytes).unwrap();
    assert_eq!(back.codec, CodecKind::Tar);
    assert_eq!(back.names(), archive.names());
    assert_eq!(back.len(), 6);
    for (read, written) in back.members.iter().zip(archive.members.iter()) {
        assert_eq!(read.entry.path, written.entry.path);
        assert_eq!(read.entry.size, written.entry.size);
        assert_eq!(read.entry.compressed_size, written.entry.compressed_size);
        assert_eq!(read.entry.modified, written.entry.modified);
        assert_eq!(read.entry.checksum, None);
        assert_eq!(read.content, written.content);
    }
}

#[test]
fn decode_foreign_stream() {
    let mut stream = foreign_header(b"./docs\\", b"00000000000", b'5', b"000000");
    fix_checksum(&mut stream);
    let mut file = foreign_header(b"/docs/a.txt", b"00000000005", b'0', b"000000");
    fix_checksum(&mut file);
    stream.extend_from_slice(&file);
    stream.extend_from_slice(b"hello");
    stream.extend_from_slice(&[0u8; 507]);
    stream.extend_from_slice(&[0u8; 1024]);
    // What follows the closing block is not looked at.
    stream.extend_from_slice(&[0xFFu8; 100]);
    let archive = decode(&stream).unwrap();
    assert_eq!(archive.names(), vec!["docs/a.txt"]);
    assert_eq!(archive.members[0].content, b"hello");
    assert_eq!(archive.members[0].entry.modified, 1_700_000_000);
}

#[test]
fn decode_later_entry_replaces_earlier() {
    let mut stream = Vec::new();
    for content in [b"old!!", b"newer"] {
        push_header(&mut stream, b"a.txt", 5, 1);
        stream.extend_from_slice(content);
        stream.extend_from_slice(&[0u8; 507]);
    }
    let archive = decode(&stream).unwrap();
    assert_eq!(archive.len(), 1);
    assert_eq!(archive.members[0].content, b"newer");
}

#[test]
fn decode_empty_and_ended_streams() {
    assert_eq!(decode(&[]).unwrap().len(), 0);
    assert_eq!(decode(&[0u8; 512]).unwrap().len(), 0);
    assert_eq!(decode(&[0u8; 1024]).unwrap().len(), 0);
}

#[test]
fn decode_corrupt_streams() {
    let bytes = encode(&tar_sample()).unwrap();
    // A header cut short.
    assert_eq!(decode(&bytes[..100]).err(), Some(ArchiveError::CorruptHeader));
    // Content cut short.
    assert_eq!(decode(&bytes[..600]).err(), Some(ArchiveError::CorruptHeader));
    // A flipped byte in the second header.
    let mut flipped = bytes.clone();
    flipped[1024 + 130] ^= 0x01;
    assert_eq!(decode(&flipped).err(), Some(ArchiveError::CorruptHeader));
    // No text at all.
    assert_eq!(decode(b"not a tar stream").err(), Some(ArchiveError::CorruptHeader));
    // A name that is no UTF-8.
    let mut bad_name = foreign_header(&[0xFF, 0xFE], b"00000000000", b'0', b"000000");
    fix_checksum(&mut bad_name);
    assert_eq!(decode(&bad_name).err(), Some(ArchiveError::CorruptHeader));
}

#[test]
fn encode_refuses_what_tar_cannot_hold() {
    let long = "x".repeat(101);
    let mut archive = Archive::new(CodecKind::Tar);
    archive.add(&vec![source(&long, b"1")]).unwrap();
    assert_eq!(encode(&archive).err(), Some(ArchiveError::UnsupportedFeature));
    let mut fits = Archive::new(CodecKind::Tar);
    fits.add(&vec![source(&"y".repeat(100), b"1")]).unwrap();
    assert_eq!(decode(&encode(&fits).unwrap()).unwrap().names(), vec!["y".repeat(100)]);
    let mut unnamed = Archive::new(CodecKind::Tar);
    unnamed.add(&vec![source("/", b"1")]).unwrap();
    assert_eq!(encode(&unnamed).err(), Some(ArchiveError::UnsupportedFeature));
    let mut nul = Archive::new(CodecKind::Tar);
    nul.add(&vec![source("a\0b", b"1")]).unwrap();
    assert_eq!(encode(&nul).err(), Some(ArchiveError::UnsupportedFeature));
    let mut late = Archive::new(CodecKind::Tar);
    late.add(&vec![SourceFile {
        path: "late".to_string(),
        modified: 8_589_934_592,
        content: Some(Vec::new()),
    }])
    .unwrap();
    assert_eq!(encode(&late).err(), Some(ArchiveError::UnsupportedFeature));
}

#[test]
fn open_and_stage() {
    assert_eq!(open(CodecKind::Tar, None).err(), Some(ArchiveError::NotFound));
    assert_eq!(open(CodecKind::Zip, None).err(), Some(ArchiveError::NotFound));
    let bytes = stage(&tar_sample()).unwrap();
    let archive = open(CodecKind::Tar, Some(&bytes)).unwrap();
    assert_eq!(archive.names(), vec!["a.txt", "dir/b.txt"]);
    assert_eq!(open(CodecKind::Tar, Some(b"garbage")).err(), Some(ArchiveError::CorruptHeader));
    assert_eq!(
        open(CodecKind::RarReadOnly, Some(&bytes)).err(),
        Some(ArchiveError::UnsupportedFeature)
    );
    assert_eq!(
        stage(&Archive::new(CodecKind::RarReadOnly)).err(),
        Some(ArchiveError::UnsupportedFeature)
    );
}

#[test]
fn open_change_stage_open() {
    let bytes = stage(&tar_sample()).unwrap();
    let mut archive = open(CodecKind::Tar, Some(&bytes)).unwrap();
    archive.delete(&vec!["a.txt".to_string()]).unwrap();
    archive.add(&vec![source("c.txt", b"third")]).unwrap();
    let rebuilt = stage(&archive).unwrap();
    let again = open(CodecKind::Tar, Some(&rebuilt)).unwrap();
    assert_eq!(again.names(), vec!["dir/b.txt", "c.txt"]);
    // The first bytes are untouched by all this.
    assert_eq!(open(CodecKind::Tar, Some(&bytes)).unwrap().names(), vec!["a.txt", "dir/b.txt"]);
}

#[test]
fn tar_has_no_signature_at_offset_zero() {
    let bytes = encode(&tar_sample()).unwrap();
    assert_eq!(detect_archive_type(&bytes[..16]), FormatKind::Unknown);
}
