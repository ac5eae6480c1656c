use rusty_zip::format::codec_from_extension;
use rusty_zip::format::detect_archive_type;
use rusty_zip::format::has_prefix;
use rusty_zip::format::has_suffix;
use rusty_zip::format::is_supported_name;
use rusty_zip::format::CodecKind;
use rusty_zip::format::FormatKind;
use rusty_zip::format::HEADER_LEN;

/// The leading bytes of the sample files, by file name.
fn header_of(name: &str) -> Vec<u8> {
    let mut header = match name {
        "test.zip" => vec![0x50, 0x4B, 0x03, 0x04, 0x14, 0x00, 0x00, 0x00, 0x08, 0x00],
        "test.7z" => vec![0x37, 0x7A, 0xBC, 0xAF, 0x27, 0x1C, 0x00, 0x04],
        "test.rar" => vec![0x52, 0x61, 0x72, 0x21, 0x1A, 0x07, 0x01, 0x00, 0x33, 0x92],
        "test.tar.gz" => vec![0x1F, 0x8B, 0x08, 0x00, 0x00, 0x00, 0x00, 0x00, 0x00, 0x03],
        _ => b"just some text".to_vec(),
    };
    header.resize(HEADER_LEN, 0);
    header
}

#[test]
fn test_detect_archive_type() {
    assert_eq!(detect_archive_type(&header_of("test.zip")).name(), "ZIP");
    assert_eq!(detect_archive_type(&header_of("test.7z")).name(), "7z");
    assert_eq!(detect_archive_type(&header_of("test.rar")).name(), "RAR5");
    assert_eq!(detect_archive_type(&header_of("test.tar.gz")).name(), "GZIP");
    assert_eq!(detect_archive_type(&header_of("test.txt")).name(), "Unknown");
}

#[test]
fn detects_each_signature_alone() {
    assert_eq!(detect_archive_type(&[0x50, 0x4B, 0x03, 0x04]), FormatKind::Zip);
    assert_eq!(detect_archive_type(&[0x37, 0x7A, 0xBC, 0xAF, 0x27, 0x1C]), FormatKind::SevenZ);
    assert_eq!(
        detect_archive_type(&[0x52, 0x61, 0x72, 0x21, 0x1A, 0x07, 0x01, 0x00]),
        FormatKind::Rar5
    );
    assert_eq!(
        detect_archive_type(&[0x52, 0x61, 0x72, 0x21, 0x1A, 0x07, 0x00]),
        FormatKind::Rar4
    );
    assert_eq!(detect_archive_type(&[0x1F, 0x8B, 0x08]), FormatKind::Gzip);
}

#[test]
fn rar_generations_are_told_apart() {
    let rar5 = [0x52, 0x61, 0x72, 0x21, 0x1A, 0x07, 0x01, 0x00, 0xAA, 0xBB];
    let rar4 = [0x52, 0x61, 0x72, 0x21, 0x1A, 0x07, 0x00, 0xCF, 0x90, 0x73];
    assert_eq!(detect_archive_type(&rar5), FormatKind::Rar5);
    assert_ne!(detect_archive_type(&rar5), FormatKind::Rar4);
    assert_eq!(detect_archive_type(&rar4), FormatKind::Rar4);
    assert_eq!(detect_archive_type(&rar5).name(), "RAR5");
    assert_eq!(detect_archive_type(&rar4).name(), "RAR4");
}

#[test]
fn rar5_needs_its_eighth_byte() {
    // Seven bytes of the RAR5 signature, and an eighth that is not zero.
    assert_eq!(
        detect_archive_type(&[0x52, 0x61, 0x72, 0x21, 0x1A, 0x07, 0x01]),
        FormatKind::Unknown
    );
    assert_eq!(
        detect_archive_type(&[0x52, 0x61, 0x72, 0x21, 0x1A, 0x07, 0x01, 0x01]),
        FormatKind::Unknown
    );
}

#[test]
fn short_streams_are_unknown() {
    assert_eq!(detect_archive_type(&[]), FormatKind::Unknown);
    assert_eq!(detect_archive_type(&[0x50, 0x4B, 0x03]), FormatKind::Unknown);
    assert_eq!(detect_archive_type(&[0x1F, 0x8B]), FormatKind::Unknown);
    assert_eq!(detect_archive_type(&[0x52, 0x61, 0x72, 0x21, 0x1A, 0x07]), FormatKind::Unknown);
}

#[test]
fn signature_must_stand_at_offset_zero() {
    assert_eq!(detect_archive_type(&[0x00, 0x50, 0x4B, 0x03, 0x04]), FormatKind::Unknown);
    assert_eq!(detect_archive_type(&[0x1F, 0x8B, 0x09, 0x00]), FormatKind::Unknown);
}

#[test]
fn detection_reads_the_header_only() {
    let mut stream = header_of("test.7z");
    let head = stream.clone();
    stream.extend_from_slice(&[0x50, 0x4B, 0x03, 0x04, 0x1F, 0x8B, 0x08]);
    assert_eq!(detect_archive_type(&stream), detect_archive_type(&head));
    assert_eq!(detect_archive_type(&stream[..HEADER_LEN]), FormatKind::SevenZ);
}

#[test]
fn prefix_and_suffix() {
    assert!(has_prefix(&[1, 2, 3], &[1, 2]));
    assert!(has_prefix(&[1, 2, 3], &[]));
    assert!(!has_prefix(&[1, 2], &[1, 2, 3]));
    assert!(!has_prefix(&[1, 2, 3], &[1, 3]));
    assert!(has_suffix("archive.zip", ".zip"));
    assert!(has_suffix(".zip", ".zip"));
    assert!(!has_suffix("zip", ".zip"));
    assert!(!has_suffix("archive.zip.bak", ".zip"));
}

#[test]
fn codec_by_extension() {
    assert_eq!(codec_from_extension("a.zip"), Some(CodecKind::Zip));
    assert_eq!(codec_from_extension("a.7z"), Some(CodecKind::SevenZ));
    assert_eq!(codec_from_extension("a.tar"), Some(CodecKind::Tar));
    assert_eq!(codec_from_extension("a.gz"), Some(CodecKind::Gzip));
    assert_eq!(codec_from_extension("a.tar.gz"), Some(CodecKind::Gzip));
    assert_eq!(codec_from_extension("a.rar"), Some(CodecKind::RarReadOnly));
    assert_eq!(codec_from_extension("a.txt"), None);
    assert_eq!(codec_from_extension(""), None);
}

#[test]
fn extension_match_is_case_sensitive() {
    assert_eq!(codec_from_extension("A.ZIP"), None);
    assert_eq!(codec_from_extension("a.Zip"), None);
    assert!(is_supported_name("backup.rar"));
    assert!(!is_supported_name("backup.RAR"));
    assert!(!is_supported_name("backup"));
}

#[test]
fn codec_of_detected_kind() {
    assert_eq!(FormatKind::Zip.codec(), Some(CodecKind::Zip));
    assert_eq!(FormatKind::SevenZ.codec(), Some(CodecKind::SevenZ));
    assert_eq!(FormatKind::Rar5.codec(), Some(CodecKind::RarReadOnly));
    assert_eq!(FormatKind::Rar4.codec(), Some(CodecKind::RarReadOnly));
    assert_eq!(FormatKind::Gzip.codec(), Some(CodecKind::Gzip));
    assert_eq!(FormatKind::Unknown.codec(), None);
    assert!(CodecKind::Zip.is_writable());
    assert!(!CodecKind::RarReadOnly.is_writable());
    assert!(CodecKind::SevenZ.has_checksums());
    assert!(!CodecKind::Tar.has_checksums());
    assert!(!CodecKind::Gzip.has_checksums());
}
