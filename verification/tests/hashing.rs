use rusty_zip::hasher::crc32;
use rusty_zip::hasher::crc32_streamed;
use rusty_zip::hasher::digest_to_bytes;
use rusty_zip::hasher::hash_content;
use rusty_zip::hasher::ContentHasher;
use rusty_zip::hasher::HashAlgorithm;

#[test]
fn crc32_known_values() {
    assert_eq!(crc32(b""), 0x0000_0000);
    assert_eq!(crc32(b"a"), 0xE8B7_BE43);
    assert_eq!(crc32(b"hello"), 0x3610_A686);
    assert_eq!(crc32(b"world"), 0x3A77_1143);
    assert_eq!(crc32(b"123456789"), 0xCBF4_3926);
    assert_eq!(crc32(b"The quick brown fox jumps over the lazy dog"), 0x414F_A339);
}

#[test]
fn chunking_does_not_change_the_digest() {
    let data = b"The quick brown fox jumps over the lazy dog";
    let mut hasher = ContentHasher::new();
    hasher.update(&data[..10]);
    hasher.update(&data[10..10]);
    hasher.update(&data[10..31]);
    hasher.update(&data[31..]);
    assert_eq!(hasher.finish(), 0x414F_A339);
    assert_eq!(hasher.finish(), crc32(data));
}

#[test]
fn streaming_window_does_not_change_the_digest() {
    let data: Vec<u8> = (0..1000u32).map(|i| (i * 7 % 251) as u8).collect();
    let whole = crc32(&data);
    assert_eq!(crc32_streamed(&data, 1), whole);
    assert_eq!(crc32_streamed(&data, 7), whole);
    assert_eq!(crc32_streamed(&data, 64), whole);
    assert_eq!(crc32_streamed(&data, 1000), whole);
    assert_eq!(crc32_streamed(&data, 4096), whole);
    assert_eq!(crc32_streamed(b"", 16), 0);
}

#[test]
fn fresh_hasher_gives_the_digest_of_nothing() {
    let hasher = ContentHasher::new();
    assert_eq!(hasher.reg, 0xFFFF_FFFF);
    assert_eq!(hasher.finish(), 0);
}

#[test]
fn digest_bytes_are_big_endian() {
    assert_eq!(digest_to_bytes(0x3610_A686), vec![0x36, 0x10, 0xA6, 0x86]);
    assert_eq!(digest_to_bytes(0), vec![0, 0, 0, 0]);
    assert_eq!(digest_to_bytes(0xFFFF_FFFF), vec![0xFF, 0xFF, 0xFF, 0xFF]);
    assert_eq!(digest_to_bytes(0x0000_0001), vec![0, 0, 0, 1]);
}

#[test]
fn hash_depends_on_bytes_not_on_name() {
    let one = hash_content("file.bin", b"same bytes");
    let two = hash_content("other/name.dat", b"same bytes");
    assert_eq!(one.digest, two.digest);
    assert_eq!(one.path, "file.bin");
    assert_eq!(two.path, "other/name.dat");
    assert_eq!(one.algorithm, HashAlgorithm::Crc32);
}

#[test]
fn hash_differs_where_one_byte_differs() {
    let one = hash_content("file.bin", b"hello");
    let two = hash_content("file.bin", b"hellp");
    assert_ne!(one.digest, two.digest);
    assert_eq!(one.digest, vec![0x36, 0x10, 0xA6, 0x86]);
    assert_eq!(two.digest, vec![0xBB, 0x18, 0xAB, 0x73]);
}
