use rusty_zip::add::SourceFile;
use rusty_zip::archive::Archive;
use rusty_zip::archive::Integrity;
use rusty_zip::error::ArchiveError;
use rusty_zip::format::CodecKind;
use rusty_zip::rename::RenamePair;

fn source(path: &str, content: &[u8]) -> SourceFile {
    SourceFile { path: path.to_string(), modified: 1_700_000_000, content: Some(content.to_vec()) }
}

fn missing(path: &str) -> SourceFile {
    SourceFile { path: path.to_string(), modified: 0, content: None }
}

fn names(list: &[&str]) -> Vec<String> {
    list.iter().map(|s| s.to_string()).collect()
}

fn pair(from: &str, to: &str) -> RenamePair {
    RenamePair { from: from.to_string(), to: to.to_string() }
}

/// `archive.7z` with `a.txt` ("hello") and `dir/b.txt` ("world").
fn sample(codec: CodecKind) -> Archive {
    let mut archive = Archive::new(codec);
    archive.add(&vec![source("a.txt", b"hello"), source("dir/b.txt", b"world")]).unwrap();
    archive
}

#[test]
fn new_archive_is_empty() {
    let archive = Archive::new(CodecKind::Zip);
    assert_eq!(archive.len(), 0);
    assert!(archive.list().is_empty());
    assert!(archive.names().is_empty());
    assert!(archive.test().is_empty());
    assert_eq!(archive.codec, CodecKind::Zip);
}

#[test]
fn list_and_extract_scenario() {
    let archive = sample(CodecKind::SevenZ);
    assert_eq!(archive.names(), names(&["a.txt", "dir/b.txt"]));
    let files = archive.extract(None, true).unwrap();
    assert_eq!(files.len(), 2);
    assert_eq!(files[0].target, "a.txt");
    assert_eq!(files[0].content, b"hello");
    assert_eq!(files[1].target, "dir/b.txt");
    assert_eq!(files[1].content, b"world");
}

#[test]
fn list_gives_the_records() {
    let archive = sample(CodecKind::Zip);
    let entries = archive.list();
    assert_eq!(entries.len(), 2);
    assert_eq!(entries[0].path, "a.txt");
    assert_eq!(entries[0].size, 5);
    assert_eq!(entries[0].compressed_size, 5);
    assert_eq!(entries[0].modified, 1_700_000_000);
    assert_eq!(entries[0].checksum, Some(0x3610_A686));
    assert_eq!(entries[1].path, "dir/b.txt");
    assert_eq!(entries[1].checksum, Some(0x3A77_1143));
}

#[test]
fn list_twice_gives_the_same() {
    let archive = sample(CodecKind::Tar);
    let first = archive.list();
    let second = archive.list();
    assert_eq!(first.len(), second.len());
    for (a, b) in first.iter().zip(second.iter()) {
        assert_eq!(a.path, b.path);
        assert_eq!(a.size, b.size);
        assert_eq!(a.compressed_size, b.compressed_size);
        assert_eq!(a.modified, b.modified);
        assert_eq!(a.checksum, b.checksum);
    }
    assert_eq!(archive.names(), archive.names());
}

#[test]
fn formats_without_checksums_store_none() {
    let tar = sample(CodecKind::Tar);
    let gzip = sample(CodecKind::Gzip);
    assert_eq!(tar.list()[0].checksum, None);
    assert_eq!(gzip.list()[1].checksum, None);
}

#[test]
fn add_then_extract_round_trip() {
    let inputs: Vec<(&str, Vec<u8>)> = vec![
        ("readme.md", b"# title\n".to_vec()),
        ("src/main.rs", b"fn main() {}\n".to_vec()),
        ("data/blob.bin", (0..=255u8).collect()),
        ("empty", Vec::new()),
    ];
    let sources: Vec<SourceFile> = inputs.iter().map(|(p, c)| source(p, c)).collect();
    let mut archive = Archive::new(CodecKind::Zip);
    archive.add(&sources).unwrap();
    let files = archive.extract(None, true).unwrap();
    assert_eq!(files.len(), inputs.len());
    for (file, (path, content)) in files.iter().zip(inputs.iter()) {
        assert_eq!(file.target, *path);
        assert_eq!(file.content, *content);
    }
}

#[test]
fn add_normalizes_paths() {
    let mut archive = Archive::new(CodecKind::Zip);
    archive.add(&vec![source("\\dir\\b.txt", b"x"), source("/abs/c.txt", b"y")]).unwrap();
    assert_eq!(archive.names(), names(&["dir/b.txt", "abs/c.txt"]));
}

#[test]
fn add_replaces_an_entry_of_the_same_path() {
    let mut archive = sample(CodecKind::Zip);
    archive.add(&vec![source("a.txt", b"HELLO AGAIN"), source("c.txt", b"new")]).unwrap();
    assert_eq!(archive.names(), names(&["a.txt", "dir/b.txt", "c.txt"]));
    let files = archive.extract(None, true).unwrap();
    assert_eq!(files[0].content, b"HELLO AGAIN");
    assert_eq!(files[1].content, b"world");
    assert_eq!(archive.list()[0].size, 11);
}

#[test]
fn add_missing_file_changes_nothing() {
    let mut archive = sample(CodecKind::Zip);
    let result = archive.add(&vec![source("c.txt", b"new"), missing("nowhere.txt")]);
    assert_eq!(result, Err(ArchiveError::TargetMissing));
    assert_eq!(archive.names(), names(&["a.txt", "dir/b.txt"]));
}

#[test]
fn add_nothing_is_fine() {
    let mut archive = sample(CodecKind::Zip);
    assert_eq!(archive.add(&Vec::new()), Ok(()));
    assert_eq!(archive.len(), 2);
}

#[test]
fn rar_refuses_every_change() {
    let mut archive = Archive::new(CodecKind::RarReadOnly);
    assert_eq!(archive.add(&vec![source("a.txt", b"x")]), Err(ArchiveError::UnsupportedFeature));
    assert_eq!(archive.add(&vec![missing("a.txt")]), Err(ArchiveError::UnsupportedFeature));
    assert_eq!(archive.delete(&names(&["a.txt"])), Err(ArchiveError::UnsupportedFeature));
    assert_eq!(archive.rename(&vec![pair("a.txt", "b.txt")]), Err(ArchiveError::UnsupportedFeature));
    assert_eq!(archive.len(), 0);
    assert!(archive.list().is_empty());
    assert!(archive.extract(None, true).unwrap().is_empty());
    assert!(archive.test().is_empty());
}

#[test]
fn delete_then_list() {
    let mut archive = sample(CodecKind::Zip);
    archive.add(&vec![source("c.txt", b"third")]).unwrap();
    assert_eq!(archive.delete(&names(&["dir/b.txt"])), Ok(()));
    assert_eq!(archive.names(), names(&["a.txt", "c.txt"]));
    assert!(!archive.names().contains(&"dir/b.txt".to_string()));
    assert_eq!(archive.find(&"dir/b.txt".to_string()), None);
    assert_eq!(archive.find(&"c.txt".to_string()), Some(1));
}

#[test]
fn delete_unknown_entry_changes_nothing() {
    let mut archive = sample(CodecKind::Zip);
    let result = archive.delete(&names(&["a.txt", "nope.txt"]));
    assert_eq!(result, Err(ArchiveError::EntryNotFound));
    assert_eq!(archive.names(), names(&["a.txt", "dir/b.txt"]));
}

#[test]
fn delete_all_and_none() {
    let mut archive = sample(CodecKind::Tar);
    assert_eq!(archive.delete(&Vec::new()), Ok(()));
    assert_eq!(archive.len(), 2);
    assert_eq!(archive.delete(&names(&["dir/b.txt", "a.txt", "a.txt"])), Ok(()));
    assert_eq!(archive.len(), 0);
}

#[test]
fn rename_then_list() {
    let mut archive = sample(CodecKind::Zip);
    assert_eq!(archive.rename(&vec![pair("a.txt", "docs\\first.txt")]), Ok(()));
    assert_eq!(archive.names(), names(&["docs/first.txt", "dir/b.txt"]));
    assert!(!archive.names().contains(&"a.txt".to_string()));
    let files = archive.extract(None, true).unwrap();
    assert_eq!(files[0].content, b"hello");
    assert_eq!(archive.list()[0].checksum, Some(0x3610_A686));
}

#[test]
fn rename_errors_change_nothing() {
    let mut archive = sample(CodecKind::Zip);
    assert_eq!(archive.rename(&vec![pair("nope.txt", "x")]), Err(ArchiveError::EntryNotFound));
    assert_eq!(
        archive.rename(&vec![pair("a.txt", "dir/b.txt")]),
        Err(ArchiveError::NameCollision)
    );
    // The first pair alone would go through; the second fails the whole.
    assert_eq!(
        archive.rename(&vec![pair("a.txt", "z.txt"), pair("a.txt", "y.txt")]),
        Err(ArchiveError::EntryNotFound)
    );
    assert_eq!(archive.names(), names(&["a.txt", "dir/b.txt"]));
}

#[test]
fn rename_pairs_apply_in_order() {
    let mut archive = sample(CodecKind::Zip);
    let swap = vec![pair("a.txt", "tmp"), pair("dir/b.txt", "a.txt"), pair("tmp", "dir/b.txt")];
    assert_eq!(archive.rename(&swap), Ok(()));
    assert_eq!(archive.names(), names(&["dir/b.txt", "a.txt"]));
    let files = archive.extract(None, true).unwrap();
    assert_eq!(files[0].content, b"hello");
    assert_eq!(files[1].content, b"world");
}

#[test]
fn rename_to_itself_is_no_change() {
    let mut archive = sample(CodecKind::Zip);
    assert_eq!(archive.rename(&vec![pair("a.txt", "a.txt")]), Ok(()));
    assert_eq!(archive.names(), names(&["a.txt", "dir/b.txt"]));
}

#[test]
fn extract_selection_in_given_order() {
    let archive = sample(CodecKind::Zip);
    let wanted = names(&["dir/b.txt", "a.txt"]);
    let files = archive.extract(Some(&wanted), true).unwrap();
    assert_eq!(files.len(), 2);
    assert_eq!(files[0].target, "dir/b.txt");
    assert_eq!(files[1].target, "a.txt");
    let none: Vec<String> = Vec::new();
    assert!(archive.extract(Some(&none), false).unwrap().is_empty());
}

#[test]
fn extract_unknown_entry() {
    let archive = sample(CodecKind::Zip);
    let wanted = names(&["a.txt", "nope.txt"]);
    assert_eq!(archive.extract(Some(&wanted), true).err(), Some(ArchiveError::EntryNotFound));
    assert_eq!(archive.extract(Some(&wanted), false).err(), Some(ArchiveError::EntryNotFound));
}

#[test]
fn extract_flat_uses_base_names() {
    let archive = sample(CodecKind::Zip);
    let files = archive.extract(None, false).unwrap();
    assert_eq!(files[0].target, "a.txt");
    assert_eq!(files[1].target, "b.txt");
    assert_eq!(files[1].content, b"world");
}

#[test]
fn extract_flat_collision_writes_nothing() {
    let mut archive = sample(CodecKind::Zip);
    archive.add(&vec![source("other/b.txt", b"clash")]).unwrap();
    let result = archive.extract(None, false);
    assert_eq!(result.err(), Some(ArchiveError::NameCollision));
    // With paths kept the same entries come out.
    assert_eq!(archive.extract(None, true).unwrap().len(), 3);
    // A selection that leaves one of the two out is fine.
    let wanted = names(&["a.txt", "other/b.txt"]);
    let files = archive.extract(Some(&wanted), false).unwrap();
    assert_eq!(files[1].target, "b.txt");
    assert_eq!(files[1].content, b"clash");
}

#[test]
fn test_reports_each_entry_by_itself() {
    let mut archive = sample(CodecKind::Zip);
    archive.add(&vec![source("c.txt", b"third")]).unwrap();
    let clean = archive.test();
    assert_eq!(clean.len(), 3);
    assert!(clean.iter().all(|line| line.status == Integrity::Passed));
    // Damage the second entry's content; its stored checksum stays.
    archive.members[1].content[0] ^= 0x01;
    let report = archive.test();
    assert_eq!(report[0].path, "a.txt");
    assert_eq!(report[0].status, Integrity::Passed);
    assert_eq!(report[1].path, "dir/b.txt");
    assert_eq!(report[1].status, Integrity::Failed);
    assert_eq!(report[2].status, Integrity::Passed);
    assert_eq!(report[0].digest, 0x3610_A686);
    assert_ne!(report[1].digest, 0x3A77_1143);
}

#[test]
fn test_without_checksums_is_unverifiable() {
    let mut tar = sample(CodecKind::Tar);
    tar.members[0].content[0] ^= 0x01;
    let report = tar.test();
    assert_eq!(report[0].status, Integrity::Unverifiable);
    assert_eq!(report[1].status, Integrity::Unverifiable);
    let mut zip = sample(CodecKind::Zip);
    zip.members[0].entry.checksum = None;
    assert_eq!(zip.test()[0].status, Integrity::Unverifiable);
    assert_eq!(zip.test()[1].status, Integrity::Passed);
}

#[test]
fn hash_of_entries() {
    let archive = sample(CodecKind::Tar);
    let digests = archive.hash(&names(&["dir/b.txt", "a.txt"])).unwrap();
    assert_eq!(digests.len(), 2);
    assert_eq!(digests[0].path, "dir/b.txt");
    assert_eq!(digests[0].digest, vec![0x3A, 0x77, 0x11, 0x43]);
    assert_eq!(digests[1].digest, vec![0x36, 0x10, 0xA6, 0x86]);
    assert_eq!(archive.hash(&names(&["nope"])).err(), Some(ArchiveError::EntryNotFound));
}

#[test]
fn hash_is_the_same_in_every_format() {
    let zip = sample(CodecKind::Zip);
    let tar = sample(CodecKind::Tar);
    let wanted = names(&["a.txt"]);
    assert_eq!(zip.hash(&wanted).unwrap()[0].digest, tar.hash(&wanted).unwrap()[0].digest);
}

#[test]
fn duplicate_is_independent() {
    let archive = sample(CodecKind::Zip);
    let mut copy = archive.duplicate();
    copy.delete(&names(&["a.txt"])).unwrap();
    assert_eq!(copy.names(), names(&["dir/b.txt"]));
    assert_eq!(archive.names(), names(&["a.txt", "dir/b.txt"]));
}

#[test]
fn error_messages() {
    assert_eq!(ArchiveError::NotFound.message(), "archive or file not found");
    assert_eq!(ArchiveError::UnsupportedFormat.message(), "archive format not supported");
    assert_eq!(ArchiveError::CorruptHeader.message(), "archive header is corrupt");
    assert_eq!(ArchiveError::UnsupportedFeature.message(), "feature not supported for this format");
    assert_eq!(ArchiveError::EntryNotFound.message(), "entry not found in archive");
    assert_eq!(ArchiveError::NameCollision.message(), "two entries would be written to one name");
    assert_eq!(ArchiveError::TargetMissing.message(), "file to add does not exist");
    assert_eq!(ArchiveError::IoFailure.message(), "read or write failed");
}
