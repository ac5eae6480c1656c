use rusty_zip::format::detect_archive_type;
use rusty_zip::format::FormatKind;
use rusty_zip::signature::detect_by_table;
use rusty_zip::signature::fixed_pattern;
use rusty_zip::signature::known_signatures;
use rusty_zip::signature::match_signatures;
use rusty_zip::signature::pattern_matches;
use rusty_zip::signature::FormatSignature;

#[test]
fn pattern_with_wildcards() {
    let pattern = vec![Some(0x50), None, Some(0x03)];
    assert!(pattern_matches(&pattern, &[0x50, 0x4B, 0x03]));
    assert!(pattern_matches(&pattern, &[0x50, 0x00, 0x03, 0xFF]));
    assert!(!pattern_matches(&pattern, &[0x50, 0x4B, 0x04]));
    assert!(!pattern_matches(&pattern, &[0x50, 0x4B]));
    assert!(pattern_matches(&Vec::new(), &[]));
    assert_eq!(fixed_pattern(&[1, 2]), vec![Some(1), Some(2)]);
}

#[test]
fn known_table_is_in_order() {
    let table = known_signatures();
    let kinds: Vec<FormatKind> = table.iter().map(|s| s.kind).collect();
    assert_eq!(
        kinds,
        vec![
            FormatKind::Zip,
            FormatKind::SevenZ,
            FormatKind::Rar5,
            FormatKind::Rar4,
            FormatKind::Gzip
        ]
    );
    assert_eq!(table[2].pattern.len(), 8);
    assert_eq!(table[3].pattern.len(), 7);
    assert_eq!(
        table[3].pattern,
        vec![Some(0x52), Some(0x61), Some(0x72), Some(0x21), Some(0x1A), Some(0x07), Some(0x00)]
    );
}

#[test]
fn table_agrees_with_detection() {
    let table = known_signatures();
    let streams: Vec<Vec<u8>> = vec![
        vec![0x50, 0x4B, 0x03, 0x04, 0x14],
        vec![0x37, 0x7A, 0xBC, 0xAF, 0x27, 0x1C, 0x00],
        vec![0x52, 0x61, 0x72, 0x21, 0x1A, 0x07, 0x01, 0x00],
        vec![0x52, 0x61, 0x72, 0x21, 0x1A, 0x07, 0x00],
        vec![0x1F, 0x8B, 0x08, 0x00],
        vec![0x52, 0x61, 0x72, 0x21, 0x1A, 0x07],
        vec![],
        b"plain".to_vec(),
    ];
    for stream in &streams {
        assert_eq!(detect_by_table(&table, stream), detect_archive_type(stream));
    }
    assert_eq!(match_signatures(&table, &streams[2]), Some(2));
    assert_eq!(match_signatures(&table, &streams[3]), Some(3));
    assert_eq!(match_signatures(&table, &streams[6]), None);
}

#[test]
fn longest_match_wins_whatever_the_order() {
    // The shorter signature stands first; the longer one still wins.
    let table = vec![
        FormatSignature { pattern: fixed_pattern(&[0x52, 0x61]), kind: FormatKind::Rar4 },
        FormatSignature { pattern: fixed_pattern(&[0x52, 0x61, 0x72]), kind: FormatKind::Rar5 },
        FormatSignature { pattern: vec![None, Some(0x61), None], kind: FormatKind::Gzip },
    ];
    assert_eq!(detect_by_table(&table, &[0x52, 0x61, 0x72, 0x21]), FormatKind::Rar5);
    assert_eq!(match_signatures(&table, &[0x52, 0x61, 0x72, 0x21]), Some(1));
    // Of two matches of one length the first wins.
    assert_eq!(match_signatures(&table, &[0x00, 0x61, 0x72]), Some(2));
    assert_eq!(detect_by_table(&table, &[0x52, 0x61, 0x00]), FormatKind::Gzip);
    assert_eq!(match_signatures(&table, &[0x52, 0x61, 0x00]), Some(2));
    assert_eq!(detect_by_table(&table, &[0x52, 0x61]), FormatKind::Rar4);
    assert_eq!(detect_by_table(&table, &[0x52]), FormatKind::Unknown);
    assert_eq!(detect_by_table(&Vec::new(), &[0x52]), FormatKind::Unknown);
}
