use rusty_zip::path::base_name;
use rusty_zip::path::normalize_path;

#[test]
fn normalize_unifies_separators() {
    assert_eq!(normalize_path("dir\\sub\\b.txt"), "dir/sub/b.txt");
    assert_eq!(normalize_path("dir/b.txt"), "dir/b.txt");
    assert_eq!(normalize_path("a.txt"), "a.txt");
}

#[test]
fn normalize_makes_relative() {
    assert_eq!(normalize_path("/etc/hosts"), "etc/hosts");
    assert_eq!(normalize_path("\\\\server\\share"), "server/share");
    assert_eq!(normalize_path("//a"), "a");
    assert_eq!(normalize_path("/"), "");
    assert_eq!(normalize_path(""), "");
}

#[test]
fn normalize_is_idempotent() {
    let once = normalize_path("\\dir\\b.txt");
    let twice = normalize_path(&once);
    assert_eq!(once, twice);
    assert_eq!(twice, "dir/b.txt");
}

#[test]
fn normalize_keeps_other_characters() {
    assert_eq!(normalize_path("d\u{e9}j\u{e0}/vu.txt"), "d\u{e9}j\u{e0}/vu.txt");
    assert_eq!(normalize_path("a/./b/../c"), "a/./b/../c");
}

#[test]
fn base_name_is_the_last_part() {
    assert_eq!(base_name("dir/b.txt"), "b.txt");
    assert_eq!(base_name("a/b/c/d.bin"), "d.bin");
    assert_eq!(base_name("a.txt"), "a.txt");
    assert_eq!(base_name("dir/"), "");
    assert_eq!(base_name(""), "");
}
