use repo_mirror::name::{decode_pkgname, ends_with, package_files};

#[test]
fn decode_strips_three_fields() {
    assert_eq!(decode_pkgname("pkgname-1.2.3-1-x86_64.pkg.tar.zst"), "pkgname");
}

#[test]
fn decode_keeps_separators_of_the_name() {
    assert_eq!(decode_pkgname("lib32-gcc-libs-13.2.1-4-x86_64.pkg.tar.zst"), "lib32-gcc-libs");
}

#[test]
fn decode_short_names_keep_first_field() {
    assert_eq!(decode_pkgname("plain"), "plain");
    assert_eq!(decode_pkgname("a-b"), "a");
    assert_eq!(decode_pkgname("a-b-c"), "a");
    assert_eq!(decode_pkgname("a-b-c-d"), "a");
    assert_eq!(decode_pkgname(""), "");
    assert_eq!(decode_pkgname("---"), "");
    assert_eq!(decode_pkgname("----"), "-");
}

#[test]
fn decode_counts_characters_not_bytes() {
    assert_eq!(decode_pkgname("año-é-1-ü"), "año");
}

#[test]
fn suffix_test() {
    assert!(ends_with("a-1-1-x86_64.pkg.tar.zst", "pkg.tar.zst"));
    assert!(!ends_with("a-1-1-x86_64.pkg.tar.xz", "pkg.tar.zst"));
    assert!(!ends_with("zst", "pkg.tar.zst"));
    assert!(ends_with("anything", ""));
}

#[test]
fn package_files_keep_order() {
    let entries = vec![
        "b-1-1-any.pkg.tar.zst".to_string(),
        "owner.db.tar.gz".to_string(),
        "a-1-1-any.pkg.tar.zst".to_string(),
        "a-1-1-any.pkg.tar.zst.sig".to_string(),
    ];
    assert_eq!(
        package_files(&entries),
        vec!["b-1-1-any.pkg.tar.zst".to_string(), "a-1-1-any.pkg.tar.zst".to_string()]
    );
}

#[test]
fn package_files_need_the_dot_of_the_extension() {
    let entries = vec![
        "pkgA-1.0-1-xpkg.tar.zst".to_string(),
        "pkgA-1.0-1-x86_64.pkg.tar.zst".to_string(),
        "pkg.tar.zst".to_string(),
        ".pkg.tar.zst".to_string(),
    ];
    assert_eq!(
        package_files(&entries),
        vec!["pkgA-1.0-1-x86_64.pkg.tar.zst".to_string(), ".pkg.tar.zst".to_string()]
    );
}
