use repo_mirror::layout::{
    artifact_dir, artifact_path, download_url, index_path, listing_url, owner,
};
use repo_mirror::text::{chars_of, same_text};

#[test]
fn owner_is_the_first_segment() {
    assert_eq!(owner("someone/packages"), "someone");
    assert_eq!(owner("someone"), "someone");
    assert_eq!(owner("/packages"), "");
    assert_eq!(owner("a/b/c"), "a");
    assert_eq!(owner(""), "");
    assert_eq!(owner("émile/x"), "émile");
}

#[test]
fn paths_in_the_repository() {
    assert_eq!(artifact_dir("/srv/repo"), "/srv/repo/x86_64");
    assert_eq!(
        artifact_path("/srv/repo", "a-1-1-any.pkg.tar.zst"),
        "/srv/repo/x86_64/a-1-1-any.pkg.tar.zst"
    );
    assert_eq!(index_path("/srv/repo", "someone/packages"), "/srv/repo/x86_64/someone.db.tar.gz");
}

#[test]
fn addresses_of_the_hosting_service() {
    assert_eq!(
        download_url("someone/packages", "a-1-1-any.pkg.tar.zst"),
        "https://github.com/someone/packages/releases/download/packages/a-1-1-any.pkg.tar.zst"
    );
    assert_eq!(
        listing_url("someone/packages"),
        "https://api.github.com/repos/someone/packages/releases"
    );
}

#[test]
fn text_helpers() {
    assert!(same_text("abc", "abc"));
    assert!(!same_text("abc", "abd"));
    assert!(!same_text("abc", "ab"));
    assert!(same_text("", ""));
    assert!(same_text("é", "é"));
    assert_eq!(chars_of("aé-"), vec!['a', 'é', '-']);
}
