use repo_mirror::reduce::{ReducedSet, Reducer};

fn names(list: &[&str]) -> Vec<String> {
    list.iter().map(|s| s.to_string()).collect()
}

fn version_key(artifact: &str) -> (String, String) {
    let fields: Vec<&str> = artifact.rsplitn(4, '-').collect();
    (fields[2].to_string(), fields[1].to_string())
}

fn compare(first: &str, second: &str) -> isize {
    let a = version_key(first);
    let b = version_key(second);
    if a > b {
        1
    } else if a < b {
        -1
    } else {
        0
    }
}

fn reduce(list: &[&str]) -> Vec<String> {
    let mut reducer = Reducer::new(names(list));
    while let Some((offered, held)) = reducer.pending() {
        reducer.answer(compare(&offered, &held));
    }
    assert!(reducer.is_done());
    let set = reducer.into_set();
    let mut out = Vec::new();
    let mut i = 0;
    while let Some(artifact) = set.artifact_at(i) {
        out.push(artifact.clone());
        i += 1;
    }
    assert_eq!(out.len(), set.len());
    out
}

#[test]
fn newer_version_replaces_older() {
    assert_eq!(
        reduce(&["pkgA-1.0-1-x86_64.pkg.tar.zst", "pkgA-2.0-1-x86_64.pkg.tar.zst"]),
        names(&["pkgA-2.0-1-x86_64.pkg.tar.zst"])
    );
}

#[test]
fn older_version_does_not_replace_newer() {
    assert_eq!(
        reduce(&["pkgA-2.0-1-x86_64.pkg.tar.zst", "pkgA-1.0-1-x86_64.pkg.tar.zst"]),
        names(&["pkgA-2.0-1-x86_64.pkg.tar.zst"])
    );
}

#[test]
fn equal_versions_keep_the_first_seen() {
    assert_eq!(
        reduce(&["pkgA-1.0-1-x86_64.pkg.tar.zst", "pkgA-1.0-1-any.pkg.tar.zst"]),
        names(&["pkgA-1.0-1-x86_64.pkg.tar.zst"])
    );
    assert_eq!(
        reduce(&["pkgA-1.0-1-any.pkg.tar.zst", "pkgA-1.0-1-x86_64.pkg.tar.zst"]),
        names(&["pkgA-1.0-1-any.pkg.tar.zst"])
    );
}

#[test]
fn one_entry_for_each_logical_name() {
    let out = reduce(&[
        "b-1-1-any.pkg.tar.zst",
        "a-1-1-any.pkg.tar.zst",
        "b-3-1-any.pkg.tar.zst",
        "c-d-1-1-any.pkg.tar.zst",
        "a-0-1-any.pkg.tar.zst",
        "b-2-1-any.pkg.tar.zst",
    ]);
    assert_eq!(
        out,
        names(&["b-3-1-any.pkg.tar.zst", "a-1-1-any.pkg.tar.zst", "c-d-1-1-any.pkg.tar.zst"])
    );
}

#[test]
fn empty_list_reduces_to_nothing() {
    let reducer = Reducer::new(Vec::new());
    assert!(reducer.is_done());
    assert_eq!(reducer.pending(), None);
    assert_eq!(reducer.into_set().len(), 0);
}

#[test]
fn reducer_asks_with_the_new_artifact_first() {
    let mut reducer = Reducer::new(names(&[
        "a-1-1-any.pkg.tar.zst",
        "b-1-1-any.pkg.tar.zst",
        "a-2-1-any.pkg.tar.zst",
    ]));
    assert!(!reducer.is_done());
    assert_eq!(
        reducer.pending(),
        Some(("a-2-1-any.pkg.tar.zst".to_string(), "a-1-1-any.pkg.tar.zst".to_string()))
    );
    reducer.answer(0);
    assert!(reducer.is_done());
    reducer.answer(5);
    assert!(reducer.is_done());
    let set = reducer.into_set();
    assert_eq!(set.len(), 2);
    assert_eq!(set.get("a"), Some(&"a-1-1-any.pkg.tar.zst".to_string()));
}

#[test]
fn set_offer_and_lookup() {
    let mut set = ReducedSet::new();
    assert_eq!(set.len(), 0);
    assert!(!set.contains_key("a"));
    set.offer("a-1-1-any.pkg.tar.zst".to_string(), 0);
    set.offer("b-1-1-any.pkg.tar.zst".to_string(), -1);
    assert_eq!(set.len(), 2);
    assert!(set.contains_key("a"));
    assert_eq!(set.position("b"), Some(1));
    assert_eq!(set.position("c"), None);
    set.offer("a-2-1-any.pkg.tar.zst".to_string(), 0);
    assert_eq!(set.get("a"), Some(&"a-1-1-any.pkg.tar.zst".to_string()));
    set.offer("a-2-1-any.pkg.tar.zst".to_string(), -3);
    assert_eq!(set.get("a"), Some(&"a-1-1-any.pkg.tar.zst".to_string()));
    set.offer("a-2-1-any.pkg.tar.zst".to_string(), 1);
    assert_eq!(set.get("a"), Some(&"a-2-1-any.pkg.tar.zst".to_string()));
    assert_eq!(set.len(), 2);
    assert_eq!(set.artifact_at(0), Some(&"a-2-1-any.pkg.tar.zst".to_string()));
    assert_eq!(set.artifact_at(1), Some(&"b-1-1-any.pkg.tar.zst".to_string()));
    assert_eq!(set.artifact_at(2), None);
    assert_eq!(set.get("c"), None);
}
