use repo_mirror::error::SyncError;
use repo_mirror::listing::{get_member, listed_assets, release_assets, Json};

fn text(s: &str) -> Json {
    Json::Text(s.to_string())
}

fn object(members: Vec<(&str, Json)>) -> Json {
    Json::Object(members.into_iter().map(|(k, v)| (k.to_string(), v)).collect())
}

#[test]
fn reads_the_assets_of_the_newest_release_only() {
    let body = br#"[
        {"tag_name": "packages", "assets": [
            {"name": "b-1-1-any.pkg.tar.zst", "size": 10},
            {"size": 2.5e3, "name": "a-1-1-any.pkg.tar.zst"}
        ]},
        {"tag_name": "old", "assets": [{"name": "old-1-1-any.pkg.tar.zst"}]}
    ]"#;
    assert_eq!(
        release_assets(body),
        Ok(Some(vec!["b-1-1-any.pkg.tar.zst".to_string(), "a-1-1-any.pkg.tar.zst".to_string()]))
    );
}

#[test]
fn release_without_assets_lists_nothing() {
    assert_eq!(release_assets(br#"[{"assets": []}]"#), Ok(Some(Vec::new())));
    assert_eq!(release_assets(br#"[{"tag_name": "x"}]"#), Ok(None));
    assert_eq!(release_assets(br#"[{"assets": null}]"#), Ok(None));
    assert_eq!(release_assets(br#"[{"assets": {"name": "x"}}]"#), Ok(None));
    assert_eq!(release_assets(b"[]"), Ok(None));
    assert_eq!(release_assets(br#"{"message": "rate limit"}"#), Ok(None));
    assert_eq!(release_assets(br#"["assets"]"#), Ok(None));
    assert_eq!(release_assets(b"null"), Ok(None));
}

#[test]
fn listing_that_is_no_json_is_refused() {
    assert_eq!(release_assets(b""), Err(SyncError::Network));
    assert_eq!(release_assets(b"<html>"), Err(SyncError::Network));
    assert_eq!(release_assets(br#"[{"assets": ["#), Err(SyncError::Network));
}

#[test]
fn asset_without_a_name_is_refused() {
    assert_eq!(release_assets(br#"[{"assets": [{"size": 1}]}]"#), Err(SyncError::Network));
    assert_eq!(release_assets(br#"[{"assets": [{"name": 1}]}]"#), Err(SyncError::Network));
    assert_eq!(release_assets(br#"[{"assets": ["a"]}]"#), Err(SyncError::Network));
    assert_eq!(
        release_assets(br#"[{"assets": [{"name": "a"}, {"name": null}]}]"#),
        Err(SyncError::Network)
    );
}

#[test]
fn repeated_key_counts_once() {
    assert_eq!(
        release_assets(br#"[{"assets": [{"name": "a"}], "assets": [{"name": "b"}]}]"#),
        Ok(Some(vec!["b".to_string()]))
    );
}

#[test]
fn reads_a_document_built_by_hand() {
    let doc = Json::Array(vec![
        object(vec![
            ("id", Json::Number("1".to_string())),
            ("draft", Json::Bool(false)),
            ("assets", Json::Array(vec![object(vec![("name", text("x-1-1-any.pkg.tar.zst"))])])),
        ]),
        Json::Null,
    ]);
    assert_eq!(listed_assets(&doc), Ok(Some(vec!["x-1-1-any.pkg.tar.zst".to_string()])));
    assert_eq!(listed_assets(&Json::Null), Ok(None));
    assert_eq!(listed_assets(&Json::Array(vec![text("assets")])), Ok(None));
}

#[test]
fn member_lookup() {
    let doc = object(vec![("a", text("1")), ("b", text("2"))]);
    assert_eq!(get_member(&doc, "b"), Some(&text("2")));
    assert_eq!(get_member(&doc, "c"), None);
    assert_eq!(get_member(&text("a"), "a"), None);
}
