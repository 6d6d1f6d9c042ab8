//! The release listing of the hosting service.
//!
//! The listing is a JSON document: an array of releases, newest first. Only
//! the newest release is read, and of it only the names of its assets.

use vstd::prelude::*;
use crate::error::SyncError;
use crate::text::same_text;

verus! {

/// A JSON document.
#[derive(Debug, PartialEq, Eq)]
pub enum Json {
    Null,
    Bool(bool),
    /// A number, in the decimal form in which it is written.
    Number(String),
    Text(String),
    Array(Vec<Json>),
    /// The members of an object, each key once.
    Object(Vec<(String, Json)>),
}

/// A parsed document of `serde_json`.
#[verifier::external_type_specification]
#[verifier::external_body]
pub struct ExValue(serde_json::Value);

/// An error of `serde_json`.
#[verifier::external_type_specification]
#[verifier::external_body]
pub struct ExJsonError(serde_json::Error);

/// The document that `serde_json` reads from `text`, where it reads one.
pub uninterp spec fn parsed_json(text: Seq<u8>) -> Option<Json>;

/// The document that a value of `serde_json` holds.
pub uninterp spec fn json_model(value: serde_json::Value) -> Json;

/// `serde_json::from_slice`, asked for a `serde_json::Value`. Whether it
/// succeeds, and with which document, depends on the bytes alone.
#[verifier::external_body]
fn parse_value(text: &[u8]) -> (parsed: Result<serde_json::Value, serde_json::Error>)
    ensures
        parsed is Ok <==> parsed_json(text@) is Some,
        parsed is Ok ==> parsed_json(text@) == Some(json_model(parsed->Ok_0)),
{
    serde_json::from_slice::<serde_json::Value>(text)
}

/// Moves what a `serde_json::Value` holds into a `Json`, variant by variant.
#[verifier::external_body]
fn document_of(value: serde_json::Value) -> (doc: Json)
    ensures
        doc == json_model(value),
{
    match value {
        serde_json::Value::Null => Json::Null,
        serde_json::Value::Bool(b) => Json::Bool(b),
        serde_json::Value::Number(n) => Json::Number(n.to_string()),
        serde_json::Value::String(s) => Json::Text(s),
        serde_json::Value::Array(a) => Json::Array(a.into_iter().map(document_of).collect()),
        serde_json::Value::Object(m) => Json::Object(
            m.into_iter().map(|(k, v)| (k, document_of(v))).collect(),
        ),
    }
}

/// Position of the first member of `members` whose key is `key`.
pub open spec fn member_slot(members: Seq<(String, Json)>, key: Seq<char>) -> Option<int>
    decreases members.len(),
{
    if members.len() == 0 {
        None
    } else {
        match member_slot(members.drop_last(), key) {
            Some(i) => Some(i),
            None => if members.last().0@ == key {
                Some(members.len() - 1)
            } else {
                None
            },
        }
    }
}

/// The member `key` of `doc`, where `doc` is an object that has it.
pub open spec fn member(doc: Json, key: Seq<char>) -> Option<Json> {
    match doc {
        Json::Object(members) => match member_slot(members@, key) {
            Some(i) => Some(members@[i].1),
            None => None,
        },
        _ => None,
    }
}

/// The assets of the newest release of the listing `doc`: the array under
/// `assets` in the first element of `doc`, where there is one.
pub open spec fn newest_assets(doc: Json) -> Option<Seq<Json>> {
    match doc {
        Json::Array(releases) => if releases@.len() > 0 {
            match member(releases@[0], "assets"@) {
                Some(Json::Array(assets)) => Some(assets@),
                _ => None,
            }
        } else {
            None
        },
        _ => None,
    }
}

/// The name of an asset: the text under `name`.
pub open spec fn asset_name(asset: Json) -> Option<Seq<char>> {
    match member(asset, "name"@) {
        Some(Json::Text(name)) => Some(name@),
        _ => None,
    }
}

/// What the listing `doc` says: nothing, where its newest release shows no
/// array of assets; else the names of those assets, in order. A listing with
/// an asset that has no name is refused.
pub open spec fn listing_of(doc: Json) -> Result<Option<Seq<Seq<char>>>, SyncError> {
    match newest_assets(doc) {
        None => Ok(None),
        Some(assets) => if forall|i: int|
            0 <= i < assets.len() ==> asset_name(#[trigger] assets[i]) is Some {
            Ok(Some(Seq::new(assets.len(), |i: int| asset_name(assets[i]).unwrap())))
        } else {
            Err(SyncError::Network)
        },
    }
}

/// What the bytes of a listing say. Bytes that are no JSON are refused.
pub open spec fn listing_of_text(text: Seq<u8>) -> Result<Option<Seq<Seq<char>>>, SyncError> {
    match parsed_json(text) {
        Some(doc) => listing_of(doc),
        None => Err(SyncError::Network),
    }
}

/// What `member_slot` finds carries the key, and nothing in front of it does.
proof fn lemma_member_slot(members: Seq<(String, Json)>, key: Seq<char>)
    ensures
        match member_slot(members, key) {
            Some(i) => {
                &&& 0 <= i < members.len()
                &&& members[i].0@ == key
                &&& forall|k: int| 0 <= k < i ==> (#[trigger] members[k]).0@ != key
            },
            None => forall|k: int| 0 <= k < members.len() ==> (#[trigger] members[k]).0@ != key,
        },
    decreases members.len(),
{
    if members.len() > 0 {
        let front = members.drop_last();
        lemma_member_slot(front, key);
        assert forall|k: int| 0 <= k < front.len() implies members[k] == front[k] by {}
        match member_slot(front, key) {
            Some(i) => {
                assert forall|k: int| 0 <= k < i implies (#[trigger] members[k]).0@ != key by {
                    assert(members[k] == front[k]);
                }
            },
            None => {
                assert forall|k: int| 0 <= k < front.len() implies (#[trigger] members[k]).0@
                    != key by {
                    assert(members[k] == front[k]);
                }
            },
        }
    }
}

/// The member `key` of `doc`.
#[verifier::loop_isolation(false)]
pub fn get_member<'a>(doc: &'a Json, key: &str) -> (found: Option<&'a Json>)
    ensures
        match found {
            Some(value) => member(*doc, key@) == Some(*value),
            None => member(*doc, key@) is None,
        },
{
    match doc {
        Json::Object(members) => {
            proof {
                lemma_member_slot(members@, key@);
            }
            let mut i: usize = 0;
            while i < members.len()
                invariant
                    i <= members.len(),
                    forall|k: int| 0 <= k < i ==> (#[trigger] members@[k]).0@ != key@,
                decreases members.len() - i,
            {
                if same_text(members[i].0.as_str(), key) {
                    assert(members@[i as int].0@ == key@);
                    return Some(&members[i].1);
                }
                i = i + 1;
            }
            None
        },
        _ => None,
    }
}

/// Reads the names of the assets of the newest release out of a listing.
#[verifier::loop_isolation(false)]
pub fn listed_assets(doc: &Json) -> (listing: Result<Option<Vec<String>>, SyncError>)
    ensures
        match listing {
            Ok(Some(names)) => listing_of(*doc) == Ok::<_, SyncError>(Some(names.deep_view())),
            Ok(None) => listing_of(*doc) == Ok::<Option<Seq<Seq<char>>>, SyncError>(None),
            Err(e) => listing_of(*doc) == Err::<Option<Seq<Seq<char>>>, _>(e),
        },
{
    let releases = match doc {
        Json::Array(releases) => releases,
        _ => {
            return Ok(None);
        },
    };
    if releases.len() == 0 {
        return Ok(None);
    }
    let assets = match get_member(&releases[0], "assets") {
        Some(Json::Array(assets)) => assets,
        _ => {
            return Ok(None);
        },
    };
    assert(newest_assets(*doc) == Some(assets@));
    let mut names: Vec<String> = Vec::new();
    let mut i: usize = 0;
    while i < assets.len()
        invariant
            i <= assets.len(),
            names.len() == i,
            forall|k: int| 0 <= k < i ==> asset_name(#[trigger] assets@[k]) == Some(names@[k]@),
        decreases assets.len() - i,
    {
        match get_member(&assets[i], "name") {
            Some(Json::Text(name)) => {
                names.push(name.clone());
            },
            _ => {
                assert(asset_name(assets@[i as int]) is None);
                return Err(SyncError::Network);
            },
        }
        i = i + 1;
    }
    assert(names.deep_view() =~= Seq::new(
        assets@.len(),
        |i: int| asset_name(assets@[i]).unwrap(),
    ));
    Ok(Some(names))
}

/// Reads the names of the assets of the newest release out of the bytes of
/// a listing.
pub fn release_assets(text: &[u8]) -> (listing: Result<Option<Vec<String>>, SyncError>)
    ensures
        match listing {
            Ok(Some(names)) => listing_of_text(text@) == Ok::<_, SyncError>(
                Some(names.deep_view()),
            ),
            Ok(None) => listing_of_text(text@) == Ok::<Option<Seq<Seq<char>>>, SyncError>(None),
            Err(e) => listing_of_text(text@) == Err::<Option<Seq<Seq<char>>>, _>(e),
        },
{
    match parse_value(text) {
        Ok(value) => {
            let doc = document_of(value);
            listed_assets(&doc)
        },
        Err(_) => Err(SyncError::Network),
    }
}

} // verus!
