//! Where things are: the files of the repository directory and the
//! addresses of the hosting service.
//!
//! The repository directory holds the artifacts and one index file under
//! `x86_64/`. The index is named after the owner of the remote repository,
//! the part of `owner/repo` in front of the first slash.

use vstd::prelude::*;
use vstd::string::*;
use crate::text::chars_of;

verus! {

/// Number of characters of `s` in front of its first slash.
pub open spec fn owner_len(s: Seq<char>) -> int
    decreases s.len(),
{
    if s.len() == 0 || s.first() == '/' {
        0
    } else {
        1 + owner_len(s.drop_first())
    }
}

/// The owner of the remote repository `repo`: what stands in front of the
/// first slash, or all of `repo` where it has none.
pub open spec fn owner_of(repo: Seq<char>) -> Seq<char> {
    repo.take(owner_len(repo))
}

/// The directory of the artifacts.
pub open spec fn artifact_dir_of(base: Seq<char>) -> Seq<char> {
    base + "/x86_64"@
}

/// The file of the artifact `artifact`.
pub open spec fn artifact_path_of(base: Seq<char>, artifact: Seq<char>) -> Seq<char> {
    base + "/x86_64/"@ + artifact
}

/// The index file of the repository.
pub open spec fn index_path_of(base: Seq<char>, repo: Seq<char>) -> Seq<char> {
    base + "/x86_64/"@ + owner_of(repo) + ".db.tar.gz"@
}

/// The address from which the artifact `artifact` is downloaded.
pub open spec fn download_url_of(repo: Seq<char>, artifact: Seq<char>) -> Seq<char> {
    "https://github.com/"@ + repo + "/releases/download/packages/"@ + artifact
}

/// The address of the release listing.
pub open spec fn listing_url_of(repo: Seq<char>) -> Seq<char> {
    "https://api.github.com/repos/"@ + repo + "/releases"@
}

/// The owner's name ends at the first slash.
proof fn lemma_owner_len(s: Seq<char>, i: int)
    requires
        0 <= i <= s.len(),
        forall|k: int| 0 <= k < i ==> #[trigger] s[k] != '/',
        i == s.len() || s[i] == '/',
    ensures
        owner_len(s) == i,
    decreases i,
{
    if i > 0 {
        let rest = s.drop_first();
        assert(s[0] != '/');
        assert forall|k: int| 0 <= k < i - 1 implies #[trigger] rest[k] != '/' by {
            assert(rest[k] == s[k + 1]);
        }
        lemma_owner_len(rest, i - 1);
    }
}

/// The owner of the remote repository `repo`.
pub fn owner(repo: &str) -> (name: String)
    ensures
        name@ == owner_of(repo@),
{
    let chars = chars_of(repo);
    let mut i: usize = 0;
    while i < chars.len() && chars[i] != '/'
        invariant
            i <= chars.len(),
            forall|k: int| 0 <= k < i ==> #[trigger] chars@[k] != '/',
        decreases chars.len() - i,
    {
        i = i + 1;
    }
    proof {
        lemma_owner_len(repo@, i as int);
    }
    repo.substring_char(0, i).to_owned()
}

/// The directory of the artifacts.
pub fn artifact_dir(base: &str) -> (path: String)
    ensures
        path@ == artifact_dir_of(base@),
{
    let mut path = String::from_str(base);
    path.append("/x86_64");
    path
}

/// The file of the artifact `artifact`.
pub fn artifact_path(base: &str, artifact: &str) -> (path: String)
    ensures
        path@ == artifact_path_of(base@, artifact@),
{
    let mut path = String::from_str(base);
    path.append("/x86_64/");
    path.append(artifact);
    path
}

/// The index file of the repository.
pub fn index_path(base: &str, repo: &str) -> (path: String)
    ensures
        path@ == index_path_of(base@, repo@),
{
    let name = owner(repo);
    let mut path = String::from_str(base);
    path.append("/x86_64/");
    path.append(name.as_str());
    path.append(".db.tar.gz");
    path
}

/// The address from which the artifact `artifact` is downloaded.
pub fn download_url(repo: &str, artifact: &str) -> (url: String)
    ensures
        url@ == download_url_of(repo@, artifact@),
{
    let mut url = String::from_str("https://github.com/");
    url.append(repo);
    url.append("/releases/download/packages/");
    url.append(artifact);
    url
}

/// The address of the release listing.
pub fn listing_url(repo: &str) -> (url: String)
    ensures
        url@ == listing_url_of(repo@),
{
    let mut url = String::from_str("https://api.github.com/repos/");
    url.append(repo);
    url.append("/releases");
    url
}

} // verus!
