//! Where downloaded jars are cached and where they come from.

use crate::dependency::{central_url, jar_name, make_central_url, make_jar_name};
use crate::text::optional_text;
use vstd::prelude::*;

verus! {

/// Fetches jars into a cache directory.
#[derive(Debug)]
pub struct Downloader {
    cache_dir: String,
}

impl View for Downloader {
    type V = Seq<char>;

    /// The cache directory.
    closed spec fn view(&self) -> Seq<char> {
        self.cache_dir@
    }
}

/// The view of an optional slice.
pub open spec fn optional_str(t: Option<&str>) -> Option<Seq<char>> {
    match t {
        Some(s) => Some(s@),
        None => None,
    }
}

/// An owned copy of an optional slice.
pub fn owned(t: Option<&str>) -> (r: Option<String>)
    ensures
        optional_text(r) == optional_str(t),
{
    match t {
        Some(s) => Some(String::from_str(s)),
        None => None,
    }
}

impl Downloader {
    /// A downloader that caches under `.jx/cache` in the home directory
    /// `home`.
    pub fn in_home(home: &str) -> (r: Self)
        ensures
            r@ == home@ + "/.jx/cache"@,
    {
        let mut cache_dir = String::from_str(home);
        cache_dir.append("/.jx/cache");
        Downloader { cache_dir }
    }

    /// The cache directory.
    pub fn cache_dir(&self) -> (r: &String)
        ensures
            r@ == self@,
    {
        &self.cache_dir
    }

    /// The place of an artifact's jar in the cache:
    /// `cache/group/artifact/artifact-version[-classifier].jar`.
    pub fn cache_path(&self, group_id: &str, artifact_id: &str, version: &str, classifier: Option<&str>) -> (r:
        String)
        ensures
            r@ == self@ + seq!['/'] + group_id@ + seq!['/'] + artifact_id@ + seq!['/'] + jar_name(
                artifact_id@,
                version@,
                optional_str(classifier),
            ),
    {
        proof {
            reveal_strlit("/");
        }
        assert("/"@ =~= seq!['/']);
        let filename = make_jar_name(artifact_id, version, &owned(classifier));
        let mut path = self.cache_dir.clone();
        path.append("/");
        path.append(group_id);
        path.append("/");
        path.append(artifact_id);
        path.append("/");
        path.append(filename.as_str());
        path
    }

    /// The address of an artifact's jar in the central repository.
    pub fn build_maven_central_url(
        &self,
        group_id: &str,
        artifact_id: &str,
        version: &str,
        classifier: Option<&str>,
    ) -> (r: String)
        ensures
            r@ == central_url(group_id@, artifact_id@, version@, optional_str(classifier)),
    {
        make_central_url(group_id, artifact_id, version, &owned(classifier))
    }
}

} // verus!
