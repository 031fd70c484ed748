//! Repositories and the cache of artifact metadata.

use crate::dependency::{central_url, make_central_url};
use crate::text::{clone_optional, clone_texts, optional_text, position_of, str_eq, texts};
use vstd::prelude::*;

verus! {

/// A repository that artifacts are fetched from.
#[derive(Debug)]
pub struct MavenRepository {
    pub name: String,
    pub url: String,
    pub username: Option<String>,
    pub password: Option<String>,
    pub releases: bool,
    pub snapshots: bool,
}

/// What a [`MavenRepository`] stands for.
pub struct MavenRepositoryModel {
    pub name: Seq<char>,
    pub url: Seq<char>,
    pub username: Option<Seq<char>>,
    pub password: Option<Seq<char>>,
    pub releases: bool,
    pub snapshots: bool,
}

impl View for MavenRepository {
    type V = MavenRepositoryModel;

    open spec fn view(&self) -> MavenRepositoryModel {
        MavenRepositoryModel {
            name: self.name@,
            url: self.url@,
            username: optional_text(self.username),
            password: optional_text(self.password),
            releases: self.releases,
            snapshots: self.snapshots,
        }
    }
}

impl DeepView for MavenRepository {
    type V = MavenRepositoryModel;

    open spec fn deep_view(&self) -> MavenRepositoryModel {
        self@
    }
}

impl Clone for MavenRepository {
    fn clone(&self) -> (r: Self)
        ensures
            r@ == self@,
    {
        MavenRepository {
            name: self.name.clone(),
            url: self.url.clone(),
            username: clone_optional(&self.username),
            password: clone_optional(&self.password),
            releases: self.releases,
            snapshots: self.snapshots,
        }
    }
}

/// The versions that a repository has of an artifact.
#[derive(Debug)]
pub struct ArtifactMetadata {
    pub group_id: String,
    pub artifact_id: String,
    pub versions: Vec<String>,
    pub latest: String,
    pub release: Option<String>,
    pub last_updated: String,
}

/// What an [`ArtifactMetadata`] stands for.
pub struct ArtifactMetadataModel {
    pub group_id: Seq<char>,
    pub artifact_id: Seq<char>,
    pub versions: Seq<Seq<char>>,
    pub latest: Seq<char>,
    pub release: Option<Seq<char>>,
    pub last_updated: Seq<char>,
}

impl View for ArtifactMetadata {
    type V = ArtifactMetadataModel;

    open spec fn view(&self) -> ArtifactMetadataModel {
        ArtifactMetadataModel {
            group_id: self.group_id@,
            artifact_id: self.artifact_id@,
            versions: texts(self.versions@),
            latest: self.latest@,
            release: optional_text(self.release),
            last_updated: self.last_updated@,
        }
    }
}

impl DeepView for ArtifactMetadata {
    type V = ArtifactMetadataModel;

    open spec fn deep_view(&self) -> ArtifactMetadataModel {
        self@
    }
}

impl Clone for ArtifactMetadata {
    fn clone(&self) -> (r: Self)
        ensures
            r@ == self@,
    {
        ArtifactMetadata {
            group_id: self.group_id.clone(),
            artifact_id: self.artifact_id.clone(),
            versions: clone_texts(&self.versions),
            latest: self.latest.clone(),
            release: clone_optional(&self.release),
            last_updated: self.last_updated.clone(),
        }
    }
}

/// One version of an artifact as a repository describes it.
#[derive(Debug)]
pub struct ArtifactInfo {
    pub group_id: String,
    pub artifact_id: String,
    pub version: String,
    pub packaging: String,
    pub classifier: Option<String>,
    pub size: Option<u64>,
    pub checksum: Option<String>,
    pub last_updated: String,
}

/// The key `group:artifact` under which metadata is cached.
pub open spec fn cache_key(group: Seq<char>, artifact: Seq<char>) -> Seq<char> {
    group + seq![':'] + artifact
}

/// The metadata that stands in for an artifact until a repository has been
/// asked: version `1.0.0` alone.
pub open spec fn placeholder_metadata(group: Seq<char>, artifact: Seq<char>) -> ArtifactMetadataModel {
    ArtifactMetadataModel {
        group_id: group,
        artifact_id: artifact,
        versions: seq!["1.0.0"@],
        latest: "1.0.0"@,
        release: Some("1.0.0"@),
        last_updated: "2024-01-01"@,
    }
}

/// The repositories of `list` that are not named `name`, in order.
pub open spec fn without_name(list: Seq<MavenRepositoryModel>, name: Seq<char>) -> Seq<
    MavenRepositoryModel,
>
    decreases list.len(),
{
    if list.len() == 0 {
        Seq::empty()
    } else {
        let init = without_name(list.drop_last(), name);
        if list.last().name == name {
            init
        } else {
            init.push(list.last())
        }
    }
}

/// The first repository of `list` that is named `name`.
pub open spec fn first_named(list: Seq<MavenRepositoryModel>, name: Seq<char>) -> Option<
    MavenRepositoryModel,
>
    decreases list.len(),
{
    if list.len() == 0 {
        None
    } else if list[0].name == name {
        Some(list[0])
    } else {
        first_named(list.drop_first(), name)
    }
}

/// Leaving out the repositories of one name leaves no more than there were,
/// and fewer exactly when one had the name.
pub proof fn lemma_without_name_len(list: Seq<MavenRepositoryModel>, name: Seq<char>)
    ensures
        without_name(list, name).len() <= list.len(),
        without_name(list, name).len() < list.len() <==> exists|i: int|
            0 <= i < list.len() && (#[trigger] list[i]).name == name,
    decreases list.len(),
{
    if list.len() > 0 {
        lemma_without_name_len(list.drop_last(), name);
        if list.last().name == name {
            assert(list[list.len() - 1].name == name);
        } else {
            if exists|i: int| 0 <= i < list.len() && (#[trigger] list[i]).name == name {
                let i = choose|i: int| 0 <= i < list.len() && (#[trigger] list[i]).name == name;
                assert(list.drop_last()[i].name == name);
            }
            if exists|i: int|
                0 <= i < list.drop_last().len() && (#[trigger] list.drop_last()[i]).name == name {
                let i = choose|i: int|
                    0 <= i < list.drop_last().len() && (#[trigger] list.drop_last()[i]).name == name;
                assert(list[i].name == name);
            }
        }
    }
}

/// The repositories to fetch from and the metadata fetched so far.
#[derive(Debug)]
pub struct MavenRegistry {
    repositories: Vec<MavenRepository>,
    cache_keys: Vec<String>,
    cache: Vec<ArtifactMetadata>,
}

/// What a [`MavenRegistry`] stands for.
pub struct MavenRegistryModel {
    pub repositories: Seq<MavenRepositoryModel>,
    pub cache_keys: Seq<Seq<char>>,
    pub cache: Seq<ArtifactMetadataModel>,
}

impl View for MavenRegistry {
    type V = MavenRegistryModel;

    closed spec fn view(&self) -> MavenRegistryModel {
        MavenRegistryModel {
            repositories: self.repositories.deep_view(),
            cache_keys: texts(self.cache_keys@),
            cache: self.cache.deep_view(),
        }
    }
}

impl MavenRegistryModel {
    /// Every cached metadata has its key, and no key occurs twice.
    pub open spec fn wf(self) -> bool {
        &&& self.cache_keys.len() == self.cache.len()
        &&& self.cache_keys.no_duplicates()
    }

    /// The cached metadata for `group:artifact`.
    pub open spec fn cached(self, group: Seq<char>, artifact: Seq<char>) -> Option<ArtifactMetadataModel> {
        if exists|i: int| 0 <= i < self.cache_keys.len() && self.cache_keys[i] == cache_key(group, artifact) {
            Some(
                self.cache[choose|i: int|
                    0 <= i < self.cache_keys.len() && self.cache_keys[i] == cache_key(group, artifact)],
            )
        } else {
            None
        }
    }
}

/// The registry as it starts out: Maven Central and JCenter, nothing cached.
pub open spec fn default_repositories() -> Seq<MavenRepositoryModel> {
    seq![
        MavenRepositoryModel {
            name: "Maven Central"@,
            url: "https://repo1.maven.org/maven2/"@,
            username: None,
            password: None,
            releases: true,
            snapshots: false,
        },
        MavenRepositoryModel {
            name: "JCenter"@,
            url: "https://jcenter.bintray.com/"@,
            username: None,
            password: None,
            releases: true,
            snapshots: false,
        },
    ]
}

impl MavenRegistry {
    /// A registry with the two default repositories and an empty cache.
    pub fn new() -> (r: Self)
        ensures
            r@.wf(),
            r@.repositories == default_repositories(),
            r@.cache.len() == 0,
    {
        let mut registry = MavenRegistry {
            repositories: Vec::new(),
            cache_keys: Vec::new(),
            cache: Vec::new(),
        };
        assert(registry@.repositories =~= Seq::empty());
        registry.add_repository(
            MavenRepository {
                name: String::from_str("Maven Central"),
                url: String::from_str("https://repo1.maven.org/maven2/"),
                username: None,
                password: None,
                releases: true,
                snapshots: false,
            },
        );
        registry.add_repository(
            MavenRepository {
                name: String::from_str("JCenter"),
                url: String::from_str("https://jcenter.bintray.com/"),
                username: None,
                password: None,
                releases: true,
                snapshots: false,
            },
        );
        assert(registry@.repositories =~= default_repositories());
        registry
    }

    /// Adds a repository behind those already there.
    pub fn add_repository(&mut self, repository: MavenRepository)
        ensures
            final(self)@ == (MavenRegistryModel {
                repositories: old(self)@.repositories.push(repository@),
                ..old(self)@
            }),
    {
        let ghost before = self@.repositories;
        self.repositories.push(repository);
        assert(self@.repositories =~= before.push(repository@));
    }

    /// Removes every repository named `name` and says whether there was one.
    pub fn remove_repository(&mut self, name: &str) -> (r: bool)
        ensures
            final(self)@ == (MavenRegistryModel {
                repositories: without_name(old(self)@.repositories, name@),
                ..old(self)@
            }),
            r == exists|i: int|
                0 <= i < old(self)@.repositories.len() && (#[trigger] old(self)@.repositories[i]).name
                    == name@,
    {
        let ghost all = self@.repositories;
        let initial_len = self.repositories.len();
        let mut kept: Vec<MavenRepository> = Vec::new();
        let mut i: usize = 0;
        assert(kept.deep_view() =~= without_name(all.take(0), name@));
        while i < self.repositories.len()
            invariant
                i <= self.repositories.len(),
                all == self@.repositories,
                self@ == old(self)@,
                kept.deep_view() == without_name(all.take(i as int), name@),
            decreases self.repositories.len() - i,
        {
            let ghost sofar = kept.deep_view();
            let repo = &self.repositories[i];
            proof {
                let next = all.take(i + 1);
                assert(next.drop_last() =~= all.take(i as int));
                assert(next.last() == repo@);
            }
            if !str_eq(repo.name.as_str(), name) {
                kept.push(repo.clone());
                assert(kept.deep_view() =~= sofar.push(repo@));
            }
            i = i + 1;
        }
        proof {
            assert(all.take(self.repositories.len() as int) =~= all);
            lemma_without_name_len(all, name@);
        }
        let removed = kept.len() < initial_len;
        self.repositories = kept;
        removed
    }

    /// The first repository named `name`.
    pub fn get_repository(&self, name: &str) -> (r: Option<&MavenRepository>)
        ensures
            match r {
                Some(repo) => first_named(self@.repositories, name@) == Some(repo@),
                None => first_named(self@.repositories, name@) is None,
            },
    {
        let ghost all = self@.repositories;
        let mut i: usize = 0;
        assert(all.skip(0) =~= all);
        while i < self.repositories.len()
            invariant
                i <= self.repositories.len(),
                all == self@.repositories,
                first_named(all, name@) == first_named(all.skip(i as int), name@),
            decreases self.repositories.len() - i,
        {
            let repo = &self.repositories[i];
            proof {
                let rest = all.skip(i as int);
                assert(rest[0] == repo@);
                assert(rest.drop_first() =~= all.skip(i + 1));
            }
            if str_eq(repo.name.as_str(), name) {
                return Some(repo);
            }
            i = i + 1;
        }
        None
    }

    /// The metadata of `group_id:artifact_id`: what the cache holds for it,
    /// or else the placeholder, which is then cached.
    pub fn get_artifact_metadata(&mut self, group_id: &str, artifact_id: &str) -> (r: ArtifactMetadata)
        requires
            old(self)@.wf(),
        ensures
            final(self)@.wf(),
            final(self)@.repositories == old(self)@.repositories,
            match old(self)@.cached(group_id@, artifact_id@) {
                Some(m) => r@ == m && final(self)@ == old(self)@,
                None => {
                    &&& r@ == placeholder_metadata(group_id@, artifact_id@)
                    &&& final(self)@.cache_keys == old(self)@.cache_keys.push(
                        cache_key(group_id@, artifact_id@),
                    )
                    &&& final(self)@.cache == old(self)@.cache.push(r@)
                },
            },
    {
        proof {
            reveal_strlit(":");
        }
        let mut key = String::from_str(group_id);
        key.append(":");
        key.append(artifact_id);
        assert(key@ =~= cache_key(group_id@, artifact_id@));
        let ghost keys = self@.cache_keys;
        let ghost cache = self@.cache;
        match position_of(&self.cache_keys, key.as_str()) {
            Some(i) => {
                proof {
                    assert(keys[i as int] == key@);
                    let c = choose|c: int| 0 <= c < keys.len() && keys[c] == key@;
                    assert(c == i);
                }
                self.cache[i].clone()
            },
            None => {
                proof {
                    if exists|c: int| 0 <= c < keys.len() && keys[c] == key@ {
                        let c = choose|c: int| 0 <= c < keys.len() && keys[c] == key@;
                        assert(keys.contains(key@));
                    }
                }
                let mut versions: Vec<String> = Vec::new();
                versions.push(String::from_str("1.0.0"));
                let metadata = ArtifactMetadata {
                    group_id: String::from_str(group_id),
                    artifact_id: String::from_str(artifact_id),
                    versions,
                    latest: String::from_str("1.0.0"),
                    release: Some(String::from_str("1.0.0")),
                    last_updated: String::from_str("2024-01-01"),
                };
                assert(metadata@.versions =~= seq!["1.0.0"@]);
                self.cache.push(metadata.clone());
                self.cache_keys.push(key);
                proof {
                    assert(self@.cache =~= cache.push(metadata@));
                    assert(self@.cache_keys =~= keys.push(key@));
                }
                metadata
            },
        }
    }

    /// The address of an artifact's jar in the central repository.
    pub fn get_download_url(
        &self,
        group_id: &str,
        artifact_id: &str,
        version: &str,
        classifier: Option<&str>,
    ) -> (r: String)
        ensures
            r@ == central_url(
                group_id@,
                artifact_id@,
                version@,
                match classifier {
                    Some(c) => Some(c@),
                    None => None,
                },
            ),
    {
        let classifier = match classifier {
            Some(c) => Some(String::from_str(c)),
            None => None,
        };
        make_central_url(group_id, artifact_id, version, &classifier)
    }

    /// Forgets the cached metadata.
    pub fn clear_cache(&mut self)
        ensures
            final(self)@.wf(),
            final(self)@.repositories == old(self)@.repositories,
            final(self)@.cache.len() == 0,
    {
        self.cache.clear();
        self.cache_keys.clear();
    }

    /// The number of artifacts with cached metadata.
    pub fn get_cache_size(&self) -> (r: usize)
        ensures
            r == self@.cache.len(),
    {
        self.cache.len()
    }
}

impl Default for MavenRegistry {
    /// A registry with the two default repositories and an empty cache.
    fn default() -> (r: Self)
        ensures
            r@.wf(),
            r@.repositories == default_repositories(),
            r@.cache.len() == 0,
    {
        MavenRegistry::new()
    }
}

} // verus!
