//! The configuration file of a project, section by section.

use crate::text::{optional_text, texts};
use vstd::prelude::*;

verus! {

/// The whole configuration.
#[derive(Debug)]
pub struct JxConfig {
    pub project: ProjectConfig,
    pub build: BuildConfig,
    pub dependencies: DependenciesConfig,
    pub repositories: RepositoriesConfig,
}

/// The section that describes the project.
#[derive(Debug)]
pub struct ProjectConfig {
    pub name: String,
    pub version: String,
    pub description: Option<String>,
    pub authors: Option<Vec<String>>,
    pub license: Option<String>,
    pub homepage: Option<String>,
    pub repository: Option<String>,
}

/// The section that says how to build.
#[derive(Debug)]
pub struct BuildConfig {
    pub source_dir: Option<String>,
    pub target_dir: Option<String>,
    pub main_class: Option<String>,
    pub test_class: Option<String>,
    pub java_version: Option<String>,
}

/// The declared dependencies, scope by scope.
#[derive(Debug)]
pub struct DependenciesConfig {
    pub compile: Option<Vec<Dependency>>,
    pub runtime: Option<Vec<Dependency>>,
    pub test: Option<Vec<Dependency>>,
    pub provided: Option<Vec<Dependency>>,
}

/// One declared dependency.
#[derive(Debug)]
pub struct Dependency {
    pub group_id: String,
    pub artifact_id: String,
    pub version: String,
    pub scope: Option<String>,
    pub classifier: Option<String>,
}

/// The repositories to fetch from.
#[derive(Debug)]
pub struct RepositoriesConfig {
    pub maven_central: Option<String>,
    pub jcenter: Option<String>,
    pub custom: Option<Vec<CustomRepository>>,
}

/// A repository besides the well-known ones.
#[derive(Debug)]
pub struct CustomRepository {
    pub name: String,
    pub url: String,
    pub username: Option<String>,
    pub password: Option<String>,
}

/// The length of an optional list, where there is one.
pub open spec fn optional_len<T>(list: Option<Vec<T>>) -> Option<nat> {
    match list {
        Some(v) => Some(v@.len()),
        None => None,
    }
}

impl JxConfig {
    /// Whether this is the configuration that a project starts with.
    pub open spec fn is_default(self) -> bool {
        &&& self.project.name@ == "my-java-project"@
        &&& self.project.version@ == "1.0.0"@
        &&& optional_text(self.project.description) == Some("A Java project created with jx"@)
        &&& self.project.authors is Some
        &&& texts(self.project.authors->0@) == seq!["jx team"@]
        &&& optional_text(self.project.license) == Some("MIT"@)
        &&& self.project.homepage is None
        &&& self.project.repository is None
        &&& optional_text(self.build.source_dir) == Some("src/main/java"@)
        &&& optional_text(self.build.target_dir) == Some("target"@)
        &&& optional_text(self.build.main_class) == Some("com.example.Main"@)
        &&& optional_text(self.build.test_class) == Some("com.example.MainTest"@)
        &&& optional_text(self.build.java_version) == Some("11"@)
        &&& optional_len(self.dependencies.compile) == Some(0nat)
        &&& optional_len(self.dependencies.runtime) == Some(0nat)
        &&& optional_len(self.dependencies.test) == Some(0nat)
        &&& optional_len(self.dependencies.provided) == Some(0nat)
        &&& optional_text(self.repositories.maven_central) == Some("https://repo1.maven.org/maven2/"@)
        &&& optional_text(self.repositories.jcenter) == Some("https://jcenter.bintray.com/"@)
        &&& optional_len(self.repositories.custom) == Some(0nat)
    }
}

impl Default for JxConfig {
    /// The configuration that a project starts with.
    fn default() -> (r: Self)
        ensures
            r.is_default(),
    {
        let mut authors: Vec<String> = Vec::new();
        authors.push(String::from_str("jx team"));
        assert(texts(authors@) =~= seq!["jx team"@]);
        JxConfig {
            project: ProjectConfig {
                name: String::from_str("my-java-project"),
                version: String::from_str("1.0.0"),
                description: Some(String::from_str("A Java project created with jx")),
                authors: Some(authors),
                license: Some(String::from_str("MIT")),
                homepage: None,
                repository: None,
            },
            build: BuildConfig {
                source_dir: Some(String::from_str("src/main/java")),
                target_dir: Some(String::from_str("target")),
                main_class: Some(String::from_str("com.example.Main")),
                test_class: Some(String::from_str("com.example.MainTest")),
                java_version: Some(String::from_str("11")),
            },
            dependencies: DependenciesConfig {
                compile: Some(Vec::new()),
                runtime: Some(Vec::new()),
                test: Some(Vec::new()),
                provided: Some(Vec::new()),
            },
            repositories: RepositoriesConfig {
                maven_central: Some(String::from_str("https://repo1.maven.org/maven2/")),
                jcenter: Some(String::from_str("https://jcenter.bintray.com/")),
                custom: Some(Vec::new()),
            },
        }
    }
}

} // verus!
