//! A project as its configuration describes it: names, directories and the
//! dependencies it declares.

use crate::dependency::{coordinate_key, jar_name, make_coordinate, make_jar_name};
use crate::text::{
    char_len, ends_with, find_char, first_of, has_prefix, has_suffix, last_of, lemma_first_of,
    lemma_last_of, lemma_none_of, lines, lines_spec, optional_text, rfind_char, slice, starts_with,
    str_eq, texts, trim, trim_spec,
};
use vstd::prelude::*;

verus! {

/// The build system that a project is laid out for.
#[derive(Debug, Clone, Copy, PartialEq, Eq, Structural)]
pub enum ProjectType {
    Maven,
    Gradle,
    Jx,
}

/// The context in which a project uses a dependency.
#[derive(Debug, Clone, Copy, PartialEq, Eq, Structural)]
pub enum DependencyScope {
    Compile,
    Runtime,
    Test,
    Provided,
    System,
}

/// A dependency that a project declares.
#[derive(Debug)]
pub struct ProjectDependency {
    pub group_id: String,
    pub artifact_id: String,
    pub version: String,
    pub scope: DependencyScope,
    pub optional: bool,
}

/// What a [`ProjectDependency`] stands for.
pub struct ProjectDependencyModel {
    pub group_id: Seq<char>,
    pub artifact_id: Seq<char>,
    pub version: Seq<char>,
    pub scope: DependencyScope,
    pub optional: bool,
}

impl View for ProjectDependency {
    type V = ProjectDependencyModel;

    open spec fn view(&self) -> ProjectDependencyModel {
        ProjectDependencyModel {
            group_id: self.group_id@,
            artifact_id: self.artifact_id@,
            version: self.version@,
            scope: self.scope,
            optional: self.optional,
        }
    }
}

impl DeepView for ProjectDependency {
    type V = ProjectDependencyModel;

    open spec fn deep_view(&self) -> ProjectDependencyModel {
        self@
    }
}

impl Clone for ProjectDependency {
    fn clone(&self) -> (r: Self)
        ensures
            r@ == self@,
    {
        ProjectDependency {
            group_id: self.group_id.clone(),
            artifact_id: self.artifact_id.clone(),
            version: self.version.clone(),
            scope: self.scope,
            optional: self.optional,
        }
    }
}

impl ProjectDependency {
    /// A dependency that is not optional.
    pub fn new(group_id: &str, artifact_id: &str, version: &str, scope: DependencyScope) -> (r: Self)
        ensures
            r@ == (ProjectDependencyModel {
                group_id: group_id@,
                artifact_id: artifact_id@,
                version: version@,
                scope: scope,
                optional: false,
            }),
    {
        ProjectDependency {
            group_id: String::from_str(group_id),
            artifact_id: String::from_str(artifact_id),
            version: String::from_str(version),
            scope,
            optional: false,
        }
    }

    /// The coordinate key `group:artifact:version`.
    pub fn coordinate(&self) -> (r: String)
        ensures
            r@ == coordinate_key(self@.group_id, self@.artifact_id, self@.version),
    {
        make_coordinate(self.group_id.as_str(), self.artifact_id.as_str(), self.version.as_str())
    }
}

/// A repository that a project names.
#[derive(Debug)]
pub struct Repository {
    pub name: String,
    pub url: String,
    pub username: Option<String>,
    pub password: Option<String>,
}

/// What a [`Repository`] stands for.
pub struct RepositoryModel {
    pub name: Seq<char>,
    pub url: Seq<char>,
    pub username: Option<Seq<char>>,
    pub password: Option<Seq<char>>,
}

impl View for Repository {
    type V = RepositoryModel;

    open spec fn view(&self) -> RepositoryModel {
        RepositoryModel {
            name: self.name@,
            url: self.url@,
            username: optional_text(self.username),
            password: optional_text(self.password),
        }
    }
}

impl DeepView for Repository {
    type V = RepositoryModel;

    open spec fn deep_view(&self) -> RepositoryModel {
        self@
    }
}

/// A project.
#[derive(Debug)]
pub struct Project {
    pub name: String,
    pub version: String,
    pub description: Option<String>,
    pub project_type: ProjectType,
    pub java_version: String,
    pub source_dirs: Vec<String>,
    pub test_dirs: Vec<String>,
    pub resource_dirs: Vec<String>,
    pub target_dir: String,
    pub main_class: Option<String>,
    pub test_class: Option<String>,
    pub dependencies: Vec<ProjectDependency>,
    pub repositories: Vec<Repository>,
}

/// What a [`Project`] stands for.
pub struct ProjectModel {
    pub name: Seq<char>,
    pub version: Seq<char>,
    pub description: Option<Seq<char>>,
    pub project_type: ProjectType,
    pub java_version: Seq<char>,
    pub source_dirs: Seq<Seq<char>>,
    pub test_dirs: Seq<Seq<char>>,
    pub resource_dirs: Seq<Seq<char>>,
    pub target_dir: Seq<char>,
    pub main_class: Option<Seq<char>>,
    pub test_class: Option<Seq<char>>,
    pub dependencies: Seq<ProjectDependencyModel>,
    pub repositories: Seq<RepositoryModel>,
}

impl View for Project {
    type V = ProjectModel;

    open spec fn view(&self) -> ProjectModel {
        ProjectModel {
            name: self.name@,
            version: self.version@,
            description: optional_text(self.description),
            project_type: self.project_type,
            java_version: self.java_version@,
            source_dirs: texts(self.source_dirs@),
            test_dirs: texts(self.test_dirs@),
            resource_dirs: texts(self.resource_dirs@),
            target_dir: self.target_dir@,
            main_class: optional_text(self.main_class),
            test_class: optional_text(self.test_class),
            dependencies: self.dependencies.deep_view(),
            repositories: self.repositories.deep_view(),
        }
    }
}

/// What is wrong with a project.
#[derive(Debug, Clone, Copy, PartialEq, Eq, Structural)]
pub enum ProjectError {
    /// The project has no name.
    EmptyName,
    /// The project has no version.
    EmptyVersion,
    /// The project names no source directory.
    NoSourceDirs,
    /// The configuration is no TOML document.
    InvalidToml,
    /// The configuration has no `project` section.
    MissingProjectSection,
}

/// A new project named `name`: version `1.0.0`, Java 11, the usual
/// directories, the central repository, no dependencies.
pub open spec fn fresh_project(name: Seq<char>, project_type: ProjectType) -> ProjectModel {
    ProjectModel {
        name: name,
        version: "1.0.0"@,
        description: Some("A Java project created with jx"@),
        project_type: project_type,
        java_version: "11"@,
        source_dirs: seq!["src/main/java"@],
        test_dirs: seq!["src/test/java"@],
        resource_dirs: seq!["src/main/resources"@],
        target_dir: "target"@,
        main_class: Some("com.example.Main"@),
        test_class: Some("com.example.MainTest"@),
        dependencies: Seq::empty(),
        repositories: seq![
            RepositoryModel {
                name: "Maven Central"@,
                url: "https://repo1.maven.org/maven2/"@,
                username: None,
                password: None,
            },
        ],
    }
}

/// Whether `d` is the artifact `artifact` of the group `group`.
pub open spec fn names(d: ProjectDependencyModel, group: Seq<char>, artifact: Seq<char>) -> bool {
    d.group_id == group && d.artifact_id == artifact
}

/// The dependencies of `list` on other artifacts than `group:artifact`, in
/// order.
pub open spec fn without_artifact(
    list: Seq<ProjectDependencyModel>,
    group: Seq<char>,
    artifact: Seq<char>,
) -> Seq<ProjectDependencyModel>
    decreases list.len(),
{
    if list.len() == 0 {
        Seq::empty()
    } else {
        let init = without_artifact(list.drop_last(), group, artifact);
        if names(list.last(), group, artifact) {
            init
        } else {
            init.push(list.last())
        }
    }
}

/// The first dependency of `list` on `group:artifact`.
pub open spec fn first_on(list: Seq<ProjectDependencyModel>, group: Seq<char>, artifact: Seq<char>) -> Option<
    ProjectDependencyModel,
>
    decreases list.len(),
{
    if list.len() == 0 {
        None
    } else if names(list[0], group, artifact) {
        Some(list[0])
    } else {
        first_on(list.drop_first(), group, artifact)
    }
}

/// Whether some dependency of `list` is on `group:artifact`.
pub open spec fn depends_on(list: Seq<ProjectDependencyModel>, group: Seq<char>, artifact: Seq<char>) -> bool {
    exists|i: int| 0 <= i < list.len() && names(#[trigger] list[i], group, artifact)
}

/// Leaving out the dependencies on one artifact leaves no more than there
/// were, and fewer exactly when one was on that artifact.
pub proof fn lemma_without_artifact_len(
    list: Seq<ProjectDependencyModel>,
    group: Seq<char>,
    artifact: Seq<char>,
)
    ensures
        without_artifact(list, group, artifact).len() <= list.len(),
        without_artifact(list, group, artifact).len() < list.len() <==> depends_on(list, group, artifact),
    decreases list.len(),
{
    if list.len() > 0 {
        let init = list.drop_last();
        lemma_without_artifact_len(init, group, artifact);
        if names(list.last(), group, artifact) {
            assert(names(list[list.len() - 1], group, artifact));
        } else {
            if depends_on(list, group, artifact) {
                let i = choose|i: int| 0 <= i < list.len() && names(#[trigger] list[i], group, artifact);
                assert(names(init[i], group, artifact));
            }
            if depends_on(init, group, artifact) {
                let i = choose|i: int| 0 <= i < init.len() && names(#[trigger] init[i], group, artifact);
                assert(names(list[i], group, artifact));
            }
        }
    }
}

/// A dependency on an artifact is found exactly when there is one.
pub proof fn lemma_first_on_some(list: Seq<ProjectDependencyModel>, group: Seq<char>, artifact: Seq<char>)
    ensures
        first_on(list, group, artifact) is Some <==> depends_on(list, group, artifact),
    decreases list.len(),
{
    if list.len() > 0 {
        if names(list[0], group, artifact) {
        } else {
            let rest = list.drop_first();
            lemma_first_on_some(rest, group, artifact);
            if depends_on(list, group, artifact) {
                let i = choose|i: int| 0 <= i < list.len() && names(#[trigger] list[i], group, artifact);
                assert(names(rest[i - 1], group, artifact));
            }
            if depends_on(rest, group, artifact) {
                let i = choose|i: int| 0 <= i < rest.len() && names(#[trigger] rest[i], group, artifact);
                assert(names(list[i + 1], group, artifact));
            }
        }
    }
}

/// The class path of a project: its target directory, then for each
/// dependency the jar `lib/artifact-version.jar`.
pub open spec fn classpath_spec(target: Seq<char>, deps: Seq<ProjectDependencyModel>) -> Seq<Seq<char>>
    decreases deps.len(),
{
    if deps.len() == 0 {
        seq![target]
    } else {
        classpath_spec(target, deps.drop_last()).push(
            "lib/"@ + jar_name(deps.last().artifact_id, deps.last().version, None),
        )
    }
}

impl Project {
    /// A new project named `name`.
    pub fn new(name: &str, project_type: ProjectType) -> (r: Self)
        ensures
            r@ == fresh_project(name@, project_type),
    {
        let mut source_dirs: Vec<String> = Vec::new();
        source_dirs.push(String::from_str("src/main/java"));
        let mut test_dirs: Vec<String> = Vec::new();
        test_dirs.push(String::from_str("src/test/java"));
        let mut resource_dirs: Vec<String> = Vec::new();
        resource_dirs.push(String::from_str("src/main/resources"));
        let mut repositories: Vec<Repository> = Vec::new();
        repositories.push(
            Repository {
                name: String::from_str("Maven Central"),
                url: String::from_str("https://repo1.maven.org/maven2/"),
                username: None,
                password: None,
            },
        );
        let r = Project {
            name: String::from_str(name),
            version: String::from_str("1.0.0"),
            description: Some(String::from_str("A Java project created with jx")),
            project_type,
            java_version: String::from_str("11"),
            source_dirs,
            test_dirs,
            resource_dirs,
            target_dir: String::from_str("target"),
            main_class: Some(String::from_str("com.example.Main")),
            test_class: Some(String::from_str("com.example.MainTest")),
            dependencies: Vec::new(),
            repositories,
        };
        proof {
            let want = fresh_project(name@, project_type);
            assert(r@.source_dirs =~= want.source_dirs);
            assert(r@.test_dirs =~= want.test_dirs);
            assert(r@.resource_dirs =~= want.resource_dirs);
            assert(r@.dependencies =~= want.dependencies);
            assert(r@.repositories =~= want.repositories);
        }
        r
    }

    /// Adds a dependency behind those already declared.
    pub fn add_dependency(&mut self, dependency: ProjectDependency)
        ensures
            final(self)@ == (ProjectModel {
                dependencies: old(self)@.dependencies.push(dependency@),
                ..old(self)@
            }),
    {
        let ghost before = self@.dependencies;
        self.dependencies.push(dependency);
        assert(self@.dependencies =~= before.push(dependency@));
    }

    /// Removes every dependency on `group_id:artifact_id` and says whether
    /// there was one.
    pub fn remove_dependency(&mut self, group_id: &str, artifact_id: &str) -> (r: bool)
        ensures
            final(self)@ == (ProjectModel {
                dependencies: without_artifact(old(self)@.dependencies, group_id@, artifact_id@),
                ..old(self)@
            }),
            r == depends_on(old(self)@.dependencies, group_id@, artifact_id@),
    {
        let ghost all = self@.dependencies;
        let initial_len = self.dependencies.len();
        let mut kept: Vec<ProjectDependency> = Vec::new();
        let mut i: usize = 0;
        assert(kept.deep_view() =~= without_artifact(all.take(0), group_id@, artifact_id@));
        while i < self.dependencies.len()
            invariant
                i <= self.dependencies.len(),
                all == self@.dependencies,
                self@ == old(self)@,
                kept.deep_view() == without_artifact(all.take(i as int), group_id@, artifact_id@),
            decreases self.dependencies.len() - i,
        {
            let ghost sofar = kept.deep_view();
            let d = &self.dependencies[i];
            proof {
                let next = all.take(i + 1);
                assert(next.drop_last() =~= all.take(i as int));
                assert(next.last() == d@);
            }
            if !(str_eq(d.group_id.as_str(), group_id) && str_eq(d.artifact_id.as_str(), artifact_id)) {
                kept.push(d.clone());
                assert(kept.deep_view() =~= sofar.push(d@));
            }
            i = i + 1;
        }
        proof {
            assert(all.take(self.dependencies.len() as int) =~= all);
            lemma_without_artifact_len(all, group_id@, artifact_id@);
        }
        let removed = kept.len() < initial_len;
        self.dependencies = kept;
        removed
    }

    /// The first dependency on `group_id:artifact_id`.
    pub fn get_dependency(&self, group_id: &str, artifact_id: &str) -> (r: Option<&ProjectDependency>)
        ensures
            match r {
                Some(d) => first_on(self@.dependencies, group_id@, artifact_id@) == Some(d@),
                None => first_on(self@.dependencies, group_id@, artifact_id@) is None,
            },
    {
        let ghost all = self@.dependencies;
        let mut i: usize = 0;
        assert(all.skip(0) =~= all);
        while i < self.dependencies.len()
            invariant
                i <= self.dependencies.len(),
                all == self@.dependencies,
                first_on(all, group_id@, artifact_id@) == first_on(
                    all.skip(i as int),
                    group_id@,
                    artifact_id@,
                ),
            decreases self.dependencies.len() - i,
        {
            let d = &self.dependencies[i];
            proof {
                let rest = all.skip(i as int);
                assert(rest[0] == d@);
                assert(rest.drop_first() =~= all.skip(i + 1));
            }
            if str_eq(d.group_id.as_str(), group_id) && str_eq(d.artifact_id.as_str(), artifact_id) {
                return Some(d);
            }
            i = i + 1;
        }
        None
    }

    /// Whether the project depends on `group_id:artifact_id`.
    pub fn has_dependency(&self, group_id: &str, artifact_id: &str) -> (r: bool)
        ensures
            r == depends_on(self@.dependencies, group_id@, artifact_id@),
    {
        proof {
            lemma_first_on_some(self@.dependencies, group_id@, artifact_id@);
        }
        self.get_dependency(group_id, artifact_id).is_some()
    }

    /// The class path: the target directory, then the jar of each
    /// dependency under `lib/`.
    pub fn get_classpath(&self) -> (r: Vec<String>)
        ensures
            texts(r@) == classpath_spec(self@.target_dir, self@.dependencies),
    {
        let ghost all = self@.dependencies;
        let mut classpath: Vec<String> = Vec::new();
        classpath.push(self.target_dir.clone());
        let mut i: usize = 0;
        assert(all.take(0) =~= Seq::empty());
        assert(texts(classpath@) =~= classpath_spec(self@.target_dir, all.take(0)));
        while i < self.dependencies.len()
            invariant
                i <= self.dependencies.len(),
                all == self@.dependencies,
                texts(classpath@) == classpath_spec(self@.target_dir, all.take(i as int)),
            decreases self.dependencies.len() - i,
        {
            let ghost sofar = texts(classpath@);
            let d = &self.dependencies[i];
            proof {
                let next = all.take(i + 1);
                assert(next.drop_last() =~= all.take(i as int));
                assert(next.last() == d@);
            }
            let jar_name = make_jar_name(d.artifact_id.as_str(), d.version.as_str(), &None);
            let mut entry = String::from_str("lib/");
            entry.append(jar_name.as_str());
            classpath.push(entry);
            assert(texts(classpath@) =~= sofar.push(entry@));
            i = i + 1;
        }
        assert(all.take(self.dependencies.len() as int) =~= all);
        classpath
    }

    /// Checks that the project has a name, a version and a source
    /// directory, in this order.
    pub fn validate(&self) -> (r: Result<(), ProjectError>)
        ensures
            r == (if self@.name.len() == 0 {
                Err::<(), ProjectError>(ProjectError::EmptyName)
            } else if self@.version.len() == 0 {
                Err(ProjectError::EmptyVersion)
            } else if self@.source_dirs.len() == 0 {
                Err(ProjectError::NoSourceDirs)
            } else {
                Ok(())
            }),
    {
        if self.name.as_str().is_empty() {
            return Err(ProjectError::EmptyName);
        }
        if self.version.as_str().is_empty() {
            return Err(ProjectError::EmptyVersion);
        }
        if self.source_dirs.len() == 0 {
            return Err(ProjectError::NoSourceDirs);
        }
        Ok(())
    }
}

/// The outside type `toml::Value`: a TOML value, here always a whole
/// document or a part of one.
#[verifier::external_type_specification]
#[verifier::external_body]
pub struct ExTomlValue(toml::Value);

/// The outside type `toml::de::Error`: why a text is no TOML document.
#[verifier::external_type_specification]
#[verifier::external_body]
pub struct ExTomlError(toml::de::Error);

/// What the TOML document `text` holds, as far as a project reads it: the
/// keys at its top level, and its string values, each under the path of
/// keys that leads to it. `None` where `text` is no TOML document.
pub uninterp spec fn toml_document(text: Seq<char>) -> Option<
    (Set<Seq<char>>, Map<Seq<Seq<char>>, Seq<char>>),
>;

/// The keys of `value` where it is a table; no keys where it is not.
pub uninterp spec fn toml_keys(value: toml::Value) -> Set<Seq<char>>;

/// The string values in `value`, each under the path of keys that leads to
/// it through tables. A string by itself is under the empty path.
pub uninterp spec fn toml_strings(value: toml::Value) -> Map<Seq<Seq<char>>, Seq<char>>;

/// `toml::from_str::<toml::Value>`: parses a TOML document. The value that
/// comes back holds what the text holds; a text that is no TOML document
/// gives the error.
#[verifier::external_body]
fn parse_toml(content: &str) -> (r: Result<toml::Value, toml::de::Error>)
    ensures
        match r {
            Ok(value) => toml_document(content@) == Some((toml_keys(value), toml_strings(value))),
            Err(_) => toml_document(content@) is None,
        },
{
    toml::from_str::<toml::Value>(content)
}

/// `toml::Value::get` with a string index: the value under `key` where
/// `value` is a table that has the key, else `None`. The strings of the
/// value that comes back are those that `value` holds under paths that
/// begin with `key`.
#[verifier::external_body]
fn toml_get<'a>(value: &'a toml::Value, key: &str) -> (r: Option<&'a toml::Value>)
    ensures
        match r {
            Some(child) => {
                &&& toml_keys(*value).contains(key@)
                &&& forall|path: Seq<Seq<char>>|
                    (#[trigger] toml_strings(*child).dom().contains(path)) == toml_strings(
                        *value,
                    ).dom().contains(seq![key@] + path)
                &&& forall|path: Seq<Seq<char>>|
                    toml_strings(*child).dom().contains(path) ==> (#[trigger] toml_strings(
                        *child,
                    )[path]) == toml_strings(*value)[seq![key@] + path]
            },
            None => {
                &&& !toml_keys(*value).contains(key@)
                &&& forall|path: Seq<Seq<char>>|
                    path.len() > 0 && path[0] == key@ ==> !(#[trigger] toml_strings(
                        *value,
                    ).dom().contains(path))
            },
        },
{
    value.get(key)
}

/// `toml::Value::as_str`: the text of `value` where it is a string, else
/// `None`.
#[verifier::external_body]
fn toml_as_str<'a>(value: &'a toml::Value) -> (r: Option<&'a str>)
    ensures
        match r {
            Some(s) => toml_strings(*value).dom().contains(Seq::empty()) && toml_strings(
                *value,
            )[Seq::empty()] == s@,
            None => !toml_strings(*value).dom().contains(Seq::empty()),
        },
{
    value.as_str()
}

/// The string under `section.key`, or `fallback` where there is none.
pub open spec fn text_at(
    strings: Map<Seq<Seq<char>>, Seq<char>>,
    section: Seq<char>,
    key: Seq<char>,
    fallback: Seq<char>,
) -> Seq<char> {
    if strings.dom().contains(seq![section, key]) {
        strings[seq![section, key]]
    } else {
        fallback
    }
}

/// The project type that a word names: `maven`, `gradle`, or else the
/// native type.
pub open spec fn project_type_named(word: Seq<char>) -> ProjectType {
    if word == "maven"@ {
        ProjectType::Maven
    } else if word == "gradle"@ {
        ProjectType::Gradle
    } else {
        ProjectType::Jx
    }
}

/// The project that a native configuration with these top-level keys and
/// string values describes: a new project with the name under
/// `project.name`, or `unknown`, and the type under `project.type`. A
/// configuration without the key `project` describes none.
pub open spec fn jx_project(keys: Set<Seq<char>>, strings: Map<Seq<Seq<char>>, Seq<char>>) -> Result<
    ProjectModel,
    ProjectError,
> {
    if !keys.contains("project"@) {
        Err(ProjectError::MissingProjectSection)
    } else {
        Ok(
            fresh_project(
                text_at(strings, "project"@, "name"@, "unknown"@),
                project_type_named(text_at(strings, "project"@, "type"@, "jx"@)),
            ),
        )
    }
}

/// The project that the text of a native configuration describes.
pub open spec fn jx_project_of_text(text: Seq<char>) -> Result<ProjectModel, ProjectError> {
    match toml_document(text) {
        Some((keys, strings)) => jx_project(keys, strings),
        None => Err(ProjectError::InvalidToml),
    }
}

/// What stands between `open` and `close` in a line that begins with the
/// one and ends with the other.
pub open spec fn between_tags(line: Seq<char>, open: Seq<char>, close: Seq<char>) -> Option<Seq<char>> {
    if has_prefix(line, open) && has_suffix(line, close) && open.len() + close.len() <= line.len() {
        Some(line.subrange(open.len() as int, line.len() - close.len()))
    } else {
        None
    }
}

/// The name that the first `n` lines of a POM give: what the last line of
/// the form `<artifactId>name</artifactId>` holds, or `unknown`.
pub open spec fn pom_name(lines: Seq<Seq<char>>, n: int) -> Seq<char>
    decreases n,
{
    if n <= 0 {
        "unknown"@
    } else {
        match between_tags(trim_spec(lines[n - 1]), "<artifactId>"@, "</artifactId>"@) {
            Some(name) => name,
            None => pom_name(lines, n - 1),
        }
    }
}

/// What a line holds between its first and its last single quote, where it
/// has two.
pub open spec fn quoted(line: Seq<char>) -> Option<Seq<char>> {
    let a = first_of(line, '\'');
    let b = last_of(line, '\'');
    if 0 <= a < b {
        Some(line.subrange(a + 1, b))
    } else {
        None
    }
}

/// The name that the first `n` lines of a Gradle script give: what the last
/// line that begins with `rootProject.name` holds in quotes, or `unknown`.
pub open spec fn gradle_name(lines: Seq<Seq<char>>, n: int) -> Seq<char>
    decreases n,
{
    if n <= 0 {
        "unknown"@
    } else {
        let line = trim_spec(lines[n - 1]);
        if has_prefix(line, "rootProject.name"@) && quoted(line) is Some {
            quoted(line)->0
        } else {
            gradle_name(lines, n - 1)
        }
    }
}

/// What stands between `open` and `close` in `line`.
pub fn text_between(line: &str, open: &str, close: &str) -> (r: Option<String>)
    ensures
        match r {
            Some(t) => between_tags(line@, open@, close@) == Some(t@),
            None => between_tags(line@, open@, close@) is None,
        },
{
    if starts_with(line, open) && ends_with(line, close) {
        let n = char_len(line);
        let a = char_len(open);
        let b = char_len(close);
        if a <= n - b {
            return Some(slice(line, a, n - b));
        }
    }
    None
}

/// What `line` holds between its first and its last single quote.
pub fn text_in_quotes(line: &str) -> (r: Option<String>)
    ensures
        match r {
            Some(t) => quoted(line@) == Some(t@),
            None => quoted(line@) is None,
        },
{
    match find_char(line, '\'') {
        Some(a) => {
            match rfind_char(line, '\'') {
                Some(b) => {
                    proof {
                        lemma_first_of(line@, '\'', a as int);
                        lemma_last_of(line@, '\'', b as int);
                    }
                    if a < b {
                        Some(slice(line, a + 1, b))
                    } else {
                        None
                    }
                },
                None => {
                    proof {
                        lemma_none_of(line@, '\'');
                    }
                    None
                },
            }
        },
        None => {
            proof {
                lemma_none_of(line@, '\'');
            }
            None
        },
    }
}

/// Which configuration a directory is read from: the native one where
/// there is one, else the POM, else the Gradle script.
pub fn choose_config(has_jx: bool, has_pom: bool, has_gradle: bool) -> (r: Option<ProjectType>)
    ensures
        r == (if has_jx {
            Some(ProjectType::Jx)
        } else if has_pom {
            Some(ProjectType::Maven)
        } else if has_gradle {
            Some(ProjectType::Gradle)
        } else {
            None::<ProjectType>
        }),
{
    if has_jx {
        Some(ProjectType::Jx)
    } else if has_pom {
        Some(ProjectType::Maven)
    } else if has_gradle {
        Some(ProjectType::Gradle)
    } else {
        None
    }
}

/// The string that `value` holds under `section.key`.
fn toml_text(value: &toml::Value, section: &str, key: &str) -> (r: Option<String>)
    ensures
        match r {
            Some(s) => toml_strings(*value).dom().contains(seq![section@, key@]) && toml_strings(
                *value,
            )[seq![section@, key@]] == s@,
            None => !toml_strings(*value).dom().contains(seq![section@, key@]),
        },
{
    let ghost path = seq![section@, key@];
    let ghost tail = seq![key@];
    let ghost none = Seq::<Seq<char>>::empty();
    proof {
        assert(seq![section@] + tail =~= path);
        assert(seq![key@] + none =~= tail);
    }
    match toml_get(value, section) {
        Some(table) => {
            assert(toml_strings(*table).dom().contains(tail) == toml_strings(*value).dom().contains(path));
            match toml_get(table, key) {
                Some(entry) => {
                    assert(toml_strings(*entry).dom().contains(none) == toml_strings(
                        *table,
                    ).dom().contains(tail));
                    match toml_as_str(entry) {
                        Some(s) => {
                            assert(toml_strings(*entry)[none] == toml_strings(*table)[tail]);
                            assert(toml_strings(*table)[tail] == toml_strings(*value)[path]);
                            Some(String::from_str(s))
                        },
                        None => None,
                    }
                },
                None => {
                    assert(!toml_strings(*table).dom().contains(tail));
                    None
                },
            }
        },
        None => {
            assert(!toml_strings(*value).dom().contains(path));
            None
        },
    }
}

impl Project {
    /// The project that a parsed native configuration describes.
    pub fn from_toml(config: &toml::Value) -> (r: Result<Self, ProjectError>)
        ensures
            match r {
                Ok(p) => jx_project(toml_keys(*config), toml_strings(*config)) == Ok::<
                    ProjectModel,
                    ProjectError,
                >(p@),
                Err(e) => jx_project(toml_keys(*config), toml_strings(*config)) == Err::<
                    ProjectModel,
                    ProjectError,
                >(e),
            },
    {
        if toml_get(config, "project").is_none() {
            return Err(ProjectError::MissingProjectSection);
        }
        let name = match toml_text(config, "project", "name") {
            Some(name) => name,
            None => String::from_str("unknown"),
        };
        let kind = match toml_text(config, "project", "type") {
            Some(kind) => kind,
            None => String::from_str("jx"),
        };
        let project_type = if str_eq(kind.as_str(), "maven") {
            ProjectType::Maven
        } else if str_eq(kind.as_str(), "gradle") {
            ProjectType::Gradle
        } else {
            ProjectType::Jx
        };
        Ok(Project::new(name.as_str(), project_type))
    }

    /// The project that the text of a native configuration describes.
    pub fn from_jx_config(content: &str) -> (r: Result<Self, ProjectError>)
        ensures
            match r {
                Ok(p) => jx_project_of_text(content@) == Ok::<ProjectModel, ProjectError>(p@),
                Err(e) => jx_project_of_text(content@) == Err::<ProjectModel, ProjectError>(e),
            },
    {
        match parse_toml(content) {
            Ok(config) => Project::from_toml(&config),
            Err(_) => Err(ProjectError::InvalidToml),
        }
    }

    /// The Maven project that the text of a POM describes: a new project
    /// with the name that the last line of the form
    /// `<artifactId>name</artifactId>` holds, or `unknown`.
    pub fn from_maven_pom(content: &str) -> (r: Self)
        ensures
            r@ == fresh_project(
                pom_name(lines_spec(content@), lines_spec(content@).len() as int),
                ProjectType::Maven,
            ),
    {
        let all = lines(content);
        let ghost spec_lines = texts(all@);
        let mut name = String::from_str("unknown");
        let mut i: usize = 0;
        while i < all.len()
            invariant
                i <= all.len(),
                spec_lines == texts(all@),
                name@ == pom_name(spec_lines, i as int),
            decreases all.len() - i,
        {
            assert(spec_lines[i as int] == all@[i as int]@);
            let line = trim(all[i].as_str());
            match text_between(line.as_str(), "<artifactId>", "</artifactId>") {
                Some(found) => {
                    name = found;
                },
                None => {},
            }
            i = i + 1;
        }
        Project::new(name.as_str(), ProjectType::Maven)
    }

    /// The Gradle project that the text of a build script describes: a new
    /// project with the name that the last line beginning with
    /// `rootProject.name` holds between its first and its last single
    /// quote, or `unknown`.
    pub fn from_gradle_build(content: &str) -> (r: Self)
        ensures
            r@ == fresh_project(
                gradle_name(lines_spec(content@), lines_spec(content@).len() as int),
                ProjectType::Gradle,
            ),
    {
        let all = lines(content);
        let ghost spec_lines = texts(all@);
        let mut name = String::from_str("unknown");
        let mut i: usize = 0;
        while i < all.len()
            invariant
                i <= all.len(),
                spec_lines == texts(all@),
                name@ == gradle_name(spec_lines, i as int),
            decreases all.len() - i,
        {
            assert(spec_lines[i as int] == all@[i as int]@);
            let line = trim(all[i].as_str());
            if starts_with(line.as_str(), "rootProject.name") {
                match text_in_quotes(line.as_str()) {
                    Some(found) => {
                        name = found;
                    },
                    None => {},
                }
            }
            i = i + 1;
        }
        Project::new(name.as_str(), ProjectType::Gradle)
    }
}

} // verus!
