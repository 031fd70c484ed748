//! Reading the dependencies that a project declares out of the text of its
//! configuration: a POM, a Gradle script or the native configuration.
//!
//! The readers go by lines, as the files are commonly laid out: one tag, one
//! dependency or one key to a line.

use crate::dependency::{Dependency, DependencyModel, DependencyScope};
use crate::project::{between_tags, text_between};
use crate::text::{
    contains_str, find_char, has_infix, has_prefix, lines, lines_spec, optional_text, split_on,
    split_spec, starts_with, str_eq, strip_end, strip_end_spec, strip_start, strip_start_spec,
    texts, trim, trim_spec,
};
use vstd::prelude::*;

verus! {

/// A dependency as a configuration declares it, the scope in the words of
/// the configuration.
#[derive(Debug)]
pub struct ConfigDependency {
    pub group_id: String,
    pub artifact_id: String,
    pub version: String,
    pub scope: String,
}

/// What a [`ConfigDependency`] stands for.
pub struct ConfigDependencyModel {
    pub group_id: Seq<char>,
    pub artifact_id: Seq<char>,
    pub version: Seq<char>,
    pub scope: Seq<char>,
}

impl View for ConfigDependency {
    type V = ConfigDependencyModel;

    open spec fn view(&self) -> ConfigDependencyModel {
        ConfigDependencyModel {
            group_id: self.group_id@,
            artifact_id: self.artifact_id@,
            version: self.version@,
            scope: self.scope@,
        }
    }
}

impl DeepView for ConfigDependency {
    type V = ConfigDependencyModel;

    open spec fn deep_view(&self) -> ConfigDependencyModel {
        self@
    }
}

/// The scope that a word of a configuration stands for. Words of Maven and
/// of Gradle are known; any other word stands for the compile scope.
pub open spec fn scope_of_word(word: Seq<char>) -> DependencyScope {
    if word == "runtime"@ || word == "runtimeOnly"@ {
        DependencyScope::Runtime
    } else if word == "test"@ || word == "testImplementation"@ {
        DependencyScope::Test
    } else if word == "provided"@ || word == "compileOnly"@ {
        DependencyScope::Provided
    } else if word == "system"@ {
        DependencyScope::System
    } else {
        DependencyScope::Compile
    }
}

impl ConfigDependency {
    /// The dependency for the resolver: the same coordinate, the scope that
    /// the word stands for.
    pub fn to_dependency(&self) -> (r: Dependency)
        ensures
            r@ == (DependencyModel {
                group_id: self@.group_id,
                artifact_id: self@.artifact_id,
                version: self@.version,
                scope: scope_of_word(self@.scope),
                classifier: None,
                exclusions: Seq::empty(),
                optional: false,
            }),
    {
        let word = self.scope.as_str();
        let scope = if str_eq(word, "runtime") || str_eq(word, "runtimeOnly") {
            DependencyScope::Runtime
        } else if str_eq(word, "test") || str_eq(word, "testImplementation") {
            DependencyScope::Test
        } else if str_eq(word, "provided") || str_eq(word, "compileOnly") {
            DependencyScope::Provided
        } else if str_eq(word, "system") {
            DependencyScope::System
        } else {
            DependencyScope::Compile
        };
        Dependency::new(
            self.group_id.as_str(),
            self.artifact_id.as_str(),
            self.version.as_str(),
        ).with_scope(scope)
    }
}

/// Where the reading of a POM stands.
pub struct PomState {
    /// Whether the reader is inside `<dependencies>`.
    pub inside: bool,
    /// Whether the reader has passed `</dependencies>` and is done.
    pub done: bool,
    /// Whether the reader is inside a `<dependency>`.
    pub open: bool,
    pub group_id: Option<Seq<char>>,
    pub artifact_id: Option<Seq<char>>,
    pub version: Option<Seq<char>>,
    pub scope: Option<Seq<char>>,
    /// The dependencies read so far.
    pub found: Seq<ConfigDependencyModel>,
}

/// The value of a line `<tag>value</tag>`: what stands between the opening
/// and the closing tag, unless that is nothing.
pub open spec fn tag_value(line: Seq<char>, open: Seq<char>, close: Seq<char>) -> Option<Seq<char>> {
    match between_tags(line, open, close) {
        Some(value) => if value.len() > 0 {
            Some(value)
        } else {
            None
        },
        None => None,
    }
}

/// The state of the reader before any line.
pub open spec fn pom_start() -> PomState {
    PomState {
        inside: false,
        done: false,
        open: false,
        group_id: None,
        artifact_id: None,
        version: None,
        scope: None,
        found: Seq::empty(),
    }
}

/// The state with nothing noted for a dependency.
pub open spec fn pom_cleared(state: PomState, open: bool) -> PomState {
    PomState { open: open, group_id: None, artifact_id: None, version: None, scope: None, ..state }
}

/// The state of the reader after one more line, which is trimmed. Inside a
/// `<dependency>`, a line `<groupId>value</groupId>` gives the group, and so
/// for `artifactId`, `version` and `scope`; any other line says nothing.
pub open spec fn pom_step(state: PomState, line: Seq<char>) -> PomState {
    if state.done {
        state
    } else if line == "<dependencies>"@ {
        PomState { inside: true, ..state }
    } else if line == "</dependencies>"@ {
        PomState { inside: false, done: true, ..state }
    } else if !state.inside {
        state
    } else if line == "<dependency>"@ {
        pom_cleared(state, true)
    } else if line == "</dependency>"@ {
        if state.open && state.group_id is Some && state.artifact_id is Some && state.version is Some {
            let dep = ConfigDependencyModel {
                group_id: state.group_id->0,
                artifact_id: state.artifact_id->0,
                version: state.version->0,
                scope: match state.scope {
                    Some(scope) => scope,
                    None => "compile"@,
                },
            };
            PomState { found: state.found.push(dep), ..pom_cleared(state, false) }
        } else {
            pom_cleared(state, false)
        }
    } else if !state.open {
        state
    } else if tag_value(line, "<groupId>"@, "</groupId>"@) is Some {
        PomState { group_id: tag_value(line, "<groupId>"@, "</groupId>"@), ..state }
    } else if tag_value(line, "<artifactId>"@, "</artifactId>"@) is Some {
        PomState { artifact_id: tag_value(line, "<artifactId>"@, "</artifactId>"@), ..state }
    } else if tag_value(line, "<version>"@, "</version>"@) is Some {
        PomState { version: tag_value(line, "<version>"@, "</version>"@), ..state }
    } else if tag_value(line, "<scope>"@, "</scope>"@) is Some {
        PomState { scope: tag_value(line, "<scope>"@, "</scope>"@), ..state }
    } else {
        state
    }
}

/// The state of the reader after the first `n` lines.
pub open spec fn pom_fold(lines: Seq<Seq<char>>, n: int) -> PomState
    decreases n,
{
    if n <= 0 {
        pom_start()
    } else {
        pom_step(pom_fold(lines, n - 1), trim_spec(lines[n - 1]))
    }
}

/// The dependencies that the text of a POM declares between
/// `<dependencies>` and `</dependencies>`: one for each `<dependency>` that
/// gives a group, an artifact and a version.
pub open spec fn maven_dependencies_spec(content: Seq<char>) -> Seq<ConfigDependencyModel> {
    pom_fold(lines_spec(content), lines_spec(content).len() as int).found
}

/// The reader of a POM.
struct PomReader {
    inside: bool,
    done: bool,
    open: bool,
    group_id: Option<String>,
    artifact_id: Option<String>,
    version: Option<String>,
    scope: Option<String>,
    found: Vec<ConfigDependency>,
}

impl View for PomReader {
    type V = PomState;

    closed spec fn view(&self) -> PomState {
        PomState {
            inside: self.inside,
            done: self.done,
            open: self.open,
            group_id: optional_text(self.group_id),
            artifact_id: optional_text(self.artifact_id),
            version: optional_text(self.version),
            scope: optional_text(self.scope),
            found: self.found.deep_view(),
        }
    }
}

/// The value of a line `<tag>value</tag>`.
pub fn read_tag(line: &str, open: &str, close: &str) -> (r: Option<String>)
    ensures
        optional_text(r) == tag_value(line@, open@, close@),
{
    match text_between(line, open, close) {
        Some(value) => {
            if value.as_str().is_empty() {
                None
            } else {
                Some(value)
            }
        },
        None => None,
    }
}

impl PomReader {
    /// Forgets what is noted for a dependency.
    fn clear(&mut self, open: bool)
        ensures
            final(self)@ == pom_cleared(old(self)@, open),
    {
        self.open = open;
        self.group_id = None;
        self.artifact_id = None;
        self.version = None;
        self.scope = None;
    }

    /// Reads one more line, which is trimmed.
    fn step(&mut self, line: &str)
        ensures
            final(self)@ == pom_step(old(self)@, line@),
    {
        if self.done {
            return ;
        }
        if str_eq(line, "<dependencies>") {
            self.inside = true;
            return ;
        }
        if str_eq(line, "</dependencies>") {
            self.inside = false;
            self.done = true;
            return ;
        }
        if !self.inside {
            return ;
        }
        if str_eq(line, "<dependency>") {
            self.clear(true);
            return ;
        }
        if str_eq(line, "</dependency>") {
            if self.open {
                let group_id = self.group_id.take();
                let artifact_id = self.artifact_id.take();
                let version = self.version.take();
                let scope = self.scope.take();
                match (group_id, artifact_id, version) {
                    (Some(group_id), Some(artifact_id), Some(version)) => {
                        let scope = match scope {
                            Some(scope) => scope,
                            None => String::from_str("compile"),
                        };
                        let ghost sofar = self.found.deep_view();
                        let dep = ConfigDependency { group_id, artifact_id, version, scope };
                        self.found.push(dep);
                        assert(self.found.deep_view() =~= sofar.push(dep@));
                    },
                    _ => {},
                }
            }
            self.clear(false);
            return ;
        }
        if !self.open {
            return ;
        }
        match read_tag(line, "<groupId>", "</groupId>") {
            Some(value) => {
                self.group_id = Some(value);
                return ;
            },
            None => {},
        }
        match read_tag(line, "<artifactId>", "</artifactId>") {
            Some(value) => {
                self.artifact_id = Some(value);
                return ;
            },
            None => {},
        }
        match read_tag(line, "<version>", "</version>") {
            Some(value) => {
                self.version = Some(value);
                return ;
            },
            None => {},
        }
        match read_tag(line, "<scope>", "</scope>") {
            Some(value) => {
                self.scope = Some(value);
            },
            None => {},
        }
    }
}

/// The dependencies that the text of a POM declares.
pub fn parse_maven_dependencies(pom_content: &str) -> (r: Vec<ConfigDependency>)
    ensures
        r.deep_view() == maven_dependencies_spec(pom_content@),
{
    let all = lines(pom_content);
    let ghost spec_lines = texts(all@);
    let mut reader = PomReader {
        inside: false,
        done: false,
        open: false,
        group_id: None,
        artifact_id: None,
        version: None,
        scope: None,
        found: Vec::new(),
    };
    assert(reader@.found =~= Seq::empty());
    let mut i: usize = 0;
    while i < all.len()
        invariant
            i <= all.len(),
            spec_lines == texts(all@),
            reader@ == pom_fold(spec_lines, i as int),
        decreases all.len() - i,
    {
        assert(spec_lines[i as int] == all@[i as int]@);
        let line = trim(all[i].as_str());
        reader.step(line.as_str());
        i = i + 1;
    }
    reader.found
}

/// Where the reading of a Gradle script or of a native configuration
/// stands.
pub struct BlockState {
    /// Whether the reader is inside the block of dependencies.
    pub inside: bool,
    /// Whether the reader has passed the end of the block and is done.
    pub done: bool,
    /// The dependencies read so far.
    pub found: Seq<ConfigDependencyModel>,
}

/// The configuration of a Gradle dependency line: the first of the known
/// words that the line holds, or `implementation`.
pub open spec fn gradle_scope(line: Seq<char>) -> Seq<char> {
    if has_infix(line, "implementation"@) {
        "implementation"@
    } else if has_infix(line, "compileOnly"@) {
        "compileOnly"@
    } else if has_infix(line, "runtimeOnly"@) {
        "runtimeOnly"@
    } else if has_infix(line, "testImplementation"@) {
        "testImplementation"@
    } else {
        "implementation"@
    }
}

/// The dependency that a Gradle line such as
/// `implementation 'group:artifact:version'` declares: what stands behind
/// its first single quote, up to the next, parted at the colons. Where no
/// version is given, the version is `*`.
pub open spec fn gradle_dependency(line: Seq<char>) -> Option<ConfigDependencyModel> {
    let parts = split_spec(line, '\'');
    if parts.len() >= 2 {
        let fields = split_spec(parts[1], ':');
        if fields.len() >= 2 {
            Some(
                ConfigDependencyModel {
                    group_id: fields[0],
                    artifact_id: fields[1],
                    version: if fields.len() >= 3 {
                        fields[2]
                    } else {
                        "*"@
                    },
                    scope: gradle_scope(line),
                },
            )
        } else {
            None
        }
    } else {
        None
    }
}

/// The state of the reader of a Gradle script after one more line, which is
/// trimmed.
pub open spec fn gradle_step(state: BlockState, line: Seq<char>) -> BlockState {
    if state.done {
        state
    } else if line == "dependencies {"@ {
        BlockState { inside: true, ..state }
    } else if line == "}"@ && state.inside {
        BlockState { inside: false, done: true, ..state }
    } else if state.inside && line.contains('\'') {
        match gradle_dependency(line) {
            Some(dep) => BlockState { found: state.found.push(dep), ..state },
            None => state,
        }
    } else {
        state
    }
}

/// The state of the reader of a Gradle script after the first `n` lines.
pub open spec fn gradle_fold(lines: Seq<Seq<char>>, n: int) -> BlockState
    decreases n,
{
    if n <= 0 {
        BlockState { inside: false, done: false, found: Seq::empty() }
    } else {
        gradle_step(gradle_fold(lines, n - 1), trim_spec(lines[n - 1]))
    }
}

/// The dependencies that the text of a Gradle script declares in its block
/// `dependencies { ... }`, one to a line.
pub open spec fn gradle_dependencies_spec(content: Seq<char>) -> Seq<ConfigDependencyModel> {
    gradle_fold(lines_spec(content), lines_spec(content).len() as int).found
}

/// The configuration of a Gradle dependency line.
pub fn gradle_scope_of(line: &str) -> (r: String)
    ensures
        r@ == gradle_scope(line@),
{
    if contains_str(line, "implementation") {
        String::from_str("implementation")
    } else if contains_str(line, "compileOnly") {
        String::from_str("compileOnly")
    } else if contains_str(line, "runtimeOnly") {
        String::from_str("runtimeOnly")
    } else if contains_str(line, "testImplementation") {
        String::from_str("testImplementation")
    } else {
        String::from_str("implementation")
    }
}

/// The dependency that a Gradle line declares.
pub fn parse_gradle_line(line: &str) -> (r: Option<ConfigDependency>)
    ensures
        match r {
            Some(dep) => gradle_dependency(line@) == Some(dep@),
            None => gradle_dependency(line@) is None,
        },
{
    let parts = split_on(line, '\'');
    assert(forall|i: int| 0 <= i < parts@.len() ==> parts@[i]@ == texts(parts@)[i]);
    if parts.len() < 2 {
        return None;
    }
    let fields = split_on(parts[1].as_str(), ':');
    assert(forall|i: int| 0 <= i < fields@.len() ==> fields@[i]@ == texts(fields@)[i]);
    if fields.len() < 2 {
        return None;
    }
    let version = if fields.len() >= 3 {
        fields[2].clone()
    } else {
        String::from_str("*")
    };
    Some(
        ConfigDependency {
            group_id: fields[0].clone(),
            artifact_id: fields[1].clone(),
            version,
            scope: gradle_scope_of(line),
        },
    )
}

/// The dependencies that the text of a Gradle script declares.
pub fn parse_gradle_dependencies(gradle_content: &str) -> (r: Vec<ConfigDependency>)
    ensures
        r.deep_view() == gradle_dependencies_spec(gradle_content@),
{
    let all = lines(gradle_content);
    let ghost spec_lines = texts(all@);
    let mut inside = false;
    let mut done = false;
    let mut found: Vec<ConfigDependency> = Vec::new();
    assert(found.deep_view() =~= Seq::empty());
    let mut i: usize = 0;
    while i < all.len()
        invariant
            i <= all.len(),
            spec_lines == texts(all@),
            gradle_fold(spec_lines, i as int) == (BlockState {
                inside: inside,
                done: done,
                found: found.deep_view(),
            }),
        decreases all.len() - i,
    {
        assert(spec_lines[i as int] == all@[i as int]@);
        let line = trim(all[i].as_str());
        let ghost sofar = found.deep_view();
        if done {
        } else if str_eq(line.as_str(), "dependencies {") {
            inside = true;
        } else if str_eq(line.as_str(), "}") && inside {
            inside = false;
            done = true;
        } else if inside && find_char(line.as_str(), '\'').is_some() {
            match parse_gradle_line(line.as_str()) {
                Some(dep) => {
                    found.push(dep);
                    assert(found.deep_view() =~= sofar.push(dep@));
                },
                None => {},
            }
        }
        i = i + 1;
    }
    found
}

/// `s` without the double quotes at its start and at its end.
pub open spec fn unquoted(s: Seq<char>) -> Seq<char> {
    strip_end_spec(strip_start_spec(s, '"'), '"')
}

/// The dependency that a line `group:artifact = "version"` of a native
/// configuration declares, in compile scope.
pub open spec fn jx_dependency(line: Seq<char>) -> Option<ConfigDependencyModel> {
    let parts = split_spec(line, '=');
    if parts.len() == 2 {
        let fields = split_spec(trim_spec(parts[0]), ':');
        if fields.len() == 2 {
            Some(
                ConfigDependencyModel {
                    group_id: fields[0],
                    artifact_id: fields[1],
                    version: unquoted(trim_spec(parts[1])),
                    scope: "compile"@,
                },
            )
        } else {
            None
        }
    } else {
        None
    }
}

/// The state of the reader of a native configuration after one more line,
/// which is trimmed. The section `[dependencies]` may be entered again
/// after another section.
pub open spec fn jx_step(state: BlockState, line: Seq<char>) -> BlockState {
    if line == "[dependencies]"@ {
        BlockState { inside: true, ..state }
    } else if has_prefix(line, "["@) {
        BlockState { inside: false, ..state }
    } else if state.inside && line.contains('=') {
        match jx_dependency(line) {
            Some(dep) => BlockState { found: state.found.push(dep), ..state },
            None => state,
        }
    } else {
        state
    }
}

/// The state of the reader of a native configuration after the first `n`
/// lines.
pub open spec fn jx_fold(lines: Seq<Seq<char>>, n: int) -> BlockState
    decreases n,
{
    if n <= 0 {
        BlockState { inside: false, done: false, found: Seq::empty() }
    } else {
        jx_step(jx_fold(lines, n - 1), trim_spec(lines[n - 1]))
    }
}

/// The dependencies that the text of a native configuration declares in
/// its section `[dependencies]`, one to a line.
pub open spec fn jx_dependencies_spec(content: Seq<char>) -> Seq<ConfigDependencyModel> {
    jx_fold(lines_spec(content), lines_spec(content).len() as int).found
}

/// The dependency that a line of a native configuration declares.
pub fn parse_jx_line(line: &str) -> (r: Option<ConfigDependency>)
    ensures
        match r {
            Some(dep) => jx_dependency(line@) == Some(dep@),
            None => jx_dependency(line@) is None,
        },
{
    let parts = split_on(line, '=');
    assert(forall|i: int| 0 <= i < parts@.len() ==> parts@[i]@ == texts(parts@)[i]);
    if parts.len() != 2 {
        return None;
    }
    let coordinate = trim(parts[0].as_str());
    let fields = split_on(coordinate.as_str(), ':');
    assert(forall|i: int| 0 <= i < fields@.len() ==> fields@[i]@ == texts(fields@)[i]);
    if fields.len() != 2 {
        return None;
    }
    let value = trim(parts[1].as_str());
    let head = strip_start(value.as_str(), '"');
    let version = strip_end(head.as_str(), '"');
    Some(
        ConfigDependency {
            group_id: fields[0].clone(),
            artifact_id: fields[1].clone(),
            version,
            scope: String::from_str("compile"),
        },
    )
}

/// The dependencies that the text of a native configuration declares.
pub fn parse_jx_dependencies(jx_content: &str) -> (r: Vec<ConfigDependency>)
    ensures
        r.deep_view() == jx_dependencies_spec(jx_content@),
{
    let all = lines(jx_content);
    let ghost spec_lines = texts(all@);
    let mut inside = false;
    let mut found: Vec<ConfigDependency> = Vec::new();
    assert(found.deep_view() =~= Seq::empty());
    let mut i: usize = 0;
    while i < all.len()
        invariant
            i <= all.len(),
            spec_lines == texts(all@),
            jx_fold(spec_lines, i as int) == (BlockState {
                inside: inside,
                done: false,
                found: found.deep_view(),
            }),
        decreases all.len() - i,
    {
        assert(spec_lines[i as int] == all@[i as int]@);
        let line = trim(all[i].as_str());
        let ghost sofar = found.deep_view();
        if str_eq(line.as_str(), "[dependencies]") {
            inside = true;
        } else if starts_with(line.as_str(), "[") {
            inside = false;
        } else if inside && find_char(line.as_str(), '=').is_some() {
            match parse_jx_line(line.as_str()) {
                Some(dep) => {
                    found.push(dep);
                    assert(found.deep_view() =~= sofar.push(dep@));
                },
                None => {},
            }
        }
        i = i + 1;
    }
    found
}

/// The dependencies for the resolver that a list of declared dependencies
/// stands for, in order.
pub fn to_dependencies(declared: &Vec<ConfigDependency>) -> (r: Vec<Dependency>)
    ensures
        r@.len() == declared@.len(),
        forall|i: int|
            0 <= i < r@.len() ==> (#[trigger] r@[i])@ == (DependencyModel {
                group_id: declared@[i]@.group_id,
                artifact_id: declared@[i]@.artifact_id,
                version: declared@[i]@.version,
                scope: scope_of_word(declared@[i]@.scope),
                classifier: None,
                exclusions: Seq::empty(),
                optional: false,
            }),
{
    let mut out: Vec<Dependency> = Vec::new();
    let mut i: usize = 0;
    while i < declared.len()
        invariant
            i <= declared.len(),
            out@.len() == i,
            forall|j: int|
                0 <= j < i ==> (#[trigger] out@[j])@ == (DependencyModel {
                    group_id: declared@[j]@.group_id,
                    artifact_id: declared@[j]@.artifact_id,
                    version: declared@[j]@.version,
                    scope: scope_of_word(declared@[j]@.scope),
                    classifier: None,
                    exclusions: Seq::empty(),
                    optional: false,
                }),
        decreases declared.len() - i,
    {
        out.push(declared[i].to_dependency());
        i = i + 1;
    }
    out
}

} // verus!
