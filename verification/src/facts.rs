//! What the text of a configuration says of a project besides its
//! dependencies: names, versions and classes, for display and for running
//! tests.
//!
//! The readers go by lines: a line gives the value that stands between its
//! tags, between its quotes, or behind its key.

use crate::adapter::{read_tag, tag_value};
use crate::project::{between_tags, quoted, text_between, text_in_quotes};
use crate::text::{
    char_len, contains_str, ends_with, has_infix, has_prefix, has_suffix, lines, lines_spec,
    optional_text, slice, starts_with, strip_end, strip_end_spec, texts, trim, trim_spec,
};
use vstd::prelude::*;

verus! {

/// What stands in `line` behind its first `front` characters and before its
/// last `back`. Where `strict` holds, nothing counts as no text.
pub open spec fn cut_spec(line: Seq<char>, front: nat, back: nat, strict: bool) -> Option<Seq<char>> {
    if front + back < line.len() || (!strict && front + back == line.len()) {
        Some(line.subrange(front as int, line.len() - back))
    } else {
        None
    }
}

/// What stands in `line` behind its first `front` characters and before its
/// last `back`.
pub fn cut(line: &str, front: usize, back: usize, strict: bool) -> (r: Option<String>)
    ensures
        optional_text(r) == cut_spec(line@, front as nat, back as nat, strict),
{
    let n = char_len(line);
    if back > n || front > n - back {
        return None;
    }
    if strict && front == n - back {
        return None;
    }
    Some(slice(line, front, n - back))
}

/// Whether `line` begins with `open` and ends with `close`.
pub open spec fn tagged(line: Seq<char>, open: Seq<char>, close: Seq<char>) -> bool {
    has_prefix(line, open) && has_suffix(line, close)
}

/// Whether `line` begins with `open` and ends with `close`.
pub fn is_tagged(line: &str, open: &str, close: &str) -> (r: bool)
    ensures
        r == tagged(line@, open@, close@),
{
    starts_with(line, open) && ends_with(line, close)
}

/// What is known of a project.
#[derive(Debug)]
pub struct ProjectInfo {
    pub name: String,
    pub version: String,
    pub description: Option<String>,
    pub group_id: Option<String>,
    pub artifact_id: Option<String>,
    pub packaging: Option<String>,
    pub java_version: Option<String>,
    pub source_encoding: Option<String>,
}

/// What a [`ProjectInfo`] stands for.
pub struct ProjectInfoModel {
    pub name: Seq<char>,
    pub version: Seq<char>,
    pub description: Option<Seq<char>>,
    pub group_id: Option<Seq<char>>,
    pub artifact_id: Option<Seq<char>>,
    pub packaging: Option<Seq<char>>,
    pub java_version: Option<Seq<char>>,
    pub source_encoding: Option<Seq<char>>,
}

impl View for ProjectInfo {
    type V = ProjectInfoModel;

    open spec fn view(&self) -> ProjectInfoModel {
        ProjectInfoModel {
            name: self.name@,
            version: self.version@,
            description: optional_text(self.description),
            group_id: optional_text(self.group_id),
            artifact_id: optional_text(self.artifact_id),
            packaging: optional_text(self.packaging),
            java_version: optional_text(self.java_version),
            source_encoding: optional_text(self.source_encoding),
        }
    }
}

/// What is known of a project before its configuration is read: name and
/// version are the word for unknown.
pub open spec fn unknown_info() -> ProjectInfoModel {
    ProjectInfoModel {
        name: "未知"@,
        version: "未知"@,
        description: None,
        group_id: None,
        artifact_id: None,
        packaging: None,
        java_version: None,
        source_encoding: None,
    }
}

impl ProjectInfo {
    /// What is known of a project before its configuration is read.
    pub fn unknown() -> (r: Self)
        ensures
            r@ == unknown_info(),
    {
        ProjectInfo {
            name: String::from_str("未知"),
            version: String::from_str("未知"),
            description: None,
            group_id: None,
            artifact_id: None,
            packaging: None,
            java_version: None,
            source_encoding: None,
        }
    }

    /// What is known of a project of which only the name of its directory
    /// is known.
    pub fn named(name: &str) -> (r: Self)
        ensures
            r@ == (ProjectInfoModel { name: name@, ..unknown_info() }),
    {
        let mut info = ProjectInfo::unknown();
        info.name = String::from_str(name);
        info
    }
}

/// What is known after one more line of a POM, which is trimmed. A line
/// `<tag>value</tag>` with one of the known tags gives the value; the
/// artifact is the name of the project too. The Java version and the source
/// encoding are taken only where the value is not empty.
pub open spec fn maven_info_step(info: ProjectInfoModel, line: Seq<char>) -> ProjectInfoModel {
    if between_tags(line, "<groupId>"@, "</groupId>"@) is Some {
        ProjectInfoModel { group_id: between_tags(line, "<groupId>"@, "</groupId>"@), ..info }
    } else if between_tags(line, "<artifactId>"@, "</artifactId>"@) is Some {
        ProjectInfoModel {
            artifact_id: between_tags(line, "<artifactId>"@, "</artifactId>"@),
            name: between_tags(line, "<artifactId>"@, "</artifactId>"@)->0,
            ..info
        }
    } else if between_tags(line, "<version>"@, "</version>"@) is Some {
        ProjectInfoModel { version: between_tags(line, "<version>"@, "</version>"@)->0, ..info }
    } else if between_tags(line, "<packaging>"@, "</packaging>"@) is Some {
        ProjectInfoModel { packaging: between_tags(line, "<packaging>"@, "</packaging>"@), ..info }
    } else if between_tags(line, "<description>"@, "</description>"@) is Some {
        ProjectInfoModel {
            description: between_tags(line, "<description>"@, "</description>"@),
            ..info
        }
    } else if tagged(line, "<maven.compiler.source>"@, "</maven.compiler.source>"@) {
        match tag_value(line, "<maven.compiler.source>"@, "</maven.compiler.source>"@) {
            Some(v) => ProjectInfoModel { java_version: Some(v), ..info },
            None => info,
        }
    } else if tagged(line, "<project.build.sourceEncoding>"@, "</project.build.sourceEncoding>"@) {
        match tag_value(line, "<project.build.sourceEncoding>"@, "</project.build.sourceEncoding>"@) {
            Some(v) => ProjectInfoModel { source_encoding: Some(v), ..info },
            None => info,
        }
    } else {
        info
    }
}

/// What is known after the first `n` lines of a POM.
pub open spec fn maven_info_fold(lines: Seq<Seq<char>>, n: int) -> ProjectInfoModel
    decreases n,
{
    if n <= 0 {
        unknown_info()
    } else {
        maven_info_step(maven_info_fold(lines, n - 1), trim_spec(lines[n - 1]))
    }
}

/// What a POM says of its project.
pub fn get_maven_project_info(pom_content: &str) -> (r: ProjectInfo)
    ensures
        r@ == maven_info_fold(lines_spec(pom_content@), lines_spec(pom_content@).len() as int),
{
    let all = lines(pom_content);
    let ghost spec_lines = texts(all@);
    let mut info = ProjectInfo::unknown();
    let mut i: usize = 0;
    while i < all.len()
        invariant
            i <= all.len(),
            spec_lines == texts(all@),
            info@ == maven_info_fold(spec_lines, i as int),
        decreases all.len() - i,
    {
        assert(spec_lines[i as int] == all@[i as int]@);
        let trimmed = trim(all[i].as_str());
        let line = trimmed.as_str();
        if let Some(v) = text_between(line, "<groupId>", "</groupId>") {
            info.group_id = Some(v);
        } else if let Some(v) = text_between(line, "<artifactId>", "</artifactId>") {
            info.artifact_id = Some(v.clone());
            info.name = v;
        } else if let Some(v) = text_between(line, "<version>", "</version>") {
            info.version = v;
        } else if let Some(v) = text_between(line, "<packaging>", "</packaging>") {
            info.packaging = Some(v);
        } else if let Some(v) = text_between(line, "<description>", "</description>") {
            info.description = Some(v);
        } else if is_tagged(line, "<maven.compiler.source>", "</maven.compiler.source>") {
            match read_tag(line, "<maven.compiler.source>", "</maven.compiler.source>") {
                Some(v) => {
                    info.java_version = Some(v);
                },
                None => {},
            }
        } else if is_tagged(line, "<project.build.sourceEncoding>", "</project.build.sourceEncoding>") {
            match read_tag(line, "<project.build.sourceEncoding>", "</project.build.sourceEncoding>") {
                Some(v) => {
                    info.source_encoding = Some(v);
                },
                None => {},
            }
        }
        i = i + 1;
    }
    info
}

/// What is known after one more line of a Gradle script, which is trimmed:
/// a line that begins with `rootProject.name`, `version`, `group` or
/// `sourceCompatibility` gives what it holds between its first and its last
/// single quote.
pub open spec fn gradle_info_step(info: ProjectInfoModel, line: Seq<char>) -> ProjectInfoModel {
    if has_prefix(line, "rootProject.name"@) {
        match quoted(line) {
            Some(v) => ProjectInfoModel { name: v, ..info },
            None => info,
        }
    } else if has_prefix(line, "version"@) {
        match quoted(line) {
            Some(v) => ProjectInfoModel { version: v, ..info },
            None => info,
        }
    } else if has_prefix(line, "group"@) {
        match quoted(line) {
            Some(v) => ProjectInfoModel { group_id: Some(v), ..info },
            None => info,
        }
    } else if has_prefix(line, "sourceCompatibility"@) {
        match quoted(line) {
            Some(v) => ProjectInfoModel { java_version: Some(v), ..info },
            None => info,
        }
    } else {
        info
    }
}

/// What is known after the first `n` lines of a Gradle script.
pub open spec fn gradle_info_fold(lines: Seq<Seq<char>>, n: int) -> ProjectInfoModel
    decreases n,
{
    if n <= 0 {
        unknown_info()
    } else {
        gradle_info_step(gradle_info_fold(lines, n - 1), trim_spec(lines[n - 1]))
    }
}

/// What a Gradle script says of its project.
pub fn get_gradle_project_info(build_content: &str) -> (r: ProjectInfo)
    ensures
        r@ == gradle_info_fold(lines_spec(build_content@), lines_spec(build_content@).len() as int),
{
    let all = lines(build_content);
    let ghost spec_lines = texts(all@);
    let mut info = ProjectInfo::unknown();
    let mut i: usize = 0;
    while i < all.len()
        invariant
            i <= all.len(),
            spec_lines == texts(all@),
            info@ == gradle_info_fold(spec_lines, i as int),
        decreases all.len() - i,
    {
        assert(spec_lines[i as int] == all@[i as int]@);
        let trimmed = trim(all[i].as_str());
        let line = trimmed.as_str();
        if starts_with(line, "rootProject.name") {
            match text_in_quotes(line) {
                Some(v) => {
                    info.name = v;
                },
                None => {},
            }
        } else if starts_with(line, "version") {
            match text_in_quotes(line) {
                Some(v) => {
                    info.version = v;
                },
                None => {},
            }
        } else if starts_with(line, "group") {
            match text_in_quotes(line) {
                Some(v) => {
                    info.group_id = Some(v);
                },
                None => {},
            }
        } else if starts_with(line, "sourceCompatibility") {
            match text_in_quotes(line) {
                Some(v) => {
                    info.java_version = Some(v);
                },
                None => {},
            }
        }
        i = i + 1;
    }
    info
}

/// What is known after one more line of a native configuration, which is
/// trimmed: a line that begins with `name = "`, `version = "`,
/// `description = "` or `java_version = "` gives what stands behind that,
/// without its last character.
pub open spec fn jx_info_step(info: ProjectInfoModel, line: Seq<char>) -> ProjectInfoModel {
    if has_prefix(line, "name = \""@) {
        match cut_spec(line, 8, 1, false) {
            Some(v) => ProjectInfoModel { name: v, ..info },
            None => info,
        }
    } else if has_prefix(line, "version = \""@) {
        match cut_spec(line, 11, 1, false) {
            Some(v) => ProjectInfoModel { version: v, ..info },
            None => info,
        }
    } else if has_prefix(line, "description = \""@) {
        match cut_spec(line, 15, 1, false) {
            Some(v) => ProjectInfoModel { description: Some(v), ..info },
            None => info,
        }
    } else if has_prefix(line, "java_version = \""@) {
        match cut_spec(line, 16, 1, false) {
            Some(v) => ProjectInfoModel { java_version: Some(v), ..info },
            None => info,
        }
    } else {
        info
    }
}

/// What is known after the first `n` lines of a native configuration.
pub open spec fn jx_info_fold(lines: Seq<Seq<char>>, n: int) -> ProjectInfoModel
    decreases n,
{
    if n <= 0 {
        unknown_info()
    } else {
        jx_info_step(jx_info_fold(lines, n - 1), trim_spec(lines[n - 1]))
    }
}

/// What a native configuration says of its project.
pub fn get_jx_project_info(jx_content: &str) -> (r: ProjectInfo)
    ensures
        r@ == jx_info_fold(lines_spec(jx_content@), lines_spec(jx_content@).len() as int),
{
    let all = lines(jx_content);
    let ghost spec_lines = texts(all@);
    let mut info = ProjectInfo::unknown();
    let mut i: usize = 0;
    while i < all.len()
        invariant
            i <= all.len(),
            spec_lines == texts(all@),
            info@ == jx_info_fold(spec_lines, i as int),
        decreases all.len() - i,
    {
        assert(spec_lines[i as int] == all@[i as int]@);
        let trimmed = trim(all[i].as_str());
        let line = trimmed.as_str();
        if starts_with(line, "name = \"") {
            match cut(line, 8, 1, false) {
                Some(v) => {
                    info.name = v;
                },
                None => {},
            }
        } else if starts_with(line, "version = \"") {
            match cut(line, 11, 1, false) {
                Some(v) => {
                    info.version = v;
                },
                None => {},
            }
        } else if starts_with(line, "description = \"") {
            match cut(line, 15, 1, false) {
                Some(v) => {
                    info.description = Some(v);
                },
                None => {},
            }
        } else if starts_with(line, "java_version = \"") {
            match cut(line, 16, 1, false) {
                Some(v) => {
                    info.java_version = Some(v);
                },
                None => {},
            }
        }
        i = i + 1;
    }
    info
}

/// What the tests of a project need to know, as far as the text of its
/// configuration says it.
#[derive(Debug)]
pub struct TestFacts {
    pub test_framework: String,
    pub main_class: Option<String>,
    pub test_class: Option<String>,
    pub java_version: Option<String>,
}

/// What a [`TestFacts`] stands for.
pub struct TestFactsModel {
    pub test_framework: Seq<char>,
    pub main_class: Option<Seq<char>>,
    pub test_class: Option<Seq<char>>,
    pub java_version: Option<Seq<char>>,
}

impl View for TestFacts {
    type V = TestFactsModel;

    open spec fn view(&self) -> TestFactsModel {
        TestFactsModel {
            test_framework: self.test_framework@,
            main_class: optional_text(self.main_class),
            test_class: optional_text(self.test_class),
            java_version: optional_text(self.java_version),
        }
    }
}

/// What is taken of the tests of a project that says nothing of them:
/// JUnit and Java 11.
pub open spec fn usual_tests() -> TestFactsModel {
    TestFactsModel {
        test_framework: "JUnit"@,
        main_class: None,
        test_class: None,
        java_version: Some("11"@),
    }
}

/// The test framework that a configuration names: TestNG where it holds
/// `testng` and not `junit`, else JUnit.
pub open spec fn framework_spec(content: Seq<char>) -> Seq<char> {
    if !has_infix(content, "junit"@) && has_infix(content, "testng"@) {
        "TestNG"@
    } else {
        "JUnit"@
    }
}

/// The test framework that a configuration names.
pub fn detect_test_framework(content: &str) -> (r: String)
    ensures
        r@ == framework_spec(content@),
{
    if contains_str(content, "junit") {
        String::from_str("JUnit")
    } else if contains_str(content, "testng") {
        String::from_str("TestNG")
    } else {
        String::from_str("JUnit")
    }
}

impl TestFacts {
    /// What is taken of the tests of a project that says nothing of them.
    pub fn usual() -> (r: Self)
        ensures
            r@ == usual_tests(),
    {
        TestFacts {
            test_framework: String::from_str("JUnit"),
            main_class: None,
            test_class: None,
            java_version: Some(String::from_str("11")),
        }
    }
}

/// The Java version after one more line of a POM, which is trimmed: what
/// stands between the tags of the compiler's source or target version.
pub open spec fn maven_java_step(version: Option<Seq<char>>, line: Seq<char>) -> Option<Seq<char>> {
    if tagged(line, "<maven.compiler.source>"@, "</maven.compiler.source>"@) {
        match tag_value(line, "<maven.compiler.source>"@, "</maven.compiler.source>"@) {
            Some(v) => Some(v),
            None => version,
        }
    } else if tagged(line, "<maven.compiler.target>"@, "</maven.compiler.target>"@) {
        match tag_value(line, "<maven.compiler.target>"@, "</maven.compiler.target>"@) {
            Some(v) => Some(v),
            None => version,
        }
    } else {
        version
    }
}

/// The Java version after the first `n` lines of a POM.
pub open spec fn maven_java_fold(lines: Seq<Seq<char>>, n: int) -> Option<Seq<char>>
    decreases n,
{
    if n <= 0 {
        Some("11"@)
    } else {
        maven_java_step(maven_java_fold(lines, n - 1), trim_spec(lines[n - 1]))
    }
}

/// What a POM says of the tests of its project.
pub fn get_maven_test_config(pom_content: &str) -> (r: TestFacts)
    ensures
        r@ == (TestFactsModel {
            test_framework: framework_spec(pom_content@),
            java_version: maven_java_fold(
                lines_spec(pom_content@),
                lines_spec(pom_content@).len() as int,
            ),
            ..usual_tests()
        }),
{
    let all = lines(pom_content);
    let ghost spec_lines = texts(all@);
    let mut facts = TestFacts::usual();
    let mut i: usize = 0;
    while i < all.len()
        invariant
            i <= all.len(),
            spec_lines == texts(all@),
            facts@ == (TestFactsModel {
                java_version: maven_java_fold(spec_lines, i as int),
                ..usual_tests()
            }),
        decreases all.len() - i,
    {
        assert(spec_lines[i as int] == all@[i as int]@);
        let trimmed = trim(all[i].as_str());
        let line = trimmed.as_str();
        if is_tagged(line, "<maven.compiler.source>", "</maven.compiler.source>") {
            match read_tag(line, "<maven.compiler.source>", "</maven.compiler.source>") {
                Some(v) => {
                    facts.java_version = Some(v);
                },
                None => {},
            }
        } else if is_tagged(line, "<maven.compiler.target>", "</maven.compiler.target>") {
            match read_tag(line, "<maven.compiler.target>", "</maven.compiler.target>") {
                Some(v) => {
                    facts.java_version = Some(v);
                },
                None => {},
            }
        }
        i = i + 1;
    }
    facts.test_framework = detect_test_framework(pom_content);
    facts
}

/// What is known of the tests after one more line of a Gradle script, which
/// is trimmed: a line that begins with `sourceCompatibility` or `mainClass`
/// gives what it holds between its first and its last single quote.
pub open spec fn gradle_test_step(facts: TestFactsModel, line: Seq<char>) -> TestFactsModel {
    if has_prefix(line, "sourceCompatibility"@) {
        match quoted(line) {
            Some(v) => TestFactsModel { java_version: Some(v), ..facts },
            None => facts,
        }
    } else if has_prefix(line, "mainClass"@) {
        match quoted(line) {
            Some(v) => TestFactsModel { main_class: Some(v), ..facts },
            None => facts,
        }
    } else {
        facts
    }
}

/// What is known of the tests after the first `n` lines of a Gradle script.
pub open spec fn gradle_test_fold(lines: Seq<Seq<char>>, n: int) -> TestFactsModel
    decreases n,
{
    if n <= 0 {
        usual_tests()
    } else {
        gradle_test_step(gradle_test_fold(lines, n - 1), trim_spec(lines[n - 1]))
    }
}

/// What a Gradle script says of the tests of its project.
pub fn get_gradle_test_config(build_content: &str) -> (r: TestFacts)
    ensures
        r@ == (TestFactsModel {
            test_framework: framework_spec(build_content@),
            ..gradle_test_fold(lines_spec(build_content@), lines_spec(build_content@).len() as int)
        }),
{
    let all = lines(build_content);
    let ghost spec_lines = texts(all@);
    let mut facts = TestFacts::usual();
    let mut i: usize = 0;
    while i < all.len()
        invariant
            i <= all.len(),
            spec_lines == texts(all@),
            facts@ == gradle_test_fold(spec_lines, i as int),
        decreases all.len() - i,
    {
        assert(spec_lines[i as int] == all@[i as int]@);
        let trimmed = trim(all[i].as_str());
        let line = trimmed.as_str();
        if starts_with(line, "sourceCompatibility") {
            match text_in_quotes(line) {
                Some(v) => {
                    facts.java_version = Some(v);
                },
                None => {},
            }
        } else if starts_with(line, "mainClass") {
            match text_in_quotes(line) {
                Some(v) => {
                    facts.main_class = Some(v);
                },
                None => {},
            }
        }
        i = i + 1;
    }
    facts.test_framework = detect_test_framework(build_content);
    facts
}

/// What is known of the tests after one more line of a native
/// configuration, which is trimmed: a line that begins with
/// `main_class = "`, `test_class = "` or `java_version = "` gives what
/// stands behind that, without its last character, unless that is nothing.
pub open spec fn jx_test_step(facts: TestFactsModel, line: Seq<char>) -> TestFactsModel {
    if has_prefix(line, "main_class = \""@) {
        match cut_spec(line, 14, 1, true) {
            Some(v) => TestFactsModel { main_class: Some(v), ..facts },
            None => facts,
        }
    } else if has_prefix(line, "test_class = \""@) {
        match cut_spec(line, 14, 1, true) {
            Some(v) => TestFactsModel { test_class: Some(v), ..facts },
            None => facts,
        }
    } else if has_prefix(line, "java_version = \""@) {
        match cut_spec(line, 16, 1, true) {
            Some(v) => TestFactsModel { java_version: Some(v), ..facts },
            None => facts,
        }
    } else {
        facts
    }
}

/// What is known of the tests after the first `n` lines of a native
/// configuration.
pub open spec fn jx_test_fold(lines: Seq<Seq<char>>, n: int) -> TestFactsModel
    decreases n,
{
    if n <= 0 {
        usual_tests()
    } else {
        jx_test_step(jx_test_fold(lines, n - 1), trim_spec(lines[n - 1]))
    }
}

/// What a native configuration says of the tests of its project.
pub fn get_jx_test_config(jx_content: &str) -> (r: TestFacts)
    ensures
        r@ == jx_test_fold(lines_spec(jx_content@), lines_spec(jx_content@).len() as int),
{
    let all = lines(jx_content);
    let ghost spec_lines = texts(all@);
    let mut facts = TestFacts::usual();
    let mut i: usize = 0;
    while i < all.len()
        invariant
            i <= all.len(),
            spec_lines == texts(all@),
            facts@ == jx_test_fold(spec_lines, i as int),
        decreases all.len() - i,
    {
        assert(spec_lines[i as int] == all@[i as int]@);
        let trimmed = trim(all[i].as_str());
        let line = trimmed.as_str();
        if starts_with(line, "main_class = \"") {
            match cut(line, 14, 1, true) {
                Some(v) => {
                    facts.main_class = Some(v);
                },
                None => {},
            }
        } else if starts_with(line, "test_class = \"") {
            match cut(line, 14, 1, true) {
                Some(v) => {
                    facts.test_class = Some(v);
                },
                None => {},
            }
        } else if starts_with(line, "java_version = \"") {
            match cut(line, 16, 1, true) {
                Some(v) => {
                    facts.java_version = Some(v);
                },
                None => {},
            }
        }
        i = i + 1;
    }
    facts
}

/// `s` without the run of `prefix` at its start. An empty prefix runs
/// nowhere.
pub open spec fn strip_prefix_run(s: Seq<char>, prefix: Seq<char>) -> Seq<char>
    decreases s.len(),
{
    if prefix.len() > 0 && has_prefix(s, prefix) {
        strip_prefix_run(s.skip(prefix.len() as int), prefix)
    } else {
        s
    }
}

/// `s` without the run of `prefix` at its start.
pub fn strip_prefix(s: &str, prefix: &str) -> (r: String)
    ensures
        r@ == strip_prefix_run(s@, prefix@),
{
    let n = char_len(s);
    let k = char_len(prefix);
    if k == 0 {
        return String::from_str(s);
    }
    let mut at: usize = 0;
    assert(s@.skip(0) =~= s@);
    loop
        invariant
            at <= n,
            n == s@.len(),
            k == prefix@.len(),
            k > 0,
            strip_prefix_run(s@, prefix@) == strip_prefix_run(s@.skip(at as int), prefix@),
        decreases n - at,
    {
        let rest = slice(s, at, n);
        assert(rest@ =~= s@.skip(at as int));
        if !starts_with(rest.as_str(), prefix) {
            return rest;
        }
        assert(rest@.skip(k as int) =~= s@.skip(at + k));
        at = at + k;
    }
}

/// The main class that the first `n` lines name: what the first line that,
/// trimmed, begins with `prefix` holds behind the run of `prefix` and
/// before the run of the character `quote` at its end.
pub open spec fn main_class_from(lines: Seq<Seq<char>>, prefix: Seq<char>, quote: char, from: int) -> Seq<
    char,
>
    decreases lines.len() - from,
{
    if from < 0 || from >= lines.len() {
        "com.example.Main"@
    } else if has_prefix(trim_spec(lines[from]), prefix) {
        strip_end_spec(strip_prefix_run(trim_spec(lines[from]), prefix), quote)
    } else {
        main_class_from(lines, prefix, quote, from + 1)
    }
}

/// The main class that a configuration names in the first line that begins
/// with `prefix`, or `com.example.Main`.
pub fn find_main_class(content: &str, prefix: &str, quote: char) -> (r: String)
    ensures
        r@ == main_class_from(lines_spec(content@), prefix@, quote, 0),
{
    let all = lines(content);
    let ghost spec_lines = texts(all@);
    let mut i: usize = 0;
    while i < all.len()
        invariant
            i <= all.len(),
            spec_lines == texts(all@),
            spec_lines == lines_spec(content@),
            main_class_from(spec_lines, prefix@, quote, 0) == main_class_from(
                spec_lines,
                prefix@,
                quote,
                i as int,
            ),
        decreases all.len() - i,
    {
        assert(spec_lines[i as int] == all@[i as int]@);
        let line = trim(all[i].as_str());
        if starts_with(line.as_str(), prefix) {
            let class = strip_prefix(line.as_str(), prefix);
            return strip_end(class.as_str(), quote);
        }
        i = i + 1;
    }
    String::from_str("com.example.Main")
}

/// The configuration file that a main class is read from.
#[derive(Debug, Clone, Copy, PartialEq, Eq, Structural)]
pub enum ConfigFile {
    Jx,
    Pom,
    Gradle,
    Other,
}

/// The main class of a project: from a native configuration what the first
/// line `main_class = "..."` names, from a Gradle script what the first
/// line `mainClass = '...'` names, else `com.example.Main`.
pub open spec fn main_class_spec(file: ConfigFile, content: Seq<char>) -> Seq<char> {
    match file {
        ConfigFile::Jx => main_class_from(lines_spec(content), "main_class = \""@, '"', 0),
        ConfigFile::Gradle => main_class_from(lines_spec(content), "mainClass = '"@, '\'', 0),
        _ => "com.example.Main"@,
    }
}

/// The main class of a project, as the text of its configuration names it.
pub fn get_main_class_from_config(file: ConfigFile, content: &str) -> (r: String)
    ensures
        r@ == main_class_spec(file, content@),
{
    match file {
        ConfigFile::Jx => find_main_class(content, "main_class = \"", '"'),
        ConfigFile::Gradle => find_main_class(content, "mainClass = '", '\''),
        _ => String::from_str("com.example.Main"),
    }
}

} // verus!
