//! Writing declared dependencies into the text of a configuration and
//! taking them out again, line by line.
//!
//! Each function takes the text of a file and gives the text that is to be
//! written back. Lines are joined by line feeds; the last line gets none.

use crate::dependency::{Coordinate, CoordinateModel};
use crate::text::{
    char_len, contains_str, has_infix, has_prefix, join_fields, join_spec, lines, lines_spec,
    starts_with, str_eq, texts, trim, trim_spec,
};
use vstd::prelude::*;

verus! {

/// Why a text cannot be edited.
#[derive(Debug, Clone, Copy, PartialEq, Eq, Structural)]
pub enum EditError {
    /// The text has no section for dependencies.
    NoDependenciesSection,
}

/// `s` with each occurrence of `pattern`, from the left and without
/// overlap, replaced by `to`. An empty pattern occurs nowhere.
pub open spec fn replaced(s: Seq<char>, pattern: Seq<char>, to: Seq<char>) -> Seq<char>
    decreases s.len(),
{
    if pattern.len() == 0 || s.len() < pattern.len() {
        s
    } else if s.subrange(0, pattern.len() as int) == pattern {
        to + replaced(s.skip(pattern.len() as int), pattern, to)
    } else {
        seq![s[0]] + replaced(s.drop_first(), pattern, to)
    }
}

/// `s` with each occurrence of `pattern` replaced by `to`.
pub fn replace_all(s: &str, pattern: &str, to: &str) -> (r: String)
    ensures
        r@ == replaced(s@, pattern@, to@),
{
    let n = char_len(s);
    let k = char_len(pattern);
    if k == 0 || n < k {
        return String::from_str(s);
    }
    let mut out = String::new();
    let mut start: usize = 0;
    let mut i: usize = 0;
    proof {
        assert(s@.skip(0) =~= s@);
        assert(out@ + s@.subrange(0, 0) + replaced(s@.skip(0), pattern@, to@) =~= replaced(
            s@,
            pattern@,
            to@,
        ));
    }
    while i <= n - k
        invariant
            start <= i <= n,
            0 < k <= n,
            n == s@.len(),
            k == pattern@.len(),
            out@ + s@.subrange(start as int, i as int) + replaced(s@.skip(i as int), pattern@, to@)
                == replaced(s@, pattern@, to@),
        decreases n - i,
    {
        let ghost rest = s@.skip(i as int);
        let ghost pending = s@.subrange(start as int, i as int);
        let ghost sofar = out@;
        assert(rest.subrange(0, k as int) =~= s@.subrange(i as int, i + k));
        if str_eq(s.substring_char(i, i + k), pattern) {
            out.append(s.substring_char(start, i));
            out.append(to);
            i = i + k;
            start = i;
            proof {
                assert(rest.skip(k as int) =~= s@.skip(i as int));
                assert(out@ + s@.subrange(start as int, i as int) + replaced(
                    s@.skip(i as int),
                    pattern@,
                    to@,
                ) =~= sofar + pending + (to@ + replaced(rest.skip(k as int), pattern@, to@)));
            }
        } else {
            i = i + 1;
            proof {
                assert(rest.drop_first() =~= s@.skip(i as int));
                assert(s@.subrange(start as int, i as int) =~= pending + seq![rest[0]]);
                assert(out@ + s@.subrange(start as int, i as int) + replaced(
                    s@.skip(i as int),
                    pattern@,
                    to@,
                ) =~= sofar + pending + (seq![rest[0]] + replaced(rest.drop_first(), pattern@, to@)));
            }
        }
    }
    proof {
        let rest = s@.skip(i as int);
        assert(replaced(rest, pattern@, to@) == rest);
        assert(s@.subrange(start as int, i as int) + rest =~= s@.subrange(start as int, n as int));
        assert(out@ + s@.subrange(start as int, n as int) =~= out@ + s@.subrange(
            start as int,
            i as int,
        ) + rest);
    }
    out.append(s.substring_char(start, n));
    out
}

/// The lines written out, a line feed between neighbours.
pub fn join_lines(all: &Vec<String>) -> (r: String)
    ensures
        r@ == join_spec(texts(all@), '\n'),
{
    proof {
        reveal_strlit("\n");
    }
    assert("\n"@ =~= seq!['\n']);
    assert(texts(all@).take(all@.len() as int) =~= texts(all@));
    join_fields(all, all.len(), '\n', "\n")
}

/// The first line at or behind `from` that, trimmed, reads `marker`; -1
/// where there is none.
pub open spec fn first_reading(all: Seq<Seq<char>>, marker: Seq<char>, from: int) -> int
    decreases all.len() - from,
{
    if from < 0 || from >= all.len() {
        -1
    } else if trim_spec(all[from]) == marker {
        from
    } else {
        first_reading(all, marker, from + 1)
    }
}

/// The first line at or behind `from` that, trimmed, begins with `prefix`;
/// -1 where there is none.
pub open spec fn first_beginning(all: Seq<Seq<char>>, prefix: Seq<char>, from: int) -> int
    decreases all.len() - from,
{
    if from < 0 || from >= all.len() {
        -1
    } else if has_prefix(trim_spec(all[from]), prefix) {
        from
    } else {
        first_beginning(all, prefix, from + 1)
    }
}

/// The first line at or behind `from` that, trimmed, holds `pattern`; -1
/// where there is none.
pub open spec fn first_holding(all: Seq<Seq<char>>, pattern: Seq<char>, from: int) -> int
    decreases all.len() - from,
{
    if from < 0 || from >= all.len() {
        -1
    } else if has_infix(trim_spec(all[from]), pattern) {
        from
    } else {
        first_holding(all, pattern, from + 1)
    }
}

/// The first line that, trimmed, reads `marker`.
pub fn find_reading(all: &Vec<String>, marker: &str) -> (r: Option<usize>)
    ensures
        match r {
            Some(i) => i < all@.len() && first_reading(texts(all@), marker@, 0) == i,
            None => first_reading(texts(all@), marker@, 0) == -1,
        },
{
    let mut i: usize = 0;
    while i < all.len()
        invariant
            i <= all.len(),
            first_reading(texts(all@), marker@, 0) == first_reading(texts(all@), marker@, i as int),
        decreases all.len() - i,
    {
        assert(texts(all@)[i as int] == all@[i as int]@);
        let line = trim(all[i].as_str());
        if str_eq(line.as_str(), marker) {
            return Some(i);
        }
        i = i + 1;
    }
    None
}

/// The first line that, trimmed, begins with `prefix`.
pub fn find_beginning(all: &Vec<String>, prefix: &str) -> (r: Option<usize>)
    ensures
        match r {
            Some(i) => i < all@.len() && first_beginning(texts(all@), prefix@, 0) == i,
            None => first_beginning(texts(all@), prefix@, 0) == -1,
        },
{
    let mut i: usize = 0;
    while i < all.len()
        invariant
            i <= all.len(),
            first_beginning(texts(all@), prefix@, 0) == first_beginning(
                texts(all@),
                prefix@,
                i as int,
            ),
        decreases all.len() - i,
    {
        assert(texts(all@)[i as int] == all@[i as int]@);
        let line = trim(all[i].as_str());
        if starts_with(line.as_str(), prefix) {
            return Some(i);
        }
        i = i + 1;
    }
    None
}

/// The first line that, trimmed, holds `pattern`.
pub fn find_holding(all: &Vec<String>, pattern: &str) -> (r: Option<usize>)
    ensures
        match r {
            Some(i) => i < all@.len() && first_holding(texts(all@), pattern@, 0) == i,
            None => first_holding(texts(all@), pattern@, 0) == -1,
        },
{
    let mut i: usize = 0;
    while i < all.len()
        invariant
            i <= all.len(),
            first_holding(texts(all@), pattern@, 0) == first_holding(texts(all@), pattern@, i as int),
        decreases all.len() - i,
    {
        assert(texts(all@)[i as int] == all@[i as int]@);
        let line = trim(all[i].as_str());
        if contains_str(line.as_str(), pattern) {
            return Some(i);
        }
        i = i + 1;
    }
    None
}

/// The configuration that a project without one starts with.
pub const BASIC_JX_CONFIG: &'static str = "[project]\nname = \"my-java-project\"\ntype = \"maven\"\nversion = \"1.0.0\"\njava_version = \"11\"\n\n[build]\nmain_class = \"com.example.Main\"\ntest_class = \"com.example.MainTest\"\n\n[dependencies]\n";

/// The version of a coordinate, or `*` where it has none.
pub open spec fn version_or_any(dep: CoordinateModel) -> Seq<char> {
    match dep.version {
        Some(v) => v,
        None => "*"@,
    }
}

/// The line `group:artifact = "version"` that declares `dep` in a native
/// configuration.
pub open spec fn jx_line(dep: CoordinateModel) -> Seq<char> {
    dep.group_id + ":"@ + dep.artifact_id + " = \""@ + version_or_any(dep) + "\""@
}

/// The lines of a native configuration with `dep` declared: its line stands
/// right behind the first line `[dependencies]`, which is added at the end
/// where there is none.
pub open spec fn jx_added(all: Seq<Seq<char>>, dep: CoordinateModel) -> Seq<Seq<char>> {
    let at = first_reading(all, "[dependencies]"@, 0);
    if at >= 0 {
        all.insert(at + 1, jx_line(dep))
    } else {
        all.push("[dependencies]"@).push(jx_line(dep))
    }
}

/// The text of a native configuration with `dep` declared.
pub fn add_to_jx_config(content: &str, dep: &Coordinate) -> (r: String)
    ensures
        r@ == join_spec(jx_added(lines_spec(content@), dep@), '\n'),
{
    let mut all = lines(content);
    let ghost before = texts(all@);
    let mut line = dep.group_id.clone();
    line.append(":");
    line.append(dep.artifact_id.as_str());
    line.append(" = \"");
    match &dep.version {
        Some(v) => {
            line.append(v.as_str());
        },
        None => {
            line.append("*");
        },
    }
    line.append("\"");
    assert(line@ =~= jx_line(dep@));
    match find_reading(&all, "[dependencies]") {
        Some(at) => {
            assert(at < all.len());
            all.insert(at + 1, line);
            assert(texts(all@) =~= before.insert(at + 1, jx_line(dep@)));
        },
        None => {
            all.push(String::from_str("[dependencies]"));
            all.push(line);
            assert(texts(all@) =~= before.push("[dependencies]"@).push(jx_line(dep@)));
        },
    }
    join_lines(&all)
}

/// Where the search for the block of dependencies of a POM stands: whether
/// `<dependencies>` was met, and where the `</dependencies>` behind it is.
pub struct BlockSearch {
    pub inside: bool,
    pub done: bool,
    pub end: int,
}

/// The search after the first `n` lines.
pub open spec fn pom_block(all: Seq<Seq<char>>, n: int) -> BlockSearch
    decreases n,
{
    if n <= 0 {
        BlockSearch { inside: false, done: false, end: 0 }
    } else {
        let before = pom_block(all, n - 1);
        let line = trim_spec(all[n - 1]);
        if before.done {
            before
        } else if line == "<dependencies>"@ {
            BlockSearch { inside: true, ..before }
        } else if before.inside && line == "</dependencies>"@ {
            BlockSearch { done: true, end: n - 1, ..before }
        } else {
            before
        }
    }
}

/// The element that declares `dep` in a POM, in the scope `scope`.
pub open spec fn pom_element(dep: CoordinateModel, scope: Seq<char>) -> Seq<char> {
    "        <dependency>\n            <groupId>"@ + dep.group_id
        + "</groupId>\n            <artifactId>"@ + dep.artifact_id
        + "</artifactId>\n            <version>"@ + version_or_any(dep)
        + "</version>\n            <scope>"@ + scope + "</scope>\n        </dependency>"@
}

/// The lines of a POM with `dep` declared: its element stands before the
/// first `</dependencies>` that follows a `<dependencies>`, or before the
/// first line where no `</dependencies>` follows. A POM without
/// `<dependencies>` cannot take a dependency.
pub open spec fn maven_added(all: Seq<Seq<char>>, dep: CoordinateModel, scope: Seq<char>) -> Result<
    Seq<Seq<char>>,
    EditError,
> {
    let found = pom_block(all, all.len() as int);
    if found.inside {
        Ok(all.insert(found.end, pom_element(dep, scope)))
    } else {
        Err(EditError::NoDependenciesSection)
    }
}

/// The text of a POM with `dep` declared in the scope `scope`.
pub fn add_to_maven(content: &str, dep: &Coordinate, scope: &str) -> (r: Result<String, EditError>)
    ensures
        match r {
            Ok(text) => maven_added(lines_spec(content@), dep@, scope@) is Ok && text@ == join_spec(
                maven_added(lines_spec(content@), dep@, scope@)->Ok_0,
                '\n',
            ),
            Err(e) => maven_added(lines_spec(content@), dep@, scope@) == Err::<
                Seq<Seq<char>>,
                EditError,
            >(e),
        },
{
    let mut all = lines(content);
    let ghost before = texts(all@);
    let mut inside = false;
    let mut done = false;
    let mut end: usize = 0;
    let mut i: usize = 0;
    while i < all.len()
        invariant
            i <= all.len(),
            before == texts(all@),
            end <= i,
            end < all.len() || all.len() == 0,
            pom_block(before, i as int) == (BlockSearch { inside: inside, done: done, end: end as int }),
        decreases all.len() - i,
    {
        assert(before[i as int] == all@[i as int]@);
        let line = trim(all[i].as_str());
        if done {
        } else if str_eq(line.as_str(), "<dependencies>") {
            inside = true;
        } else if inside && str_eq(line.as_str(), "</dependencies>") {
            done = true;
            end = i;
        }
        i = i + 1;
    }
    if !inside {
        return Err(EditError::NoDependenciesSection);
    }
    let mut element = String::from_str("        <dependency>\n            <groupId>");
    element.append(dep.group_id.as_str());
    element.append("</groupId>\n            <artifactId>");
    element.append(dep.artifact_id.as_str());
    element.append("</artifactId>\n            <version>");
    match &dep.version {
        Some(v) => {
            element.append(v.as_str());
        },
        None => {
            element.append("*");
        },
    }
    element.append("</version>\n            <scope>");
    element.append(scope);
    element.append("</scope>\n        </dependency>");
    assert(element@ =~= pom_element(dep@, scope@));
    all.insert(end, element);
    assert(texts(all@) =~= before.insert(end as int, pom_element(dep@, scope@)));
    Ok(join_lines(&all))
}

/// The line that declares `dep` in a Gradle script, in the configuration
/// `scope`.
pub open spec fn gradle_line(dep: CoordinateModel, scope: Seq<char>) -> Seq<char> {
    match dep.version {
        Some(v) => "    "@ + scope + " '"@ + dep.group_id + ":"@ + dep.artifact_id + ":"@ + v + "'"@,
        None => "    "@ + scope + " '"@ + dep.group_id + ":"@ + dep.artifact_id + "'"@,
    }
}

/// The lines of a Gradle script with `dep` declared: its line stands right
/// behind the first line `dependencies {`. A script without that line
/// cannot take a dependency.
pub open spec fn gradle_added(all: Seq<Seq<char>>, dep: CoordinateModel, scope: Seq<char>) -> Result<
    Seq<Seq<char>>,
    EditError,
> {
    let at = first_reading(all, "dependencies {"@, 0);
    if at >= 0 {
        Ok(all.insert(at + 1, gradle_line(dep, scope)))
    } else {
        Err(EditError::NoDependenciesSection)
    }
}

/// The text of a Gradle script with `dep` declared in the configuration
/// `scope`.
pub fn add_to_gradle(content: &str, dep: &Coordinate, scope: &str) -> (r: Result<String, EditError>)
    ensures
        match r {
            Ok(text) => gradle_added(lines_spec(content@), dep@, scope@) is Ok && text@ == join_spec(
                gradle_added(lines_spec(content@), dep@, scope@)->Ok_0,
                '\n',
            ),
            Err(e) => gradle_added(lines_spec(content@), dep@, scope@) == Err::<
                Seq<Seq<char>>,
                EditError,
            >(e),
        },
{
    let mut all = lines(content);
    let ghost before = texts(all@);
    match find_reading(&all, "dependencies {") {
        Some(at) => {
            let mut line = String::from_str("    ");
            line.append(scope);
            line.append(" '");
            line.append(dep.group_id.as_str());
            line.append(":");
            line.append(dep.artifact_id.as_str());
            match &dep.version {
                Some(v) => {
                    line.append(":");
                    line.append(v.as_str());
                },
                None => {},
            }
            line.append("'");
            assert(line@ =~= gradle_line(dep@, scope@));
            assert(at < all.len());
            all.insert(at + 1, line);
            assert(texts(all@) =~= before.insert(at + 1, gradle_line(dep@, scope@)));
            Ok(join_lines(&all))
        },
        None => Err(EditError::NoDependenciesSection),
    }
}

/// `all` without the line at `at`, where `at` is the number of a line.
pub open spec fn without_line(all: Seq<Seq<char>>, at: int) -> Seq<Seq<char>> {
    if 0 <= at < all.len() {
        all.remove(at)
    } else {
        all
    }
}

/// The text of a native configuration without the first line that, trimmed,
/// begins with `group_id:artifact_id`, and whether there was such a line.
pub fn remove_from_jx_config(content: &str, group_id: &str, artifact_id: &str) -> (r: (String, bool))
    ensures
        r.0@ == join_spec(
            without_line(
                lines_spec(content@),
                first_beginning(lines_spec(content@), group_id@ + ":"@ + artifact_id@, 0),
            ),
            '\n',
        ),
        r.1 == (first_beginning(lines_spec(content@), group_id@ + ":"@ + artifact_id@, 0) >= 0),
{
    let mut all = lines(content);
    let ghost before = texts(all@);
    let mut prefix = String::from_str(group_id);
    prefix.append(":");
    prefix.append(artifact_id);
    match find_beginning(&all, prefix.as_str()) {
        Some(at) => {
            all.remove(at);
            assert(texts(all@) =~= before.remove(at as int));
            (join_lines(&all), true)
        },
        None => (join_lines(&all), false),
    }
}

/// The text of a Gradle script without the first line that holds
/// `'group_id:artifact_id`, and whether there was such a line.
pub fn remove_from_gradle(content: &str, group_id: &str, artifact_id: &str) -> (r: (String, bool))
    ensures
        r.0@ == join_spec(
            without_line(
                lines_spec(content@),
                first_holding(lines_spec(content@), "'"@ + group_id@ + ":"@ + artifact_id@, 0),
            ),
            '\n',
        ),
        r.1 == (first_holding(lines_spec(content@), "'"@ + group_id@ + ":"@ + artifact_id@, 0) >= 0),
{
    let mut all = lines(content);
    let ghost before = texts(all@);
    let mut pattern = String::from_str("'");
    pattern.append(group_id);
    pattern.append(":");
    pattern.append(artifact_id);
    match find_holding(&all, pattern.as_str()) {
        Some(at) => {
            all.remove(at);
            assert(texts(all@) =~= before.remove(at as int));
            (join_lines(&all), true)
        },
        None => (join_lines(&all), false),
    }
}

/// `all` with the line at `at` replaced by `line`, where `at` is the number
/// of a line.
pub open spec fn with_line(all: Seq<Seq<char>>, at: int, line: Seq<char>) -> Seq<Seq<char>> {
    if 0 <= at < all.len() {
        all.update(at, line)
    } else {
        all
    }
}

/// A line of a native configuration with its version set to `*`: the line,
/// trimmed, with `*"` put behind each ` = "`.
pub open spec fn any_version(line: Seq<char>) -> Seq<char> {
    replaced(trim_spec(line), " = \""@, " = \"*\""@)
}

/// The text of a native configuration in which the first line that,
/// trimmed, begins with `group_id:artifact_id` asks for any version, and
/// whether there was such a line.
pub fn update_jx_dependency(content: &str, group_id: &str, artifact_id: &str) -> (r: (String, bool))
    ensures
        ({
            let all = lines_spec(content@);
            let at = first_beginning(all, group_id@ + ":"@ + artifact_id@, 0);
            &&& r.1 == (at >= 0)
            &&& r.0@ == join_spec(
                with_line(
                    all,
                    at,
                    if at >= 0 {
                        any_version(all[at])
                    } else {
                        Seq::empty()
                    },
                ),
                '\n',
            )
        }),
{
    let mut all = lines(content);
    let ghost before = texts(all@);
    let mut prefix = String::from_str(group_id);
    prefix.append(":");
    prefix.append(artifact_id);
    match find_beginning(&all, prefix.as_str()) {
        Some(at) => {
            assert(before[at as int] == all@[at as int]@);
            let line = trim(all[at].as_str());
            let changed = replace_all(line.as_str(), " = \"", " = \"*\"");
            all[at] = changed;
            assert(texts(all@) =~= before.update(at as int, any_version(before[at as int])));
            (join_lines(&all), true)
        },
        None => (join_lines(&all), false),
    }
}

/// The first `n` lines of a native configuration with every version set to
/// `*`: each line that, trimmed, holds ` = "` and not ` = "*"` is replaced
/// by itself trimmed, with `*"` put behind each ` = "`.
pub open spec fn all_any_version(all: Seq<Seq<char>>, n: int) -> Seq<Seq<char>>
    decreases n,
{
    if n <= 0 {
        Seq::empty()
    } else {
        let line = trim_spec(all[n - 1]);
        all_any_version(all, n - 1).push(
            if has_infix(line, " = \""@) && !has_infix(line, " = \"*\""@) {
                any_version(all[n - 1])
            } else {
                all[n - 1]
            },
        )
    }
}

/// The text of a native configuration in which every dependency asks for
/// any version.
pub fn update_jx_config(content: &str) -> (r: String)
    ensures
        r@ == join_spec(all_any_version(lines_spec(content@), lines_spec(content@).len() as int), '\n'),
{
    let all = lines(content);
    let ghost before = texts(all@);
    let mut out: Vec<String> = Vec::new();
    let mut i: usize = 0;
    assert(texts(out@) =~= all_any_version(before, 0));
    while i < all.len()
        invariant
            i <= all.len(),
            before == texts(all@),
            texts(out@) == all_any_version(before, i as int),
        decreases all.len() - i,
    {
        let ghost sofar = texts(out@);
        assert(before[i as int] == all@[i as int]@);
        let line = trim(all[i].as_str());
        let changed = if contains_str(line.as_str(), " = \"") && !contains_str(line.as_str(), " = \"*\"") {
            replace_all(line.as_str(), " = \"", " = \"*\"")
        } else {
            all[i].clone()
        };
        out.push(changed);
        assert(texts(out@) =~= sofar.push(changed@));
        i = i + 1;
    }
    join_lines(&out)
}

/// The text of a Gradle script in which the first line that holds
/// `'group_id:artifact_id` is replaced by itself trimmed, with a plus sign
/// put behind each colon; and whether there was such a line.
pub fn update_gradle_dependency(content: &str, group_id: &str, artifact_id: &str) -> (r: (String, bool))
    ensures
        ({
            let all = lines_spec(content@);
            let at = first_holding(all, "'"@ + group_id@ + ":"@ + artifact_id@, 0);
            &&& r.1 == (at >= 0)
            &&& r.0@ == join_spec(
                with_line(
                    all,
                    at,
                    if at >= 0 {
                        replaced(trim_spec(all[at]), ":"@, ":+"@)
                    } else {
                        Seq::empty()
                    },
                ),
                '\n',
            )
        }),
{
    let mut all = lines(content);
    let ghost before = texts(all@);
    let mut pattern = String::from_str("'");
    pattern.append(group_id);
    pattern.append(":");
    pattern.append(artifact_id);
    match find_holding(&all, pattern.as_str()) {
        Some(at) => {
            assert(before[at as int] == all@[at as int]@);
            let line = trim(all[at].as_str());
            let changed = replace_all(line.as_str(), ":", ":+");
            all[at] = changed;
            assert(texts(all@) =~= before.update(
                at as int,
                replaced(trim_spec(before[at as int]), ":"@, ":+"@),
            ));
            (join_lines(&all), true)
        },
        None => (join_lines(&all), false),
    }
}

/// Whether some line from `from` to `to`, both counted in, holds `pattern`.
pub open spec fn some_holds(all: Seq<Seq<char>>, from: int, to: int, pattern: Seq<char>) -> bool {
    exists|l: int| from <= l <= to && 0 <= l < all.len() && has_infix(#[trigger] all[l], pattern)
}

/// Whether the lines from `from` to `to` declare the artifact: one of them
/// holds its group in `groupId` tags and one its name in `artifactId` tags.
pub open spec fn block_names(
    all: Seq<Seq<char>>,
    from: int,
    to: int,
    group: Seq<char>,
    artifact: Seq<char>,
) -> bool {
    &&& some_holds(all, from, to, "<groupId>"@ + group + "</groupId>"@)
    &&& some_holds(all, from, to, "<artifactId>"@ + artifact + "</artifactId>"@)
}

/// Where the search for the element of a dependency in a POM stands.
pub struct ElementSearch {
    /// Whether a `<dependency>` is open.
    pub inside: bool,
    /// The line of the `<dependency>` that was met last.
    pub start: int,
    /// The first and the last line of the element, once it is found.
    pub found: Option<(int, int)>,
}

/// The search after the first `n` lines: the element that is looked for is
/// the first that runs from a line `<dependency>` to the next line
/// `</dependency>` and declares the artifact.
pub open spec fn pom_element_search(all: Seq<Seq<char>>, group: Seq<char>, artifact: Seq<char>, n: int) -> ElementSearch
    decreases n,
{
    if n <= 0 {
        ElementSearch { inside: false, start: 0, found: None }
    } else {
        let before = pom_element_search(all, group, artifact, n - 1);
        let line = trim_spec(all[n - 1]);
        if before.found is Some {
            before
        } else if line == "<dependency>"@ {
            ElementSearch { inside: true, start: n - 1, ..before }
        } else if before.inside && line == "</dependency>"@ {
            if block_names(all, before.start, n - 1, group, artifact) {
                ElementSearch { found: Some((before.start, n - 1)), ..before }
            } else {
                ElementSearch { inside: false, ..before }
            }
        } else {
            before
        }
    }
}

/// Whether some line from `from` to `to` holds `pattern`.
pub fn any_holds(all: &Vec<String>, from: usize, to: usize, pattern: &str) -> (r: bool)
    requires
        from <= to < all@.len(),
    ensures
        r == some_holds(texts(all@), from as int, to as int, pattern@),
{
    let mut l: usize = from;
    while l <= to
        invariant
            from <= l <= to + 1,
            to < all.len(),
            forall|m: int| from <= m < l ==> !has_infix(#[trigger] texts(all@)[m], pattern@),
        decreases to + 1 - l,
    {
        assert(texts(all@)[l as int] == all@[l as int]@);
        if contains_str(all[l].as_str(), pattern) {
            return true;
        }
        l = l + 1;
    }
    false
}

/// The element of the dependency on `group_id:artifact_id` in the lines of
/// a POM: its first and its last line.
pub fn find_pom_element(all: &Vec<String>, group_id: &str, artifact_id: &str) -> (r: Option<
    (usize, usize),
>)
    ensures
        match r {
            Some((start, end)) => start <= end < all@.len() && pom_element_search(
                texts(all@),
                group_id@,
                artifact_id@,
                all@.len() as int,
            ).found == Some((start as int, end as int)),
            None => pom_element_search(texts(all@), group_id@, artifact_id@, all@.len() as int).found
                is None,
        },
{
    let mut group_tag = String::from_str("<groupId>");
    group_tag.append(group_id);
    group_tag.append("</groupId>");
    let mut artifact_tag = String::from_str("<artifactId>");
    artifact_tag.append(artifact_id);
    artifact_tag.append("</artifactId>");
    let ghost before = texts(all@);
    let mut inside = false;
    let mut start: usize = 0;
    let mut i: usize = 0;
    while i < all.len()
        invariant
            i <= all.len(),
            before == texts(all@),
            start <= i,
            inside ==> start < i,
            group_tag@ == "<groupId>"@ + group_id@ + "</groupId>"@,
            artifact_tag@ == "<artifactId>"@ + artifact_id@ + "</artifactId>"@,
            pom_element_search(before, group_id@, artifact_id@, i as int) == (ElementSearch {
                inside: inside,
                start: start as int,
                found: None,
            }),
        decreases all.len() - i,
    {
        assert(before[i as int] == all@[i as int]@);
        let line = trim(all[i].as_str());
        if str_eq(line.as_str(), "<dependency>") {
            inside = true;
            start = i;
        } else if inside && str_eq(line.as_str(), "</dependency>") {
            if any_holds(all, start, i, group_tag.as_str()) && any_holds(
                all,
                start,
                i,
                artifact_tag.as_str(),
            ) {
                proof {
                    lemma_search_found(before, group_id@, artifact_id@, i + 1, all@.len() as int);
                }
                return Some((start, i));
            }
            inside = false;
        }
        i = i + 1;
    }
    None
}

/// Once the element is found, the search stays where it is.
pub proof fn lemma_search_found(
    all: Seq<Seq<char>>,
    group: Seq<char>,
    artifact: Seq<char>,
    n: int,
    m: int,
)
    requires
        0 <= n <= m,
        pom_element_search(all, group, artifact, n).found is Some,
    ensures
        pom_element_search(all, group, artifact, m) == pom_element_search(all, group, artifact, n),
    decreases m - n,
{
    if n < m {
        lemma_search_found(all, group, artifact, n, m - 1);
    }
}

/// The lines without those from `start` to `end`, both counted in.
pub open spec fn without_lines(all: Seq<Seq<char>>, start: int, end: int) -> Seq<Seq<char>> {
    all.take(start) + all.skip(end + 1)
}

/// A copy of the lines from `from` on, put behind `out`.
fn push_lines(out: &mut Vec<String>, all: &Vec<String>, from: usize, to: usize)
    requires
        from <= to <= all@.len(),
    ensures
        texts(final(out)@) == texts(old(out)@) + texts(all@).subrange(from as int, to as int),
{
    let ghost start = texts(out@);
    let mut i: usize = from;
    assert(texts(out@) =~= start + texts(all@).subrange(from as int, from as int));
    while i < to
        invariant
            from <= i <= to <= all@.len(),
            texts(out@) == start + texts(all@).subrange(from as int, i as int),
        decreases to - i,
    {
        let ghost sofar = texts(out@);
        out.push(all[i].clone());
        assert(texts(out@) =~= sofar.push(all@[i as int]@));
        i = i + 1;
        assert(texts(all@).subrange(from as int, i as int) =~= texts(all@).subrange(
            from as int,
            i - 1,
        ).push(all@[i - 1]@));
    }
}

/// The text of a POM without the element of the dependency on
/// `group_id:artifact_id`, and whether there was such an element.
pub fn remove_from_maven(content: &str, group_id: &str, artifact_id: &str) -> (r: (String, bool))
    ensures
        ({
            let all = lines_spec(content@);
            let found = pom_element_search(all, group_id@, artifact_id@, all.len() as int).found;
            &&& r.1 == (found is Some)
            &&& r.0@ == join_spec(
                match found {
                    Some((start, end)) => without_lines(all, start, end),
                    None => all,
                },
                '\n',
            )
        }),
{
    let all = lines(content);
    match find_pom_element(&all, group_id, artifact_id) {
        Some((start, end)) => {
            let mut kept: Vec<String> = Vec::new();
            assert(texts(kept@) =~= Seq::<Seq<char>>::empty());
            assert(end < all.len());
            push_lines(&mut kept, &all, 0, start);
            push_lines(&mut kept, &all, end + 1, all.len());
            proof {
                let before = texts(all@);
                assert(before.subrange(0, start as int) =~= before.take(start as int));
                assert(before.subrange(end + 1, all@.len() as int) =~= before.skip(end + 1));
                assert(texts(kept@) =~= without_lines(before, start as int, end as int));
            }
            (join_lines(&kept), true)
        },
        None => (join_lines(&all), false),
    }
}

/// The first line from `from` to `to` that, trimmed, begins with
/// `<version>`; -1 where there is none.
pub open spec fn version_line(all: Seq<Seq<char>>, from: int, to: int) -> int
    decreases to + 1 - from,
{
    if from > to || from < 0 || from >= all.len() {
        -1
    } else if has_prefix(trim_spec(all[from]), "<version>"@) {
        from
    } else {
        version_line(all, from + 1, to)
    }
}

/// The text of a POM in which the dependency on `group_id:artifact_id` asks
/// for any version: the first line of its element that begins with
/// `<version>` is replaced by a line with the version `*`. The flag says
/// whether a line was replaced.
pub fn update_maven_dependency(content: &str, group_id: &str, artifact_id: &str) -> (r: (String, bool))
    ensures
        ({
            let all = lines_spec(content@);
            let found = pom_element_search(all, group_id@, artifact_id@, all.len() as int).found;
            let at = match found {
                Some((start, end)) => version_line(all, start, end),
                None => -1,
            };
            &&& r.1 == (at >= 0)
            &&& r.0@ == join_spec(with_line(all, at, "            <version>*</version>"@), '\n')
        }),
{
    let mut all = lines(content);
    let ghost before = texts(all@);
    match find_pom_element(&all, group_id, artifact_id) {
        Some((start, end)) => {
            let mut k: usize = start;
            assert(end < all.len());
            while k <= end
                invariant
                    start <= k <= end + 1,
                    end < all.len(),
                    before == texts(all@),
                    before == lines_spec(content@),
                    pom_element_search(before, group_id@, artifact_id@, before.len() as int).found
                        == Some((start as int, end as int)),
                    version_line(before, start as int, end as int) == version_line(
                        before,
                        k as int,
                        end as int,
                    ),
                decreases end + 1 - k,
            {
                assert(before[k as int] == all@[k as int]@);
                let line = trim(all[k].as_str());
                if starts_with(line.as_str(), "<version>") {
                    all[k] = String::from_str("            <version>*</version>");
                    assert(texts(all@) =~= before.update(k as int, "            <version>*</version>"@));
                    return (join_lines(&all), true);
                }
                k = k + 1;
            }
            (join_lines(&all), false)
        },
        None => (join_lines(&all), false),
    }
}

} // verus!
