//! Looking for artifacts: in the names of jar files, and in a list of
//! well-known artifacts that stands in when the central index cannot be
//! asked.

use crate::adapter::{ConfigDependency, ConfigDependencyModel};
use crate::text::{
    char_len, contains_str, decimal, decimal_spec, ends_with, has_infix, has_suffix, join_fields,
    join_spec, lines, lines_spec, optional_text, slice, split_on, split_spec, texts,
};
use vstd::prelude::*;

verus! {

/// An artifact that a search has found.
#[derive(Debug)]
pub struct DependencyResult {
    pub group_id: String,
    pub artifact_id: String,
    pub version: String,
    pub description: Option<String>,
    /// Where the artifact was found.
    pub source: String,
}

/// What a [`DependencyResult`] stands for.
pub struct DependencyResultModel {
    pub group_id: Seq<char>,
    pub artifact_id: Seq<char>,
    pub version: Seq<char>,
    pub description: Option<Seq<char>>,
    pub source: Seq<char>,
}

impl View for DependencyResult {
    type V = DependencyResultModel;

    open spec fn view(&self) -> DependencyResultModel {
        DependencyResultModel {
            group_id: self.group_id@,
            artifact_id: self.artifact_id@,
            version: self.version@,
            description: optional_text(self.description),
            source: self.source@,
        }
    }
}

impl DeepView for DependencyResult {
    type V = DependencyResultModel;

    open spec fn deep_view(&self) -> DependencyResultModel {
        self@
    }
}

/// What the name of a jar file says of the artifact in it.
#[derive(Debug)]
pub struct JarDependencyInfo {
    pub group_id: String,
    pub artifact_id: String,
    pub version: String,
}

/// What a [`JarDependencyInfo`] stands for.
pub struct JarDependencyModel {
    pub group_id: Seq<char>,
    pub artifact_id: Seq<char>,
    pub version: Seq<char>,
}

impl View for JarDependencyInfo {
    type V = JarDependencyModel;

    open spec fn view(&self) -> JarDependencyModel {
        JarDependencyModel {
            group_id: self.group_id@,
            artifact_id: self.artifact_id@,
            version: self.version@,
        }
    }
}

/// What the name of a jar file says: the name without `.jar` is parted at
/// its hyphens; the last part is the version, the part before it the
/// artifact, and where there are more parts, those before, joined by dots,
/// are the group. A name of fewer than two parts says nothing.
pub open spec fn jar_filename_spec(filename: Seq<char>) -> Option<JarDependencyModel> {
    if has_suffix(filename, ".jar"@) {
        let parts = split_spec(filename.subrange(0, filename.len() - 4), '-');
        if parts.len() >= 2 {
            Some(
                JarDependencyModel {
                    group_id: if parts.len() > 2 {
                        join_spec(parts.take(parts.len() - 2), '.')
                    } else {
                        "unknown"@
                    },
                    artifact_id: parts[parts.len() - 2],
                    version: parts[parts.len() - 1],
                },
            )
        } else {
            None
        }
    } else {
        None
    }
}

/// Reads the name of a jar file.
pub fn parse_jar_filename(filename: &str) -> (r: Option<JarDependencyInfo>)
    ensures
        match r {
            Some(info) => jar_filename_spec(filename@) == Some(info@),
            None => jar_filename_spec(filename@) is None,
        },
{
    proof {
        reveal_strlit(".jar");
        reveal_strlit(".");
    }
    if !ends_with(filename, ".jar") {
        return None;
    }
    let n = char_len(filename);
    let stem = slice(filename, 0, n - 4);
    let parts = split_on(stem.as_str(), '-');
    assert(forall|i: int| 0 <= i < parts@.len() ==> parts@[i]@ == texts(parts@)[i]);
    if parts.len() < 2 {
        return None;
    }
    let group_id = if parts.len() > 2 {
        assert("."@ =~= seq!['.']);
        join_fields(&parts, parts.len() - 2, '.', ".")
    } else {
        String::from_str("unknown")
    };
    Some(
        JarDependencyInfo {
            group_id,
            artifact_id: parts[parts.len() - 2].clone(),
            version: parts[parts.len() - 1].clone(),
        },
    )
}

/// `text` in lower case.
pub uninterp spec fn lowercased(text: Seq<char>) -> Seq<char>;

/// `str::to_lowercase`: the text with each character in its lower case.
#[verifier::external_body]
fn lowercase(text: &str) -> (r: String)
    ensures
        r@ == lowercased(text@),
{
    text.to_lowercase()
}

/// `text` with every byte but letters, digits, `-`, `_`, `.` and `~`
/// written as a percent sign and two hexadecimal digits.
pub uninterp spec fn percent_encoded(text: Seq<char>) -> Seq<char>;

/// `urlencoding::encode`: percent-encodes a text for use in an address.
#[verifier::external_body]
fn percent_encode(text: &str) -> (r: String)
    ensures
        r@ == percent_encoded(text@),
{
    urlencoding::encode(text).into_owned()
}

/// The address that asks the central index for `query`, for `limit` results
/// at most.
pub fn search_url(query: &str, limit: usize) -> (r: String)
    ensures
        r@ == "https://search.maven.org/solrsearch/select?q="@ + percent_encoded(query@) + "&rows="@
            + decimal_spec(limit as nat) + "&wt=json"@,
{
    let mut url = String::from_str("https://search.maven.org/solrsearch/select?q=");
    let encoded = percent_encode(query);
    url.append(encoded.as_str());
    url.append("&rows=");
    let rows = decimal(limit);
    url.append(rows.as_str());
    url.append("&wt=json");
    url
}

/// Well-known artifacts, one to a line: group, artifact, version and a few
/// words on it, parted by colons.
pub const KNOWN_ARTIFACTS: &'static str = "\
org.springframework:spring-core:5.3.0:Spring Framework核心模块
org.springframework:spring-web:5.3.0:Spring Web模块
org.springframework:spring-boot-starter:2.7.0:Spring Boot启动器
org.springframework:spring-context:5.3.0:Spring上下文模块
org.springframework:spring-beans:5.3.0:Spring Beans模块
com.fasterxml.jackson.core:jackson-databind:2.13.0:Jackson数据绑定
com.fasterxml.jackson.core:jackson-core:2.13.0:Jackson核心模块
org.apache.commons:commons-lang3:3.12.0:Apache Commons Lang3
org.apache.commons:commons-io:2.11.0:Apache Commons IO
junit:junit:4.13.2:JUnit测试框架
org.mockito:mockito-core:4.5.1:Mockito模拟框架
org.mockito:mockito-junit-jupiter:4.5.1:Mockito JUnit5支持
org.slf4j:slf4j-api:1.7.36:SLF4J日志门面
ch.qos.logback:logback-classic:1.2.11:Logback经典模块
org.hibernate:hibernate-core:5.6.0:Hibernate核心模块
mysql:mysql-connector-java:8.0.27:MySQL连接器
org.postgresql:postgresql:42.3.1:PostgreSQL连接器
org.mongodb:mongodb-driver-sync:4.4.0:MongoDB同步驱动
org.elasticsearch.client:elasticsearch-rest-high-level-client:7.17.0:Elasticsearch高级客户端
org.apache.kafka:kafka-clients:3.0.0:Kafka客户端
org.apache.spark:spark-core_2.12:3.2.0:Spark核心模块
";

/// Whether the artifact on `line` answers the query: the group or the
/// artifact holds the query, both taken in lower case.
pub open spec fn answers(line: Seq<char>, query: Seq<char>) -> bool {
    let fields = split_spec(line, ':');
    fields.len() == 4 && (has_infix(lowercased(fields[0]), lowercased(query)) || has_infix(
        lowercased(fields[1]),
        lowercased(query),
    ))
}

/// The artifact on `line` as a result of the stand-in search.
pub open spec fn known_result(line: Seq<char>) -> DependencyResultModel {
    let fields = split_spec(line, ':');
    DependencyResultModel {
        group_id: fields[0],
        artifact_id: fields[1],
        version: fields[2],
        description: Some(fields[3]),
        source: "maven-central-fallback"@,
    }
}

/// The results among the first `n` lines that answer the query, `limit` of
/// them at most.
pub open spec fn known_matches(lines: Seq<Seq<char>>, query: Seq<char>, limit: nat, n: int) -> Seq<
    DependencyResultModel,
>
    decreases n,
{
    if n <= 0 {
        Seq::empty()
    } else {
        let init = known_matches(lines, query, limit, n - 1);
        if init.len() < limit && answers(lines[n - 1], query) {
            init.push(known_result(lines[n - 1]))
        } else {
            init
        }
    }
}

/// The well-known artifacts whose group or artifact holds `query`, without
/// regard to case: the first `limit` of them at most, in the order of the
/// list.
pub fn search_maven_central_fallback(query: &str, limit: usize) -> (r: Vec<DependencyResult>)
    ensures
        r.deep_view() == known_matches(
            lines_spec(KNOWN_ARTIFACTS@),
            query@,
            limit as nat,
            lines_spec(KNOWN_ARTIFACTS@).len() as int,
        ),
{
    let all = lines(KNOWN_ARTIFACTS);
    let ghost spec_lines = texts(all@);
    let wanted = lowercase(query);
    let mut results: Vec<DependencyResult> = Vec::new();
    let mut i: usize = 0;
    assert(results.deep_view() =~= Seq::empty());
    while i < all.len()
        invariant
            i <= all.len(),
            spec_lines == texts(all@),
            wanted@ == lowercased(query@),
            results.deep_view() == known_matches(spec_lines, query@, limit as nat, i as int),
        decreases all.len() - i,
    {
        assert(spec_lines[i as int] == all@[i as int]@);
        let ghost sofar = results.deep_view();
        if results.len() < limit {
            let fields = split_on(all[i].as_str(), ':');
            assert(forall|k: int| 0 <= k < fields@.len() ==> fields@[k]@ == texts(fields@)[k]);
            if fields.len() == 4 {
                let group = lowercase(fields[0].as_str());
                let artifact = lowercase(fields[1].as_str());
                if contains_str(group.as_str(), wanted.as_str()) || contains_str(
                    artifact.as_str(),
                    wanted.as_str(),
                ) {
                    let found = DependencyResult {
                        group_id: fields[0].clone(),
                        artifact_id: fields[1].clone(),
                        version: fields[2].clone(),
                        description: Some(fields[3].clone()),
                        source: String::from_str("maven-central-fallback"),
                    };
                    results.push(found);
                    assert(results.deep_view() =~= sofar.push(found@));
                }
            }
        }
        i = i + 1;
    }
    results
}

/// Whether `text` holds `query`, both taken in lower case.
pub open spec fn holds_query(text: Seq<char>, query: Seq<char>) -> bool {
    has_infix(lowercased(text), lowercased(query))
}

/// Whether `text` holds `query`, without regard to case.
pub fn matches_query(text: &str, query: &str) -> (r: bool)
    ensures
        r == holds_query(text@, query@),
{
    let low = lowercase(text);
    let wanted = lowercase(query);
    contains_str(low.as_str(), wanted.as_str())
}

/// The declared dependency as a result of a search in the file `source`.
pub open spec fn declared_result(
    dep: ConfigDependencyModel,
    description: Seq<char>,
    source: Seq<char>,
) -> DependencyResultModel {
    DependencyResultModel {
        group_id: dep.group_id,
        artifact_id: dep.artifact_id,
        version: dep.version,
        description: Some(description),
        source: source,
    }
}

/// The results for those of the first `n` declared dependencies whose group
/// or artifact holds the query.
pub open spec fn declared_matches(
    declared: Seq<ConfigDependencyModel>,
    query: Seq<char>,
    description: Seq<char>,
    source: Seq<char>,
    n: int,
) -> Seq<DependencyResultModel>
    decreases n,
{
    if n <= 0 {
        Seq::empty()
    } else {
        let init = declared_matches(declared, query, description, source, n - 1);
        let dep = declared[n - 1];
        if holds_query(dep.group_id, query) || holds_query(dep.artifact_id, query) {
            init.push(declared_result(dep, description, source))
        } else {
            init
        }
    }
}

/// The declared dependencies whose group or artifact holds `query`,
/// without regard to case, as results of a search in the file `source`.
pub fn search_declared(declared: &Vec<ConfigDependency>, query: &str, description: &str, source: &str) -> (r:
    Vec<DependencyResult>)
    ensures
        r.deep_view() == declared_matches(
            declared.deep_view(),
            query@,
            description@,
            source@,
            declared@.len() as int,
        ),
{
    let mut results: Vec<DependencyResult> = Vec::new();
    let mut i: usize = 0;
    assert(results.deep_view() =~= Seq::empty());
    while i < declared.len()
        invariant
            i <= declared.len(),
            results.deep_view() == declared_matches(
                declared.deep_view(),
                query@,
                description@,
                source@,
                i as int,
            ),
        decreases declared.len() - i,
    {
        let ghost sofar = results.deep_view();
        let dep = &declared[i];
        assert(declared.deep_view()[i as int] == dep@);
        if matches_query(dep.group_id.as_str(), query) || matches_query(dep.artifact_id.as_str(), query) {
            let found = DependencyResult {
                group_id: dep.group_id.clone(),
                artifact_id: dep.artifact_id.clone(),
                version: dep.version.clone(),
                description: Some(String::from_str(description)),
                source: String::from_str(source),
            };
            results.push(found);
            assert(results.deep_view() =~= sofar.push(found@));
        }
        i = i + 1;
    }
    results
}

/// The outside type `serde_json::Value`: a JSON value.
#[verifier::external_type_specification]
#[verifier::external_body]
pub struct ExJsonValue(serde_json::Value);

/// The outside type `serde_json::Error`: why a text is no JSON document.
#[verifier::external_type_specification]
#[verifier::external_body]
pub struct ExJsonError(serde_json::Error);

/// What a value holds as strings, each under the path of keys that leads to
/// it.
pub type Strings = Map<Seq<Seq<char>>, Seq<char>>;

/// What a value holds as arrays, each under the path of keys that leads to
/// it, and each as the list of what its elements hold as strings.
pub type Lists = Map<Seq<Seq<char>>, Seq<Strings>>;

/// What the JSON document `text` holds, as far as a search reads it: its
/// strings and its arrays. `None` where `text` is no JSON document.
pub uninterp spec fn json_document(text: Seq<char>) -> Option<(Strings, Lists)>;

/// The string values in `value`, each under the path of keys that leads to
/// it through objects. A string by itself is under the empty path.
pub uninterp spec fn json_strings(value: serde_json::Value) -> Strings;

/// The arrays in `value`, each under the path of keys that leads to it
/// through objects, and each as the list of the strings of its elements. An
/// array by itself is under the empty path.
pub uninterp spec fn json_lists(value: serde_json::Value) -> Lists;

/// `serde_json::from_str::<serde_json::Value>`: parses a JSON document. The
/// value that comes back holds what the text holds; a text that is no JSON
/// document gives the error.
#[verifier::external_body]
fn parse_json(text: &str) -> (r: Result<serde_json::Value, serde_json::Error>)
    ensures
        match r {
            Ok(value) => json_document(text@) == Some((json_strings(value), json_lists(value))),
            Err(_) => json_document(text@) is None,
        },
{
    serde_json::from_str::<serde_json::Value>(text)
}

/// `serde_json::Value::get` with a string index: the value under `key`
/// where `value` is an object that has the key, else `None`. The strings
/// and arrays of the value that comes back are those that `value` holds
/// under paths that begin with `key`.
#[verifier::external_body]
fn json_get<'a>(value: &'a serde_json::Value, key: &str) -> (r: Option<&'a serde_json::Value>)
    ensures
        match r {
            Some(child) => {
                &&& forall|path: Seq<Seq<char>>|
                    (#[trigger] json_strings(*child).dom().contains(path)) == json_strings(
                        *value,
                    ).dom().contains(seq![key@] + path)
                &&& forall|path: Seq<Seq<char>>|
                    json_strings(*child).dom().contains(path) ==> (#[trigger] json_strings(
                        *child,
                    )[path]) == json_strings(*value)[seq![key@] + path]
                &&& forall|path: Seq<Seq<char>>|
                    (#[trigger] json_lists(*child).dom().contains(path)) == json_lists(
                        *value,
                    ).dom().contains(seq![key@] + path)
                &&& forall|path: Seq<Seq<char>>|
                    json_lists(*child).dom().contains(path) ==> (#[trigger] json_lists(*child)[path])
                        == json_lists(*value)[seq![key@] + path]
            },
            None => {
                &&& forall|path: Seq<Seq<char>>|
                    path.len() > 0 && path[0] == key@ ==> !(#[trigger] json_strings(
                        *value,
                    ).dom().contains(path))
                &&& forall|path: Seq<Seq<char>>|
                    path.len() > 0 && path[0] == key@ ==> !(#[trigger] json_lists(
                        *value,
                    ).dom().contains(path))
            },
        },
{
    value.get(key)
}

/// `serde_json::Value::as_array`: the elements of `value` where it is an
/// array, else `None`.
#[verifier::external_body]
fn json_as_array<'a>(value: &'a serde_json::Value) -> (r: Option<&'a Vec<serde_json::Value>>)
    ensures
        match r {
            Some(items) => json_lists(*value).dom().contains(Seq::empty()) && json_lists(
                *value,
            )[Seq::empty()] == Seq::new(items@.len(), |i: int| json_strings(items@[i])),
            None => !json_lists(*value).dom().contains(Seq::empty()),
        },
{
    value.as_array()
}

/// `serde_json::Value::as_str`: the text of `value` where it is a string,
/// else `None`.
#[verifier::external_body]
fn json_as_str<'a>(value: &'a serde_json::Value) -> (r: Option<&'a str>)
    ensures
        match r {
            Some(s) => json_strings(*value).dom().contains(Seq::empty()) && json_strings(
                *value,
            )[Seq::empty()] == s@,
            None => !json_strings(*value).dom().contains(Seq::empty()),
        },
{
    value.as_str()
}

/// The string under `key`, where there is one.
pub open spec fn field(strings: Strings, key: Seq<char>) -> Option<Seq<char>> {
    if strings.dom().contains(seq![key]) {
        Some(strings[seq![key]])
    } else {
        None
    }
}

/// The string that `value` holds under `key`.
fn json_text(value: &serde_json::Value, key: &str) -> (r: Option<String>)
    ensures
        optional_text(r) == field(json_strings(*value), key@),
{
    let ghost path = seq![key@];
    let ghost none = Seq::<Seq<char>>::empty();
    proof {
        assert(seq![key@] + none =~= path);
    }
    match json_get(value, key) {
        Some(entry) => {
            assert(json_strings(*entry).dom().contains(none) == json_strings(*value).dom().contains(
                path,
            ));
            match json_as_str(entry) {
                Some(s) => {
                    assert(json_strings(*entry)[none] == json_strings(*value)[path]);
                    Some(String::from_str(s))
                },
                None => None,
            }
        },
        None => {
            assert(!json_strings(*value).dom().contains(path));
            None
        },
    }
}

/// The result that one entry of the answer of the central index gives: its
/// group under `g`, its artifact under `a`, its version under `v` and, where
/// there is one, its description. An entry without one of the three gives
/// none.
pub open spec fn entry_result(strings: Strings) -> Option<DependencyResultModel> {
    match (field(strings, "g"@), field(strings, "a"@), field(strings, "v"@)) {
        (Some(g), Some(a), Some(v)) => Some(
            DependencyResultModel {
                group_id: g,
                artifact_id: a,
                version: v,
                description: field(strings, "description"@),
                source: "maven-central"@,
            },
        ),
        _ => None,
    }
}

/// The results that the first `n` entries give.
pub open spec fn entry_results(entries: Seq<Strings>, n: int) -> Seq<DependencyResultModel>
    decreases n,
{
    if n <= 0 {
        Seq::empty()
    } else {
        let init = entry_results(entries, n - 1);
        match entry_result(entries[n - 1]) {
            Some(found) => init.push(found),
            None => init,
        }
    }
}

/// The results that the answer of the central index gives: those of the
/// entries of the array under `response.docs`; none where there is no such
/// array.
pub open spec fn answer_results(lists: Lists) -> Seq<DependencyResultModel> {
    if lists.dom().contains(seq!["response"@, "docs"@]) {
        let entries = lists[seq!["response"@, "docs"@]];
        entry_results(entries, entries.len() as int)
    } else {
        Seq::empty()
    }
}

/// The result that one entry of the answer gives.
fn read_entry(entry: &serde_json::Value) -> (r: Option<DependencyResult>)
    ensures
        match r {
            Some(found) => entry_result(json_strings(*entry)) == Some(found@),
            None => entry_result(json_strings(*entry)) is None,
        },
{
    let group_id = json_text(entry, "g");
    let artifact_id = json_text(entry, "a");
    let version = json_text(entry, "v");
    match (group_id, artifact_id, version) {
        (Some(group_id), Some(artifact_id), Some(version)) => {
            let description = json_text(entry, "description");
            Some(
                DependencyResult {
                    group_id,
                    artifact_id,
                    version,
                    description,
                    source: String::from_str("maven-central"),
                },
            )
        },
        _ => None,
    }
}

/// The results that a parsed answer of the central index gives.
pub fn read_central_docs(answer: &serde_json::Value) -> (r: Vec<DependencyResult>)
    ensures
        r.deep_view() == answer_results(json_lists(*answer)),
{
    let ghost path = seq!["response"@, "docs"@];
    let ghost tail = seq!["docs"@];
    let ghost none = Seq::<Seq<char>>::empty();
    proof {
        assert(seq!["response"@] + tail =~= path);
        assert(seq!["docs"@] + none =~= tail);
    }
    let mut results: Vec<DependencyResult> = Vec::new();
    assert(results.deep_view() =~= Seq::empty());
    let response = match json_get(answer, "response") {
        Some(response) => response,
        None => {
            assert(!json_lists(*answer).dom().contains(path));
            return results;
        },
    };
    assert(json_lists(*response).dom().contains(tail) == json_lists(*answer).dom().contains(path));
    let docs = match json_get(response, "docs") {
        Some(docs) => docs,
        None => {
            assert(!json_lists(*response).dom().contains(tail));
            return results;
        },
    };
    assert(json_lists(*docs).dom().contains(none) == json_lists(*response).dom().contains(tail));
    let items = match json_as_array(docs) {
        Some(items) => items,
        None => {
            return results;
        },
    };
    let ghost entries = json_lists(*answer)[path];
    proof {
        assert(json_lists(*docs)[none] == json_lists(*response)[tail]);
        assert(json_lists(*response)[tail] == json_lists(*answer)[path]);
        assert(entries.len() == items@.len());
    }
    let mut i: usize = 0;
    while i < items.len()
        invariant
            i <= items.len(),
            entries.len() == items@.len(),
            forall|k: int| 0 <= k < entries.len() ==> entries[k] == json_strings(#[trigger] items@[k]),
            results.deep_view() == entry_results(entries, i as int),
        decreases items.len() - i,
    {
        let ghost sofar = results.deep_view();
        assert(entries[i as int] == json_strings(items@[i as int]));
        match read_entry(&items[i]) {
            Some(found) => {
                results.push(found);
                assert(results.deep_view() =~= sofar.push(found@));
            },
            None => {},
        }
        i = i + 1;
    }
    results
}

/// What a search of the central index comes to, given the text of its
/// answer: the results that the answer gives, or, where the answer is no
/// JSON document or gives none, the well-known artifacts that answer the
/// query.
pub open spec fn central_search_spec(answer: Seq<char>, query: Seq<char>, limit: nat) -> Seq<
    DependencyResultModel,
> {
    let read = match json_document(answer) {
        Some((strings, lists)) => answer_results(lists),
        None => Seq::empty(),
    };
    if read.len() > 0 {
        read
    } else {
        known_matches(
            lines_spec(KNOWN_ARTIFACTS@),
            query,
            limit,
            lines_spec(KNOWN_ARTIFACTS@).len() as int,
        )
    }
}

/// What a search of the central index for `query` comes to, given the text
/// of its answer.
pub fn read_central_answer(answer: &str, query: &str, limit: usize) -> (r: Vec<DependencyResult>)
    ensures
        r.deep_view() == central_search_spec(answer@, query@, limit as nat),
{
    let results = match parse_json(answer) {
        Ok(value) => read_central_docs(&value),
        Err(_) => {
            let none: Vec<DependencyResult> = Vec::new();
            assert(none.deep_view() =~= Seq::empty());
            none
        },
    };
    if results.len() > 0 {
        results
    } else {
        search_maven_central_fallback(query, limit)
    }
}

} // verus!
