//! The metadata source: what each coordinate directly requires.
//!
//! The resolver asks a [`MetadataSource`] once per coordinate that it
//! expands. A source answers from a table: [`MetadataTable`] is a table that
//! its owner fills from wherever the answers come from, a registry, a cache
//! or a text; [`OfflineSource`] answers from a fixed table of well-known
//! artifacts. A coordinate that the table does not list requires nothing. A
//! coordinate whose lookup gave no answer in time is listed as unavailable.

use crate::dependency::{
    Dependency, DependencyModel, DependencyNode, DependencyScope, parse_dependency_coordinate,
    parse_spec,
};
use crate::text::{optional_text, split_on, split_spec, str_eq, texts};
use vstd::prelude::*;

verus! {

/// The answer of the source for one group and artifact, in one version or in
/// every version.
#[derive(Debug)]
pub struct MetadataEntry {
    pub group_id: String,
    pub artifact_id: String,
    /// `None` stands for every version.
    pub version: Option<String>,
    /// What the artifact directly requires.
    pub dependencies: Vec<Dependency>,
    /// `false` where the lookup gave no answer in time.
    pub available: bool,
}

/// What a [`MetadataEntry`] stands for.
pub struct MetadataEntryModel {
    pub group_id: Seq<char>,
    pub artifact_id: Seq<char>,
    pub version: Option<Seq<char>>,
    pub dependencies: Seq<DependencyModel>,
    pub available: bool,
}

impl View for MetadataEntry {
    type V = MetadataEntryModel;

    open spec fn view(&self) -> MetadataEntryModel {
        MetadataEntryModel {
            group_id: self.group_id@,
            artifact_id: self.artifact_id@,
            version: optional_text(self.version),
            dependencies: self.dependencies.deep_view(),
            available: self.available,
        }
    }
}

impl DeepView for MetadataEntry {
    type V = MetadataEntryModel;

    open spec fn deep_view(&self) -> MetadataEntryModel {
        self@
    }
}

impl MetadataEntryModel {
    /// Whether the entry answers for `dep`.
    pub open spec fn matches(self, dep: DependencyModel) -> bool {
        &&& self.group_id == dep.group_id
        &&& self.artifact_id == dep.artifact_id
        &&& match self.version {
            Some(v) => v == dep.version,
            None => true,
        }
    }
}

/// The first entry of `table` that answers for `dep`.
pub open spec fn lookup(table: Seq<MetadataEntryModel>, dep: DependencyModel) -> Option<
    MetadataEntryModel,
>
    decreases table.len(),
{
    if table.len() == 0 {
        None
    } else if table[0].matches(dep) {
        Some(table[0])
    } else {
        lookup(table.drop_first(), dep)
    }
}

/// What the source lists for `dep`: `None` where the lookup is unavailable,
/// nothing where the table has no entry for it.
pub open spec fn answer(table: Seq<MetadataEntryModel>, dep: DependencyModel) -> Option<
    Seq<DependencyModel>,
> {
    match lookup(table, dep) {
        Some(e) => if e.available {
            Some(e.dependencies)
        } else {
            None
        },
        None => Some(Seq::empty()),
    }
}

/// `listed` without what the exclusions of `dep` name.
pub open spec fn pruned(dep: DependencyModel, listed: Seq<DependencyModel>) -> Seq<DependencyModel>
    decreases listed.len(),
{
    if listed.len() == 0 {
        Seq::empty()
    } else {
        let init = pruned(dep, listed.drop_last());
        if dep.excludes(listed.last()) {
            init
        } else {
            init.push(listed.last())
        }
    }
}

/// The direct requirements of `dep` that its expansion follows: what the
/// source lists for it, less what `dep` excludes.
#[verifier::opaque]
pub open spec fn children(table: Seq<MetadataEntryModel>, dep: DependencyModel) -> Seq<
    DependencyModel,
> {
    match answer(table, dep) {
        Some(listed) => pruned(dep, listed),
        None => Seq::empty(),
    }
}

/// Everything that any entry of `table` lists.
pub open spec fn all_listed(table: Seq<MetadataEntryModel>) -> Seq<DependencyModel>
    decreases table.len(),
{
    if table.len() == 0 {
        Seq::empty()
    } else {
        all_listed(table.drop_last()) + table.last().dependencies
    }
}

/// What an entry lists is among everything listed.
pub proof fn lemma_listed_in_all(table: Seq<MetadataEntryModel>, i: int, k: int)
    requires
        0 <= i < table.len(),
        0 <= k < table[i].dependencies.len(),
    ensures
        all_listed(table).contains(table[i].dependencies[k]),
    decreases table.len(),
{
    let init = all_listed(table.drop_last());
    if i == table.len() - 1 {
        assert(all_listed(table)[init.len() + k] == table[i].dependencies[k]);
    } else {
        lemma_listed_in_all(table.drop_last(), i, k);
        let j = choose|j: int| 0 <= j < init.len() && init[j] == table[i].dependencies[k];
        assert(all_listed(table)[j] == table[i].dependencies[k]);
    }
}

/// The entry that a lookup finds is an entry of the table and answers for
/// the dependency.
pub proof fn lemma_lookup_in_table(table: Seq<MetadataEntryModel>, dep: DependencyModel)
    requires
        lookup(table, dep) is Some,
    ensures
        table.contains(lookup(table, dep)->0),
        lookup(table, dep)->0.matches(dep),
    decreases table.len(),
{
    if table[0].matches(dep) {
        assert(table[0] == lookup(table, dep)->0);
    } else {
        lemma_lookup_in_table(table.drop_first(), dep);
        let rest = table.drop_first();
        let j = choose|j: int| 0 <= j < rest.len() && rest[j] == lookup(rest, dep)->0;
        assert(table[j + 1] == rest[j]);
    }
}

/// What survives pruning was listed and is not excluded.
pub proof fn lemma_pruned_listed(dep: DependencyModel, listed: Seq<DependencyModel>, c: DependencyModel)
    requires
        pruned(dep, listed).contains(c),
    ensures
        listed.contains(c),
        !dep.excludes(c),
    decreases listed.len(),
{
    if listed.len() > 0 {
        let init = pruned(dep, listed.drop_last());
        let j = choose|j: int| 0 <= j < pruned(dep, listed).len() && pruned(dep, listed)[j] == c;
        if j < init.len() {
            assert(init[j] == c);
            lemma_pruned_listed(dep, listed.drop_last(), c);
            let m = choose|m: int| 0 <= m < listed.drop_last().len() && listed.drop_last()[m] == c;
            assert(listed[m] == c);
        } else {
            assert(listed[listed.len() - 1] == c);
        }
    }
}

/// What is listed and not excluded survives pruning.
pub proof fn lemma_listed_pruned(dep: DependencyModel, listed: Seq<DependencyModel>, k: int)
    requires
        0 <= k < listed.len(),
        !dep.excludes(listed[k]),
    ensures
        pruned(dep, listed).contains(listed[k]),
    decreases listed.len(),
{
    let init = pruned(dep, listed.drop_last());
    let all = pruned(dep, listed);
    if k == listed.len() - 1 {
        assert(all[all.len() - 1] == listed[k]);
    } else {
        lemma_listed_pruned(dep, listed.drop_last(), k);
        let j = choose|j: int| 0 <= j < init.len() && init[j] == listed[k];
        assert(all[j] == listed[k]);
    }
}

/// A dependency without exclusions has nothing pruned.
pub proof fn lemma_pruned_all(dep: DependencyModel, listed: Seq<DependencyModel>)
    requires
        dep.exclusions.len() == 0,
    ensures
        pruned(dep, listed) == listed,
    decreases listed.len(),
{
    if listed.len() > 0 {
        lemma_pruned_all(dep, listed.drop_last());
        assert(listed.drop_last().push(listed.last()) =~= listed);
    }
}

/// The children of a dependency are among everything that the table lists.
pub proof fn lemma_children_listed(
    table: Seq<MetadataEntryModel>,
    dep: DependencyModel,
    c: DependencyModel,
)
    requires
        children(table, dep).contains(c),
    ensures
        all_listed(table).contains(c),
        !dep.excludes(c),
{
    reveal(children);
    match answer(table, dep) {
        Some(listed) => {
            lemma_pruned_listed(dep, listed, c);
            match lookup(table, dep) {
                Some(e) => {
                    lemma_lookup_in_table(table, dep);
                    let i = choose|i: int| 0 <= i < table.len() && table[i] == e;
                    let k = choose|k: int| 0 <= k < listed.len() && listed[k] == c;
                    lemma_listed_in_all(table, i, k);
                },
                None => {
                    assert(listed.len() == 0);
                },
            }
        },
        None => {},
    }
}

/// Every lookup of the source gives an answer.
pub open spec fn always_available(table: Seq<MetadataEntryModel>) -> bool {
    forall|i: int| 0 <= i < table.len() ==> (#[trigger] table[i]).available
}

/// A source that always answers has an answer for `dep`.
pub proof fn lemma_available_answers(table: Seq<MetadataEntryModel>, dep: DependencyModel)
    requires
        always_available(table),
    ensures
        answer(table, dep) is Some,
{
    match lookup(table, dep) {
        Some(e) => {
            lemma_lookup_in_table(table, dep);
            let i = choose|i: int| 0 <= i < table.len() && table[i] == e;
            assert(table[i].available);
        },
        None => {},
    }
}

/// What the source lists for a dependency depends on its group, artifact
/// and version alone.
pub proof fn lemma_answer_by_coordinate(
    table: Seq<MetadataEntryModel>,
    a: DependencyModel,
    b: DependencyModel,
)
    requires
        a.group_id == b.group_id,
        a.artifact_id == b.artifact_id,
        a.version == b.version,
    ensures
        lookup(table, a) == lookup(table, b),
        answer(table, a) == answer(table, b),
    decreases table.len(),
{
    if table.len() > 0 && !table[0].matches(a) {
        lemma_answer_by_coordinate(table.drop_first(), a, b);
    }
}

/// A source of metadata: something that says what a coordinate directly
/// requires. The resolver asks it once for each coordinate that it expands.
pub trait MetadataSource {
    /// The table that the source answers from.
    spec fn listing(&self) -> Seq<MetadataEntryModel>;

    /// What the source lists for `dep`, or `None` where it gives no answer
    /// in time.
    fn transitive_of(&self, dep: &Dependency) -> (r: Option<Vec<Dependency>>)
        ensures
            match r {
                Some(list) => answer(self.listing(), dep@) == Some(list.deep_view()),
                None => answer(self.listing(), dep@) is None,
            },
    ;
}

/// A table as a source of metadata.
#[derive(Debug)]
pub struct MetadataTable {
    pub entries: Vec<MetadataEntry>,
}

impl View for MetadataTable {
    type V = Seq<MetadataEntryModel>;

    open spec fn view(&self) -> Seq<MetadataEntryModel> {
        self.entries.deep_view()
    }
}

/// A copy of a list of dependencies.
pub fn clone_dependencies(list: &Vec<Dependency>) -> (r: Vec<Dependency>)
    ensures
        r.deep_view() == list.deep_view(),
{
    let mut out: Vec<Dependency> = Vec::new();
    let mut i: usize = 0;
    while i < list.len()
        invariant
            i <= list.len(),
            out.len() == i,
            forall|j: int| 0 <= j < i ==> out[j]@ == list[j]@,
        decreases list.len() - i,
    {
        out.push(list[i].clone());
        i = i + 1;
    }
    assert(out.deep_view() =~= list.deep_view());
    out
}

impl MetadataTable {
    /// A source that lists nothing for any coordinate.
    pub fn new() -> (r: Self)
        ensures
            r@ == Seq::<MetadataEntryModel>::empty(),
    {
        let r = MetadataTable { entries: Vec::new() };
        assert(r@ =~= Seq::<MetadataEntryModel>::empty());
        r
    }

    /// Records what `group_id:artifact_id` requires in `version`, or in every
    /// version where `version` is `None`. An earlier entry for the same
    /// coordinate keeps precedence.
    pub fn insert(
        &mut self,
        group_id: &str,
        artifact_id: &str,
        version: Option<&str>,
        dependencies: Vec<Dependency>,
    )
        ensures
            final(self)@ == old(self)@.push(
                MetadataEntryModel {
                    group_id: group_id@,
                    artifact_id: artifact_id@,
                    version: match version {
                        Some(v) => Some(v@),
                        None => None,
                    },
                    dependencies: dependencies.deep_view(),
                    available: true,
                },
            ),
    {
        let version = match version {
            Some(v) => Some(String::from_str(v)),
            None => None,
        };
        let entry = MetadataEntry {
            group_id: String::from_str(group_id),
            artifact_id: String::from_str(artifact_id),
            version,
            dependencies,
            available: true,
        };
        let ghost before = self@;
        self.entries.push(entry);
        assert(self@ =~= before.push(entry@));
    }

    /// Records that the lookup for `group_id:artifact_id:version` gave no
    /// answer in time. An earlier entry for the same coordinate keeps
    /// precedence.
    pub fn insert_unavailable(&mut self, group_id: &str, artifact_id: &str, version: &str)
        ensures
            final(self)@ == old(self)@.push(
                MetadataEntryModel {
                    group_id: group_id@,
                    artifact_id: artifact_id@,
                    version: Some(version@),
                    dependencies: Seq::empty(),
                    available: false,
                },
            ),
    {
        let entry = MetadataEntry {
            group_id: String::from_str(group_id),
            artifact_id: String::from_str(artifact_id),
            version: Some(String::from_str(version)),
            dependencies: Vec::new(),
            available: false,
        };
        let ghost before = self@;
        self.entries.push(entry);
        assert(entry.dependencies.deep_view() =~= Seq::empty());
        assert(self@ =~= before.push(entry@));
    }

    /// The number of entries.
    pub fn len(&self) -> (r: usize)
        ensures
            r == self@.len(),
    {
        self.entries.len()
    }

    /// What the source lists for `dep`, or `None` where the lookup is
    /// unavailable.
    pub fn transitive_of(&self, dep: &Dependency) -> (r: Option<Vec<Dependency>>)
        ensures
            match r {
                Some(list) => answer(self@, dep@) == Some(list.deep_view()),
                None => answer(self@, dep@) is None,
            },
    {
        let mut i: usize = 0;
        assert(self@.skip(0) =~= self@);
        while i < self.entries.len()
            invariant
                i <= self.entries.len(),
                lookup(self@, dep@) == lookup(self@.skip(i as int), dep@),
            decreases self.entries.len() - i,
        {
            let e = &self.entries[i];
            proof {
                let rest = self@.skip(i as int);
                assert(rest[0] == e@);
                assert(rest.drop_first() =~= self@.skip(i + 1));
            }
            let same_version = match &e.version {
                Some(v) => *v == dep.version,
                None => true,
            };
            if e.group_id == dep.group_id && e.artifact_id == dep.artifact_id && same_version {
                if e.available {
                    return Some(clone_dependencies(&e.dependencies));
                } else {
                    return None;
                }
            }
            i = i + 1;
        }
        let none: Vec<Dependency> = Vec::new();
        assert(none.deep_view() =~= Seq::<DependencyModel>::empty());
        Some(none)
    }
}

/// The dependencies of `listed` that `dep` does not exclude.
pub fn prune(dep: &Dependency, listed: Vec<Dependency>) -> (r: Vec<Dependency>)
    ensures
        r.deep_view() == pruned(dep@, listed.deep_view()),
{
    let mut out: Vec<Dependency> = Vec::new();
    let mut rest = listed;
    let ghost all = rest.deep_view();
    let mut i: usize = 0;
    assert(all.take(0) =~= Seq::empty());
    assert(out.deep_view() =~= Seq::empty());
    while i < rest.len()
        invariant
            i <= rest.len(),
            rest.deep_view() == all,
            out.deep_view() == pruned(dep@, all.take(i as int)),
        decreases rest.len() - i,
    {
        let ghost before = out.deep_view();
        proof {
            let next = all.take(i + 1);
            assert(next.drop_last() =~= all.take(i as int));
            assert(next.last() == rest[i as int]@);
        }
        if !dep.excludes(&rest[i]) {
            out.push(rest[i].clone());
            assert(out.deep_view() =~= before.push(rest[i as int]@));
        }
        i = i + 1;
    }
    assert(all.take(rest.len() as int) =~= all);
    out
}

/// What the text of a table is rejected for.
#[derive(Debug, Clone, Copy, PartialEq, Eq, Structural)]
pub struct TableError {
    /// The number of the line, from 0, that is no entry.
    pub line: usize,
}

/// The scope that a word names.
pub open spec fn scope_spec(word: Seq<char>) -> Option<DependencyScope> {
    if word == "compile"@ {
        Some(DependencyScope::Compile)
    } else if word == "runtime"@ {
        Some(DependencyScope::Runtime)
    } else if word == "test"@ {
        Some(DependencyScope::Test)
    } else if word == "provided"@ {
        Some(DependencyScope::Provided)
    } else if word == "system"@ {
        Some(DependencyScope::System)
    } else {
        None
    }
}

/// The requirement that `group:artifact:version[:scope]` denotes, in compile
/// scope where none is given. No field may be empty.
pub open spec fn requirement_spec(text: Seq<char>) -> Option<DependencyModel> {
    let fields = split_spec(text, ':');
    if (fields.len() == 3 || fields.len() == 4) && fields[0].len() > 0 && fields[1].len() > 0
        && fields[2].len() > 0 {
        let scope = if fields.len() == 3 {
            Some(DependencyScope::Compile)
        } else {
            scope_spec(fields[3])
        };
        match scope {
            Some(scope) => Some(
                DependencyModel {
                    group_id: fields[0],
                    artifact_id: fields[1],
                    version: fields[2],
                    scope: scope,
                    classifier: None,
                    exclusions: Seq::empty(),
                    optional: false,
                },
            ),
            None => None,
        }
    } else {
        None
    }
}

/// The requirements that the first `n` of `words` denote, if each of them
/// denotes one.
pub open spec fn requirements_spec(words: Seq<Seq<char>>, n: int) -> Option<Seq<DependencyModel>>
    decreases n,
{
    if n <= 0 {
        Some(Seq::empty())
    } else {
        match (requirements_spec(words, n - 1), requirement_spec(words[n - 1])) {
            (Some(init), Some(last)) => Some(init.push(last)),
            _ => None,
        }
    }
}

/// The entry that a line `group:artifact[:version]=requirement,...` denotes.
/// Nothing behind the equals sign stands for no requirements.
pub open spec fn line_spec(line: Seq<char>) -> Option<MetadataEntryModel> {
    let halves = split_spec(line, '=');
    if halves.len() == 2 {
        let words = split_spec(halves[1], ',');
        let listed = if halves[1].len() == 0 {
            Some(Seq::<DependencyModel>::empty())
        } else {
            requirements_spec(words, words.len() as int)
        };
        match (parse_spec(halves[0]), listed) {
            (Some(c), Some(listed)) => Some(
                MetadataEntryModel {
                    group_id: c.group_id,
                    artifact_id: c.artifact_id,
                    version: c.version,
                    dependencies: listed,
                    available: true,
                },
            ),
            _ => None,
        }
    } else {
        None
    }
}

/// The table that the first `n` of `lines` denote: one entry for each line
/// that is not empty, or the number of the first line that is no entry.
pub open spec fn table_spec(lines: Seq<Seq<char>>, n: int) -> Result<Seq<MetadataEntryModel>, int>
    decreases n,
{
    if n <= 0 {
        Ok(Seq::empty())
    } else {
        match table_spec(lines, n - 1) {
            Err(at) => Err(at),
            Ok(init) => if lines[n - 1].len() == 0 {
                Ok(init)
            } else {
                match line_spec(lines[n - 1]) {
                    Some(entry) => Ok(init.push(entry)),
                    None => Err(n - 1),
                }
            },
        }
    }
}

/// The table that a text denotes, line by line.
pub open spec fn text_spec(text: Seq<char>) -> Result<Seq<MetadataEntryModel>, int> {
    let lines = split_spec(text, '\n');
    table_spec(lines, lines.len() as int)
}

/// The scope that a word names.
pub fn parse_scope(word: &str) -> (r: Option<DependencyScope>)
    ensures
        r == scope_spec(word@),
{
    if str_eq(word, "compile") {
        Some(DependencyScope::Compile)
    } else if str_eq(word, "runtime") {
        Some(DependencyScope::Runtime)
    } else if str_eq(word, "test") {
        Some(DependencyScope::Test)
    } else if str_eq(word, "provided") {
        Some(DependencyScope::Provided)
    } else if str_eq(word, "system") {
        Some(DependencyScope::System)
    } else {
        None
    }
}

/// Parses `group:artifact:version[:scope]`.
pub fn parse_requirement(text: &str) -> (r: Option<Dependency>)
    ensures
        match r {
            Some(d) => requirement_spec(text@) == Some(d@),
            None => requirement_spec(text@) is None,
        },
{
    let fields = split_on(text, ':');
    assert(forall|i: int| 0 <= i < fields@.len() ==> fields@[i]@ == texts(fields@)[i]);
    if fields.len() != 3 && fields.len() != 4 {
        return None;
    }
    if fields[0].as_str().is_empty() || fields[1].as_str().is_empty() || fields[2].as_str().is_empty() {
        return None;
    }
    let scope = if fields.len() == 3 {
        DependencyScope::Compile
    } else {
        match parse_scope(fields[3].as_str()) {
            Some(scope) => scope,
            None => {
                return None;
            },
        }
    };
    Some(Dependency::new(fields[0].as_str(), fields[1].as_str(), fields[2].as_str()).with_scope(scope))
}

/// Parses one line of a table.
pub fn parse_line(line: &str) -> (r: Option<MetadataEntry>)
    ensures
        match r {
            Some(e) => line_spec(line@) == Some(e@),
            None => line_spec(line@) is None,
        },
{
    let halves = split_on(line, '=');
    assert(forall|i: int| 0 <= i < halves@.len() ==> halves@[i]@ == texts(halves@)[i]);
    if halves.len() != 2 {
        return None;
    }
    let coordinate = match parse_dependency_coordinate(halves[0].as_str()) {
        Ok(c) => c,
        Err(_) => {
            return None;
        },
    };
    let mut listed: Vec<Dependency> = Vec::new();
    assert(listed.deep_view() =~= Seq::<DependencyModel>::empty());
    if !halves[1].as_str().is_empty() {
        let words = split_on(halves[1].as_str(), ',');
        let ghost all = texts(words@);
        let mut i: usize = 0;
        while i < words.len()
            invariant
                i <= words.len(),
                all == texts(words@),
                texts(halves@) == split_spec(line@, '='),
                halves@.len() == 2,
                halves@[1]@.len() > 0,
                halves@[1]@ == texts(halves@)[1],
                all == split_spec(halves@[1]@, ','),
                requirements_spec(all, i as int) == Some(listed.deep_view()),
            decreases words.len() - i,
        {
            let ghost sofar = listed.deep_view();
            assert(all[i as int] == words@[i as int]@);
            match parse_requirement(words[i].as_str()) {
                Some(d) => {
                    listed.push(d);
                    assert(listed.deep_view() =~= sofar.push(d@));
                },
                None => {
                    proof {
                        lemma_requirements_fail(all, i + 1, all.len() as int);
                    }
                    return None;
                },
            }
            i = i + 1;
        }
    }
    Some(
        MetadataEntry {
            group_id: coordinate.group_id,
            artifact_id: coordinate.artifact_id,
            version: coordinate.version,
            dependencies: listed,
            available: true,
        },
    )
}

/// Once some word denotes no requirement, no longer list of the words does.
pub proof fn lemma_requirements_fail(words: Seq<Seq<char>>, n: int, m: int)
    requires
        0 <= n <= m,
        requirements_spec(words, n) is None,
    ensures
        requirements_spec(words, m) is None,
    decreases m - n,
{
    if n < m {
        lemma_requirements_fail(words, n, m - 1);
    }
}

/// Once some line is no entry, no longer list of the lines is a table, and
/// the line that is named stays the same.
pub proof fn lemma_table_fail(lines: Seq<Seq<char>>, n: int, m: int)
    requires
        0 <= n <= m,
        table_spec(lines, n) is Err,
    ensures
        table_spec(lines, m) == table_spec(lines, n),
    decreases m - n,
{
    if n < m {
        lemma_table_fail(lines, n, m - 1);
    }
}

impl MetadataTable {
    /// Reads a table from text, one entry on each line that is not empty:
    /// `group:artifact[:version]=requirement,requirement,...`, each
    /// requirement written `group:artifact:version[:scope]`. An entry
    /// without a version answers for every version.
    pub fn from_text(text: &str) -> (r: Result<Self, TableError>)
        ensures
            match r {
                Ok(table) => text_spec(text@) == Ok::<Seq<MetadataEntryModel>, int>(table@),
                Err(e) => text_spec(text@) == Err::<Seq<MetadataEntryModel>, int>(e.line as int),
            },
    {
        let lines = split_on(text, '\n');
        let ghost all = texts(lines@);
        let mut entries: Vec<MetadataEntry> = Vec::new();
        let mut i: usize = 0;
        assert(entries.deep_view() =~= Seq::<MetadataEntryModel>::empty());
        while i < lines.len()
            invariant
                i <= lines.len(),
                all == texts(lines@),
                all == split_spec(text@, '\n'),
                table_spec(all, i as int) == Ok::<Seq<MetadataEntryModel>, int>(entries.deep_view()),
            decreases lines.len() - i,
        {
            let ghost sofar = entries.deep_view();
            assert(all[i as int] == lines@[i as int]@);
            if !lines[i].as_str().is_empty() {
                match parse_line(lines[i].as_str()) {
                    Some(entry) => {
                        entries.push(entry);
                        assert(entries.deep_view() =~= sofar.push(entry@));
                    },
                    None => {
                        proof {
                            lemma_table_fail(all, i + 1, all.len() as int);
                        }
                        return Err(TableError { line: i });
                    },
                }
            }
            i = i + 1;
        }
        Ok(MetadataTable { entries })
    }
}

/// The offline table: what some well-known artifacts require, whatever
/// their version. The entries are sample data for use without a registry.
pub const BUILTIN_TABLE: &'static str = "\
org.springframework:spring-core=org.springframework:spring-jcl:5.3.0:compile,org.springframework:spring-beans:5.3.0:compile,org.springframework:spring-context:5.3.0:compile
org.springframework:spring-web=org.springframework:spring-core:5.3.0:compile,org.springframework:spring-beans:5.3.0:compile,org.springframework:spring-context:5.3.0:compile,org.springframework:spring-webmvc:5.3.0:compile
org.springframework:spring-boot-starter=org.springframework.boot:spring-boot:2.7.0:compile,org.springframework.boot:spring-boot-autoconfigure:2.7.0:compile,org.springframework.boot:spring-boot-starter-logging:2.7.0:compile,org.springframework:spring-core:5.3.0:compile,org.springframework:spring-context:5.3.0:compile
com.fasterxml.jackson.core:jackson-databind=com.fasterxml.jackson.core:jackson-core:2.13.0:compile,com.fasterxml.jackson.core:jackson-annotations:2.13.0:compile
org.hibernate:hibernate-core=org.hibernate.common:hibernate-commons-annotations:5.1.2:compile,org.jboss.logging:jboss-logging:3.4.1:compile,org.javassist:javassist:3.27.0:compile,antlr:antlr:2.7.7:compile
junit:junit=org.hamcrest:hamcrest-core:1.3:compile
org.mockito:mockito-core=org.objenesis:objenesis:3.2:compile
org.mockito:mockito-junit-jupiter=org.mockito:mockito-core:4.5.1:compile,org.junit.jupiter:junit-jupiter-api:5.8.2:compile
org.slf4j:slf4j-api=org.slf4j:slf4j-simple:1.7.36:runtime
ch.qos.logback:logback-classic=ch.qos.logback:logback-core:1.2.11:compile,org.slf4j:slf4j-api:1.7.36:compile
org.apache.commons:commons-lang3=org.apache.commons:commons-text:1.9:compile
org.apache.commons:commons-io=org.apache.commons:commons-lang3:2.11.0:compile
mysql:mysql-connector-java=com.google.protobuf:protobuf-java:3.11.4:compile
org.postgresql:postgresql=org.checkerframework:checker-qual:3.12.0:compile
org.mongodb:mongodb-driver-sync=org.mongodb:mongodb-driver-core:4.4.0:compile,org.mongodb:bson:4.4.0:compile
org.elasticsearch.client:elasticsearch-rest-high-level-client=org.elasticsearch:elasticsearch:7.17.0:compile,org.elasticsearch.client:elasticsearch-rest-client:7.17.0:compile,org.apache.httpcomponents:httpclient:4.5.13:compile
org.apache.kafka:kafka-clients=org.apache.kafka:kafka-clients:3.0.0:compile,com.github.luben:zstd-jni:1.5.0:compile,org.lz4:lz4-java:1.8.0:compile
org.apache.spark:spark-core_2.12=org.apache.spark:spark-launcher_2.12:3.2.0:compile,org.apache.spark:spark-kvstore_2.12:3.2.0:compile,org.apache.spark:spark-network-common_2.12:3.2.0:compile,org.apache.spark:spark-network-shuffle_2.12:3.2.0:compile,org.apache.spark:spark-unsafe_2.12:3.2.0:compile
";

/// A table that is read from text always answers.
pub proof fn lemma_text_available(lines: Seq<Seq<char>>, n: int)
    requires
        0 <= n <= lines.len(),
    ensures
        table_spec(lines, n) is Ok ==> always_available(table_spec(lines, n)->Ok_0),
    decreases n,
{
    if n > 0 {
        lemma_text_available(lines, n - 1);
    }
}

/// The entries of the offline table.
pub open spec fn builtin_spec() -> Seq<MetadataEntryModel> {
    match text_spec(BUILTIN_TABLE@) {
        Ok(table) => table,
        Err(_) => Seq::empty(),
    }
}

impl MetadataTable {
    /// The offline table.
    pub fn builtin() -> (r: Self)
        ensures
            r@ == builtin_spec(),
    {
        match Self::from_text(BUILTIN_TABLE) {
            Ok(table) => table,
            Err(_) => MetadataTable::new(),
        }
    }
}

/// What the offline table lists for `group_id:artifact_id:version`.
pub fn get_transitive_dependencies(group_id: &str, artifact_id: &str, version: &str) -> (r: Vec<Dependency>)
    ensures
        answer(
            builtin_spec(),
            DependencyModel {
                group_id: group_id@,
                artifact_id: artifact_id@,
                version: version@,
                scope: DependencyScope::Compile,
                classifier: None,
                exclusions: Seq::empty(),
                optional: false,
            },
        ) == Some(r.deep_view()),
{
    let table = MetadataTable::builtin();
    let asked = Dependency::new(group_id, artifact_id, version);
    proof {
        let lines = split_spec(BUILTIN_TABLE@, '\n');
        lemma_text_available(lines, lines.len() as int);
        lemma_available_answers(builtin_spec(), asked@);
    }
    match table.transitive_of(&asked) {
        Some(listed) => listed,
        None => Vec::new(),
    }
}

/// Hangs below `node` what the offline table lists for its dependency:
/// one leaf for each requirement, in order, one level further down.
pub fn add_transitive_dependencies(node: &mut DependencyNode)
    requires
        old(node).depth < usize::MAX,
    ensures
        final(node).dependency == old(node).dependency,
        final(node).depth == old(node).depth,
        answer(builtin_spec(), old(node).dependency@) is Some,
        final(node).children@.len() == old(node).children@.len() + answer(
            builtin_spec(),
            old(node).dependency@,
        )->0.len(),
        forall|i: int|
            0 <= i < old(node).children@.len() ==> final(node).children@[i] == old(node).children@[i],
        forall|i: int|
            old(node).children@.len() <= i < final(node).children@.len() ==> {
                &&& (#[trigger] final(node).children@[i]).dependency@ == answer(
                    builtin_spec(),
                    old(node).dependency@,
                )->0[i - old(node).children@.len()]
                &&& final(node).children@[i].depth == old(node).depth + 1
                &&& final(node).children@[i].children@.len() == 0
            },
{
    let table = MetadataTable::builtin();
    proof {
        let lines = split_spec(BUILTIN_TABLE@, '\n');
        lemma_text_available(lines, lines.len() as int);
        lemma_available_answers(builtin_spec(), node.dependency@);
    }
    let listed = match table.transitive_of(&node.dependency) {
        Some(listed) => listed,
        None => Vec::new(),
    };
    let ghost before = node.children@;
    let ghost wanted = listed.deep_view();
    let depth = node.depth + 1;
    let mut i: usize = 0;
    while i < listed.len()
        invariant
            i <= listed.len(),
            wanted == listed.deep_view(),
            before == old(node).children@,
            node.dependency == old(node).dependency,
            node.depth == old(node).depth,
            depth == node.depth + 1,
            node.children@.len() == before.len() + i,
            forall|k: int| 0 <= k < before.len() ==> node.children@[k] == before[k],
            forall|k: int|
                before.len() <= k < node.children@.len() ==> {
                    &&& (#[trigger] node.children@[k]).dependency@ == wanted[k - before.len()]
                    &&& node.children@[k].depth == depth
                    &&& node.children@[k].children@.len() == 0
                },
        decreases listed.len() - i,
    {
        let child = DependencyNode::new(listed[i].clone(), depth);
        node.add_child(child);
        i = i + 1;
    }
}

impl MetadataSource for MetadataTable {
    open spec fn listing(&self) -> Seq<MetadataEntryModel> {
        self@
    }

    fn transitive_of(&self, dep: &Dependency) -> (r: Option<Vec<Dependency>>) {
        MetadataTable::transitive_of(self, dep)
    }
}

/// The offline table as a source of metadata.
#[derive(Debug, Clone, Copy)]
pub struct OfflineSource;

impl MetadataSource for OfflineSource {
    open spec fn listing(&self) -> Seq<MetadataEntryModel> {
        builtin_spec()
    }

    fn transitive_of(&self, dep: &Dependency) -> (r: Option<Vec<Dependency>>) {
        let listed = get_transitive_dependencies(
            dep.group_id.as_str(),
            dep.artifact_id.as_str(),
            dep.version.as_str(),
        );
        proof {
            let asked = DependencyModel {
                group_id: dep@.group_id,
                artifact_id: dep@.artifact_id,
                version: dep@.version,
                scope: DependencyScope::Compile,
                classifier: None,
                exclusions: Seq::empty(),
                optional: false,
            };
            lemma_answer_by_coordinate(builtin_spec(), asked, dep@);
        }
        Some(listed)
    }
}

} // verus!
