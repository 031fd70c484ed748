//! The lock file: the record of the last successful resolution.
//!
//! Entries are kept in the order in which they were first added and are
//! found by their coordinate key `group:artifact:version`, which no two
//! entries share. Reading and writing the file is left to the caller, who
//! hands over and takes back the parts of the store.

use crate::dependency::{
    DependencyScope, central_url, coordinate_key, jar_name, make_central_url, make_coordinate,
    make_jar_name,
};
use crate::resolve::{
    DependencyResolver, ResolvedModel, edge_resolved, memo_keys, memo_wf, position_of_key,
};
use crate::graph::{
    IndexTree, build_forest, dangling_of, dangling_spec, expanded_all, first_position,
    forest_ok, graph_ok, lemma_child_ok, lemma_first_exists, lemma_targets_in_range, roots_ok,
    targets_of, targets_spec, tree_ok,
};
use crate::text::{clone_optional, clone_texts, optional_text, position_of, texts};
use vstd::prelude::*;

verus! {

/// One pinned dependency.
#[derive(Debug)]
pub struct LockedDependency {
    pub group_id: String,
    pub artifact_id: String,
    pub version: String,
    pub classifier: Option<String>,
    pub scope: String,
    pub checksum: String,
    pub url: String,
    /// The coordinate keys of what this dependency requires.
    pub dependencies: Vec<String>,
}

/// What a [`LockedDependency`] stands for.
pub struct LockedModel {
    pub group_id: Seq<char>,
    pub artifact_id: Seq<char>,
    pub version: Seq<char>,
    pub classifier: Option<Seq<char>>,
    pub scope: Seq<char>,
    pub checksum: Seq<char>,
    pub url: Seq<char>,
    pub dependencies: Seq<Seq<char>>,
}

impl LockedModel {
    /// The coordinate key of the entry.
    pub open spec fn key(self) -> Seq<char> {
        coordinate_key(self.group_id, self.artifact_id, self.version)
    }
}

impl View for LockedDependency {
    type V = LockedModel;

    open spec fn view(&self) -> LockedModel {
        LockedModel {
            group_id: self.group_id@,
            artifact_id: self.artifact_id@,
            version: self.version@,
            classifier: optional_text(self.classifier),
            scope: self.scope@,
            checksum: self.checksum@,
            url: self.url@,
            dependencies: texts(self.dependencies@),
        }
    }
}

impl DeepView for LockedDependency {
    type V = LockedModel;

    open spec fn deep_view(&self) -> LockedModel {
        self@
    }
}

impl Clone for LockedDependency {
    fn clone(&self) -> (r: Self)
        ensures
            r@ == self@,
    {
        LockedDependency {
            group_id: self.group_id.clone(),
            artifact_id: self.artifact_id.clone(),
            version: self.version.clone(),
            classifier: clone_optional(&self.classifier),
            scope: self.scope.clone(),
            checksum: self.checksum.clone(),
            url: self.url.clone(),
            dependencies: clone_texts(&self.dependencies),
        }
    }
}

impl LockedDependency {
    /// The coordinate key `group:artifact:version`.
    pub fn coordinate(&self) -> (r: String)
        ensures
            r@ == self@.key(),
    {
        make_coordinate(self.group_id.as_str(), self.artifact_id.as_str(), self.version.as_str())
    }

    /// The jar file name of the artifact.
    pub fn filename(&self) -> (r: String)
        ensures
            r@ == jar_name(self@.artifact_id, self@.version, self@.classifier),
    {
        make_jar_name(self.artifact_id.as_str(), self.version.as_str(), &self.classifier)
    }
}

/// When the store was made and last changed, and how much it holds.
#[derive(Debug)]
pub struct LockMetadata {
    pub created_at: String,
    pub updated_at: String,
    pub total_dependencies: usize,
    pub total_size: u64,
}

/// What a [`LockMetadata`] stands for.
pub struct LockMetadataModel {
    pub created_at: Seq<char>,
    pub updated_at: Seq<char>,
    pub total_dependencies: usize,
    pub total_size: u64,
}

impl View for LockMetadata {
    type V = LockMetadataModel;

    open spec fn view(&self) -> LockMetadataModel {
        LockMetadataModel {
            created_at: self.created_at@,
            updated_at: self.updated_at@,
            total_dependencies: self.total_dependencies,
            total_size: self.total_size,
        }
    }
}

impl Clone for LockMetadata {
    fn clone(&self) -> (r: Self)
        ensures
            r@ == self@,
    {
        LockMetadata {
            created_at: self.created_at.clone(),
            updated_at: self.updated_at.clone(),
            total_dependencies: self.total_dependencies,
            total_size: self.total_size,
        }
    }
}

/// What a [`LockFile`] stands for.
pub struct LockFileModel {
    pub version: Seq<char>,
    pub dependencies: Seq<LockedModel>,
    pub metadata: LockMetadataModel,
}

/// The keys of the entries, in order.
pub open spec fn entry_keys(entries: Seq<LockedModel>) -> Seq<Seq<char>> {
    Seq::new(entries.len(), |i: int| entries[i].key())
}

/// The entry with key `key`, if there is one.
pub open spec fn found(entries: Seq<LockedModel>, key: Seq<char>) -> Option<LockedModel> {
    if entry_keys(entries).contains(key) {
        Some(entries[first_position(entry_keys(entries), key)])
    } else {
        None
    }
}

/// `entries` with `dep` in the place of the entry that has its key, or at
/// the end where there is no such entry.
pub open spec fn upserted(entries: Seq<LockedModel>, dep: LockedModel) -> Seq<LockedModel> {
    if entry_keys(entries).contains(dep.key()) {
        entries.update(first_position(entry_keys(entries), dep.key()), dep)
    } else {
        entries.push(dep)
    }
}

/// `entries` without the entry that has key `key`.
pub open spec fn removed(entries: Seq<LockedModel>, key: Seq<char>) -> Seq<LockedModel> {
    if entry_keys(entries).contains(key) {
        entries.remove(first_position(entry_keys(entries), key))
    } else {
        entries
    }
}

/// The graph of the entries: the edges of an entry lead to the entries that
/// its requirements name. A requirement that names no entry is no edge.
pub open spec fn lock_graph(entries: Seq<LockedModel>) -> Seq<Seq<usize>> {
    Seq::new(
        entries.len(),
        |i: int| targets_spec(entry_keys(entries), entries[i].dependencies),
    )
}

/// The requirements, entry by entry, that name no entry.
pub open spec fn missing_upto(entries: Seq<LockedModel>, n: int) -> Seq<Seq<char>>
    decreases n,
{
    if n <= 0 {
        Seq::empty()
    } else {
        missing_upto(entries, n - 1) + dangling_spec(entry_keys(entries), entries[n - 1].dependencies)
    }
}

/// A node of the tree that shows the lock file.
#[derive(Debug)]
pub struct DependencyTreeNode {
    pub dependency: LockedDependency,
    pub children: Vec<DependencyTreeNode>,
    pub depth: usize,
    /// Whether the dependency is expanded elsewhere in the tree and is a
    /// mere mark here.
    pub repeated: bool,
}

/// The node shows the entries as the plan says: the same shape, and at each
/// place the entry with the number that the plan gives.
pub open spec fn mirrors(entries: Seq<LockedModel>, plan: IndexTree, node: DependencyTreeNode) -> bool
    decreases plan, 1nat,
{
    &&& plan.index < entries.len()
    &&& node.dependency@ == entries[plan.index as int]
    &&& node.depth == plan.depth
    &&& node.repeated == plan.repeated
    &&& node.children@.len() == plan.children@.len()
    &&& mirrors_upto(entries, plan.children@, node.children@, plan.children@.len() as int)
}

/// The first `n` of `nodes` show the entries as the first `n` of `plans` say.
pub open spec fn mirrors_upto(
    entries: Seq<LockedModel>,
    plans: Seq<IndexTree>,
    nodes: Seq<DependencyTreeNode>,
    n: int,
) -> bool
    decreases plans, 0nat, n,
{
    if n <= 0 || n > plans.len() || n > nodes.len() {
        n <= 0
    } else {
        &&& mirrors_upto(entries, plans, nodes, n - 1)
        &&& mirrors(entries, plans[n - 1], nodes[n - 1])
    }
}

/// Adding a node behind the first `n` keeps them as they are.
pub proof fn lemma_mirrors_push(
    entries: Seq<LockedModel>,
    plans: Seq<IndexTree>,
    nodes: Seq<DependencyTreeNode>,
    node: DependencyTreeNode,
    n: int,
)
    requires
        0 <= n <= nodes.len(),
        mirrors_upto(entries, plans, nodes, n),
    ensures
        mirrors_upto(entries, plans, nodes.push(node), n),
    decreases n,
{
    if n > 0 {
        lemma_mirrors_push(entries, plans, nodes, node, n - 1);
        assert(nodes.push(node)[n - 1] == nodes[n - 1]);
    }
}

/// The entries by number, in order.
pub open spec fn in_order(n: nat) -> Seq<usize> {
    Seq::new(n, |i: int| i as usize)
}

/// The trees `nodes` show every entry: they follow the walk over the graph
/// of the entries that starts from each entry in turn that no earlier tree
/// shows, and that expands each entry exactly once, where it first reaches
/// it.
pub open spec fn shows_all(entries: Seq<LockedModel>, nodes: Seq<DependencyTreeNode>) -> bool {
    exists|plan: Seq<IndexTree>|
        {
            &&& #[trigger] forest_ok(lock_graph(entries), plan)
            &&& roots_ok(in_order(entries.len()), plan, entries.len() as int, plan.len() as int)
            &&& forall|v: usize| v < entries.len() ==> #[trigger] expanded_all(plan).contains(v)
            &&& nodes.len() == plan.len()
            &&& mirrors_upto(entries, plan, nodes, plan.len() as int)
        }
}

/// Why parts do not make a lock file.
#[derive(Debug)]
pub enum LockError {
    /// Two entries have this key.
    DuplicateKey(String),
    /// An entry is filed under this key, which is not its own.
    KeyMismatch(String),
}

/// The parts `(key, entry)` from which [`LockFile::from_parts`] makes the
/// entries: the entries, if each is filed under its own key and no key
/// occurs twice.
pub open spec fn parts_ok(parts: Seq<(Seq<char>, LockedModel)>) -> bool {
    &&& forall|i: int| 0 <= i < parts.len() ==> (#[trigger] parts[i]).0 == parts[i].1.key()
    &&& forall|i: int, j: int|
        0 <= i < j < parts.len() ==> (#[trigger] parts[i]).0 != (#[trigger] parts[j]).0
}

/// The entries as parts: each with its key.
pub open spec fn parts_of(entries: Seq<LockedModel>) -> Seq<(Seq<char>, LockedModel)> {
    Seq::new(entries.len(), |i: int| (entries[i].key(), entries[i]))
}

/// The entries of parts.
pub open spec fn entries_of(parts: Seq<(Seq<char>, LockedModel)>) -> Seq<LockedModel> {
    Seq::new(parts.len(), |i: int| parts[i].1)
}

/// The views of parts.
pub open spec fn part_views(parts: Seq<(String, LockedDependency)>) -> Seq<(Seq<char>, LockedModel)> {
    Seq::new(parts.len(), |i: int| (parts[i].0@, parts[i].1@))
}

/// Taking a store apart and putting the parts together gives the store
/// back: the parts of entries with distinct keys are in order, and their
/// entries are the entries.
pub proof fn lemma_parts_round_trip(entries: Seq<LockedModel>)
    requires
        entry_keys(entries).no_duplicates(),
    ensures
        parts_ok(parts_of(entries)),
        entries_of(parts_of(entries)) == entries,
{
    let parts = parts_of(entries);
    assert forall|i: int, j: int| 0 <= i < j < parts.len() implies (#[trigger] parts[i]).0 != (
    #[trigger] parts[j]).0 by {
        assert(entry_keys(entries)[i] != entry_keys(entries)[j]);
    }
    assert(entries_of(parts) =~= entries);
}

/// Every edge of the graph of the entries leads to an entry.
pub proof fn lemma_lock_graph_ok(entries: Seq<LockedModel>)
    requires
        entries.len() <= usize::MAX,
    ensures
        graph_ok(lock_graph(entries)),
{
    let graph = lock_graph(entries);
    assert forall|u: int, k: int| 0 <= u < graph.len() && 0 <= k < graph[u].len() implies (
    #[trigger] graph[u][k]) < graph.len() by {
        lemma_targets_in_range(entry_keys(entries), entries[u].dependencies);
    }
}

/// The word for a scope in a lock file.
pub open spec fn scope_text(scope: DependencyScope) -> Seq<char> {
    match scope {
        DependencyScope::Compile => "compile"@,
        DependencyScope::Runtime => "runtime"@,
        DependencyScope::Test => "test"@,
        DependencyScope::Provided => "provided"@,
        DependencyScope::System => "system"@,
    }
}

/// The word for a scope in a lock file.
pub fn scope_name(scope: DependencyScope) -> (r: &'static str)
    ensures
        r@ == scope_text(scope),
{
    match scope {
        DependencyScope::Compile => "compile",
        DependencyScope::Runtime => "runtime",
        DependencyScope::Test => "test",
        DependencyScope::Provided => "provided",
        DependencyScope::System => "system",
    }
}

/// The lock keys of the entries that the first `n` edges of entry `i` name.
pub open spec fn locked_edges(memo: Seq<ResolvedModel>, i: int, n: int) -> Seq<Seq<char>> {
    Seq::new(
        n as nat,
        |k: int| memo[position_of_key(memo, memo[i].edges[k])].dependency.lock_key(),
    )
}

/// The lock entry for the resolved dependency at `i`: its coordinate,
/// classifier and scope, its address in the central repository, no checksum
/// yet, and as what it requires the lock keys of the entries that its edges
/// name.
pub open spec fn locked_model(memo: Seq<ResolvedModel>, i: int) -> LockedModel {
    let dep = memo[i].dependency;
    LockedModel {
        group_id: dep.group_id,
        artifact_id: dep.artifact_id,
        version: dep.version,
        classifier: dep.classifier,
        scope: scope_text(dep.scope),
        checksum: Seq::empty(),
        url: central_url(dep.group_id, dep.artifact_id, dep.version, dep.classifier),
        dependencies: locked_edges(memo, i, memo[i].edges.len() as int),
    }
}

/// The lock entry for the resolved dependency at `i`.
pub fn locked_from(resolver: &DependencyResolver, i: usize) -> (r: LockedDependency)
    requires
        resolver.wf(),
        i < resolver@.len(),
    ensures
        r@ == locked_model(resolver@, i as int),
{
    let entries = resolver.entries();
    let ghost memo = resolver@;
    let resolved = &entries[i];
    assert(resolved@ == memo[i as int]);
    assert(texts(resolved.edges@).len() == resolved.edges@.len());
    let mut requirements: Vec<String> = Vec::new();
    let mut k: usize = 0;
    assert(texts(requirements@) =~= locked_edges(memo, i as int, 0));
    while k < resolved.edges.len()
        invariant
            k <= resolved.edges.len(),
            resolver.wf(),
            memo == resolver@,
            memo == entries.deep_view(),
            i < memo.len(),
            resolved@ == memo[i as int],
            resolved.edges@.len() == memo[i as int].edges.len(),
            texts(requirements@) == locked_edges(memo, i as int, k as int),
        decreases resolved.edges.len() - k,
    {
        let ghost sofar = texts(requirements@);
        let t = resolver.edge_target(i, k);
        assert(entries@[t as int]@ == memo[t as int]);
        let key = entries[t].dependency.lock_coordinate();
        requirements.push(key);
        proof {
            assert(texts(requirements@) =~= sofar.push(memo[t as int].dependency.lock_key()));
            let want = locked_edges(memo, i as int, k + 1);
            assert(want[k as int] == memo[t as int].dependency.lock_key());
            assert forall|m: int| 0 <= m < k implies want[m] == sofar[m] by {
                assert(sofar[m] == locked_edges(memo, i as int, k as int)[m]);
            }
            assert(texts(requirements@) =~= want);
        }
        k = k + 1;
    }
    let dep = &resolved.dependency;
    LockedDependency {
        group_id: dep.group_id.clone(),
        artifact_id: dep.artifact_id.clone(),
        version: dep.version.clone(),
        classifier: clone_optional(&dep.classifier),
        scope: String::from_str(scope_name(dep.scope)),
        checksum: String::new(),
        url: make_central_url(
            dep.group_id.as_str(),
            dep.artifact_id.as_str(),
            dep.version.as_str(),
            &dep.classifier,
        ),
        dependencies: requirements,
    }
}

/// The entries with the first `n` resolved dependencies recorded, each in
/// the place of the entry with its lock key or behind the entries.
pub open spec fn recorded(entries: Seq<LockedModel>, memo: Seq<ResolvedModel>, n: int) -> Seq<LockedModel>
    decreases n,
{
    if n <= 0 {
        entries
    } else {
        upserted(recorded(entries, memo, n - 1), locked_model(memo, n - 1))
    }
}

/// Requirement `k` of entry `i` names an entry.
pub open spec fn edge_present(entries: Seq<LockedModel>, i: int, k: int) -> bool {
    entry_keys(entries).contains(entries[i].dependencies[k])
}

/// Every requirement of every entry names an entry: the store records a
/// resolution that has finished.
pub open spec fn complete(entries: Seq<LockedModel>) -> bool {
    forall|i: int, k: int|
        0 <= i < entries.len() && 0 <= k < entries[i].dependencies.len() ==> #[trigger] edge_present(
            entries,
            i,
            k,
        )
}

/// Putting an entry into the store keeps every key that was there and adds
/// its own.
pub proof fn lemma_upserted_keys(entries: Seq<LockedModel>, dep: LockedModel, key: Seq<char>)
    requires
        entry_keys(entries).contains(key) || key == dep.key(),
    ensures
        entry_keys(upserted(entries, dep)).contains(key),
{
    let keys = entry_keys(entries);
    let after = upserted(entries, dep);
    if keys.contains(dep.key()) {
        let w = choose|w: int| 0 <= w < keys.len() && keys[w] == dep.key();
        lemma_first_exists(keys, dep.key(), w);
        let at = first_position(keys, dep.key());
        assert(entry_keys(after) =~= keys);
    } else {
        if keys.contains(key) {
            let w = choose|w: int| 0 <= w < keys.len() && keys[w] == key;
            assert(entry_keys(after)[w] == key);
        } else {
            assert(entry_keys(after)[after.len() - 1] == key);
        }
    }
}

/// A complete store stays complete when an entry is put into it whose
/// requirements all name entries.
pub proof fn lemma_upserted_complete(entries: Seq<LockedModel>, dep: LockedModel)
    requires
        complete(entries),
        forall|k: int|
            0 <= k < dep.dependencies.len() ==> entry_keys(entries).contains(
                #[trigger] dep.dependencies[k],
            ),
    ensures
        complete(upserted(entries, dep)),
{
    let keys = entry_keys(entries);
    let after = upserted(entries, dep);
    assert forall|i: int, k: int|
        0 <= i < after.len() && 0 <= k < after[i].dependencies.len() implies #[trigger] edge_present(
        after,
        i,
        k,
    ) by {
        if keys.contains(dep.key()) {
            let w = choose|w: int| 0 <= w < keys.len() && keys[w] == dep.key();
            lemma_first_exists(keys, dep.key(), w);
            let at = first_position(keys, dep.key());
            if i == at {
                lemma_upserted_keys(entries, dep, dep.dependencies[k]);
            } else {
                assert(after[i] == entries[i]);
                assert(edge_present(entries, i, k));
                lemma_upserted_keys(entries, dep, entries[i].dependencies[k]);
            }
        } else {
            if i == entries.len() {
                lemma_upserted_keys(entries, dep, dep.dependencies[k]);
            } else {
                assert(after[i] == entries[i]);
                assert(edge_present(entries, i, k));
                lemma_upserted_keys(entries, dep, entries[i].dependencies[k]);
            }
        }
    }
}

/// A store holds no requirement without entry exactly when it is complete.
pub proof fn lemma_missing_none(entries: Seq<LockedModel>, n: int)
    requires
        0 <= n <= entries.len(),
    ensures
        (missing_upto(entries, n).len() == 0) == (forall|i: int, k: int|
            0 <= i < n && 0 <= k < entries[i].dependencies.len() ==> #[trigger] edge_present(
                entries,
                i,
                k,
            )),
    decreases n,
{
    if n > 0 {
        lemma_missing_none(entries, n - 1);
        let keys = entry_keys(entries);
        let edges = entries[n - 1].dependencies;
        lemma_dangling_none(keys, edges);
        if missing_upto(entries, n).len() == 0 {
            assert forall|i: int, k: int|
                0 <= i < n && 0 <= k < entries[i].dependencies.len() implies #[trigger] edge_present(
                entries,
                i,
                k,
            ) by {
                if i == n - 1 {
                    assert(keys.contains(edges[k]));
                }
            }
        }
        if forall|i: int, k: int|
            0 <= i < n && 0 <= k < entries[i].dependencies.len() ==> #[trigger] edge_present(
                entries,
                i,
                k,
            ) {
            assert forall|k: int| 0 <= k < edges.len() implies keys.contains(#[trigger] edges[k]) by {
                assert(edge_present(entries, n - 1, k));
            }
        }
    }
}

/// No edge is left dangling exactly when every edge reads as a key.
pub proof fn lemma_dangling_none(keys: Seq<Seq<char>>, edges: Seq<Seq<char>>)
    ensures
        (dangling_spec(keys, edges).len() == 0) == (forall|k: int|
            0 <= k < edges.len() ==> keys.contains(#[trigger] edges[k])),
    decreases edges.len(),
{
    if edges.len() > 0 {
        let init = edges.drop_last();
        lemma_dangling_none(keys, init);
        if forall|k: int| 0 <= k < edges.len() ==> keys.contains(#[trigger] edges[k]) {
            assert forall|k: int| 0 <= k < init.len() implies keys.contains(#[trigger] init[k]) by {
                assert(init[k] == edges[k]);
            }
            assert(keys.contains(edges[edges.len() - 1]));
        }
        if dangling_spec(keys, edges).len() == 0 {
            assert forall|k: int| 0 <= k < edges.len() implies keys.contains(#[trigger] edges[k]) by {
                if k < init.len() {
                    assert(init[k] == edges[k]);
                }
            }
        }
    }
}

/// Recording a resolution keeps a complete store complete, and puts every
/// resolved dependency into the store: a store that was complete before
/// holds, after the recording, an entry under the lock key of each resolved
/// dependency and no requirement without entry.
pub proof fn lemma_recorded_complete(entries: Seq<LockedModel>, memo: Seq<ResolvedModel>, n: int)
    requires
        complete(entries),
        memo_wf(memo),
        0 <= n <= memo.len(),
    ensures
        complete(recorded(entries, memo, n)),
        forall|j: int|
            0 <= j < n ==> entry_keys(recorded(entries, memo, n)).contains(
                (#[trigger] memo[j]).dependency.lock_key(),
            ),
        forall|key: Seq<char>|
            entry_keys(entries).contains(key) ==> entry_keys(recorded(entries, memo, n)).contains(key),
    decreases n,
{
    if n > 0 {
        lemma_recorded_complete(entries, memo, n - 1);
        let before = recorded(entries, memo, n - 1);
        let dep = locked_model(memo, n - 1);
        assert forall|k: int| 0 <= k < dep.dependencies.len() implies entry_keys(before).contains(
            #[trigger] dep.dependencies[k],
        ) by {
            assert(edge_resolved(memo, n - 1, k));
            let j = choose|j: int| 0 <= j < n - 1 && memo_keys(memo)[j] == memo[n - 1].edges[k];
            let at = position_of_key(memo, memo[n - 1].edges[k]);
            assert(memo_keys(memo)[at] == memo[n - 1].edges[k]);
            assert(at == j);
            assert(entry_keys(before).contains(memo[j].dependency.lock_key()));
        }
        lemma_upserted_complete(before, dep);
        assert forall|j: int| 0 <= j < n implies entry_keys(recorded(entries, memo, n)).contains(
            (#[trigger] memo[j]).dependency.lock_key(),
        ) by {
            if j < n - 1 {
                assert(entry_keys(before).contains(memo[j].dependency.lock_key()));
            }
            lemma_upserted_keys(before, dep, memo[j].dependency.lock_key());
        }
        assert forall|key: Seq<char>| entry_keys(entries).contains(key) implies entry_keys(
            recorded(entries, memo, n),
        ).contains(key) by {
            lemma_upserted_keys(before, dep, key);
        }
    }
}

/// `chrono::Utc::now().to_rfc3339()`: the current time as text. The text
/// depends on the clock, so nothing is claimed of it.
#[verifier::external_body]
pub(crate) fn current_timestamp() -> (r: String) {
    chrono::Utc::now().to_rfc3339()
}

/// The lock file.
#[derive(Debug)]
pub struct LockFile {
    version: String,
    dependencies: Vec<LockedDependency>,
    keys: Vec<String>,
    metadata: LockMetadata,
}

impl View for LockFile {
    type V = LockFileModel;

    closed spec fn view(&self) -> LockFileModel {
        LockFileModel {
            version: self.version@,
            dependencies: self.dependencies.deep_view(),
            metadata: self.metadata@,
        }
    }
}

impl LockFile {
    /// The store's index of keys agrees with its entries.
    pub closed spec fn indexed(&self) -> bool {
        texts(self.keys@) == entry_keys(self@.dependencies)
    }

    /// No two entries share a key.
    pub open spec fn wf(&self) -> bool {
        &&& entry_keys(self@.dependencies).no_duplicates()
        &&& self.indexed()
    }

    /// An empty store of format version `1.0` with the given times of
    /// creation and last change.
    pub fn with_timestamps(created_at: String, updated_at: String) -> (r: Self)
        ensures
            r.wf(),
            r@ == (LockFileModel {
                version: "1.0"@,
                dependencies: Seq::empty(),
                metadata: LockMetadataModel {
                    created_at: created_at@,
                    updated_at: updated_at@,
                    total_dependencies: 0,
                    total_size: 0,
                },
            }),
    {
        let r = LockFile {
            version: String::from_str("1.0"),
            dependencies: Vec::new(),
            keys: Vec::new(),
            metadata: LockMetadata { created_at, updated_at, total_dependencies: 0, total_size: 0 },
        };
        assert(r@.dependencies =~= Seq::empty());
        assert(texts(r.keys@) =~= entry_keys(r@.dependencies));
        r
    }

    /// An empty store of format version `1.0`, made now.
    pub fn new() -> (r: Self)
        ensures
            r.wf(),
            r@.version == "1.0"@,
            r@.dependencies == Seq::<LockedModel>::empty(),
            r@.metadata.total_dependencies == 0,
            r@.metadata.total_size == 0,
    {
        let created_at = current_timestamp();
        let updated_at = current_timestamp();
        Self::with_timestamps(created_at, updated_at)
    }

    /// The format version.
    pub fn version(&self) -> (r: &String)
        ensures
            r@ == self@.version,
    {
        &self.version
    }

    /// The metadata block.
    pub fn metadata(&self) -> (r: &LockMetadata)
        ensures
            r@ == self@.metadata,
    {
        &self.metadata
    }

    /// The entries, in order.
    pub fn dependencies(&self) -> (r: &Vec<LockedDependency>)
        ensures
            r.deep_view() == self@.dependencies,
    {
        &self.dependencies
    }

    /// The number of entries.
    pub fn len(&self) -> (r: usize)
        ensures
            r == self@.dependencies.len(),
    {
        self.dependencies.len()
    }

    /// Puts `dep` in the place of the entry with its key, or behind the
    /// entries where there is none, and notes `now` as the time of change.
    pub fn add_dependency_at(&mut self, dep: LockedDependency, now: String)
        requires
            old(self).wf(),
        ensures
            final(self).wf(),
            final(self)@ == (LockFileModel {
                version: old(self)@.version,
                dependencies: upserted(old(self)@.dependencies, dep@),
                metadata: LockMetadataModel {
                    created_at: old(self)@.metadata.created_at,
                    updated_at: now@,
                    total_dependencies: upserted(old(self)@.dependencies, dep@).len() as usize,
                    total_size: old(self)@.metadata.total_size,
                },
            }),
            final(self)@.metadata.total_dependencies == final(self)@.dependencies.len(),
    {
        let key = dep.coordinate();
        let ghost entries = self@.dependencies;
        let ghost names = entry_keys(entries);
        let ghost model = dep@;
        match position_of(&self.keys, key.as_str()) {
            Some(i) => {
                proof {
                    assert(names[i as int] == key@);
                    lemma_first_exists(names, key@, i as int);
                }
                self.dependencies[i] = dep;
                proof {
                    assert(self@.dependencies =~= entries.update(i as int, model));
                    assert(entry_keys(self@.dependencies) =~= names);
                }
            },
            None => {
                self.dependencies.push(dep);
                self.keys.push(key);
                proof {
                    assert(self@.dependencies =~= entries.push(model));
                    assert(entry_keys(self@.dependencies) =~= names.push(key@));
                    assert(texts(self.keys@) =~= names.push(key@));
                }
            },
        }
        self.metadata.total_dependencies = self.dependencies.len();
        self.metadata.updated_at = now;
    }

    /// Inserts `dep` or replaces the entry with its key, and notes the time.
    pub fn add_dependency(&mut self, dep: LockedDependency)
        requires
            old(self).wf(),
        ensures
            final(self).wf(),
            final(self)@.version == old(self)@.version,
            final(self)@.dependencies == upserted(old(self)@.dependencies, dep@),
            final(self)@.metadata.created_at == old(self)@.metadata.created_at,
            final(self)@.metadata.total_dependencies == final(self)@.dependencies.len(),
            final(self)@.metadata.total_size == old(self)@.metadata.total_size,
    {
        let now = current_timestamp();
        self.add_dependency_at(dep, now);
    }

    /// Removes the entry with the key `group_id:artifact_id:version` and
    /// says whether there was one. A removal notes `now` as the time of
    /// change; where nothing is removed, nothing changes.
    pub fn remove_dependency_at(
        &mut self,
        group_id: &str,
        artifact_id: &str,
        version: &str,
        now: String,
    ) -> (r: bool)
        requires
            old(self).wf(),
        ensures
            final(self).wf(),
            r == entry_keys(old(self)@.dependencies).contains(
                coordinate_key(group_id@, artifact_id@, version@),
            ),
            !r ==> final(self)@ == old(self)@,
            r ==> final(self)@ == (LockFileModel {
                version: old(self)@.version,
                dependencies: removed(
                    old(self)@.dependencies,
                    coordinate_key(group_id@, artifact_id@, version@),
                ),
                metadata: LockMetadataModel {
                    created_at: old(self)@.metadata.created_at,
                    updated_at: now@,
                    total_dependencies: (old(self)@.dependencies.len() - 1) as usize,
                    total_size: old(self)@.metadata.total_size,
                },
            }),
            r ==> final(self)@.metadata.total_dependencies == final(self)@.dependencies.len(),
    {
        let key = make_coordinate(group_id, artifact_id, version);
        let ghost entries = self@.dependencies;
        let ghost names = entry_keys(entries);
        match position_of(&self.keys, key.as_str()) {
            Some(i) => {
                proof {
                    assert(names[i as int] == key@);
                    lemma_first_exists(names, key@, i as int);
                }
                self.dependencies.remove(i);
                self.keys.remove(i);
                self.metadata.total_dependencies = self.dependencies.len();
                self.metadata.updated_at = now;
                proof {
                    assert(self@.dependencies =~= entries.remove(i as int));
                    assert(entry_keys(self@.dependencies) =~= names.remove(i as int));
                    assert(texts(self.keys@) =~= names.remove(i as int));
                    assert(names.remove(i as int).no_duplicates()) by {
                        let rest = names.remove(i as int);
                        assert forall|a: int, b: int|
                            0 <= a < rest.len() && 0 <= b < rest.len() && a != b implies rest[a]
                            != rest[b] by {
                            let x = if a < i { a } else { a + 1 };
                            let y = if b < i { b } else { b + 1 };
                            assert(rest[a] == names[x]);
                            assert(rest[b] == names[y]);
                        }
                    }
                }
                true
            },
            None => false,
        }
    }

    /// Removes the entry with the key `group_id:artifact_id:version`, notes
    /// the time, and says whether there was such an entry.
    pub fn remove_dependency(&mut self, group_id: &str, artifact_id: &str, version: &str) -> (r: bool)
        requires
            old(self).wf(),
        ensures
            final(self).wf(),
            r == entry_keys(old(self)@.dependencies).contains(
                coordinate_key(group_id@, artifact_id@, version@),
            ),
            !r ==> final(self)@ == old(self)@,
            final(self)@.version == old(self)@.version,
            final(self)@.dependencies == removed(
                old(self)@.dependencies,
                coordinate_key(group_id@, artifact_id@, version@),
            ),
            final(self)@.metadata.created_at == old(self)@.metadata.created_at,
            r ==> final(self)@.metadata.total_dependencies == final(self)@.dependencies.len(),
            final(self)@.metadata.total_size == old(self)@.metadata.total_size,
    {
        let now = current_timestamp();
        self.remove_dependency_at(group_id, artifact_id, version, now)
    }

    /// The entry with the key `group_id:artifact_id:version`.
    pub fn get_dependency(&self, group_id: &str, artifact_id: &str, version: &str) -> (r: Option<
        &LockedDependency,
    >)
        requires
            self.wf(),
        ensures
            match r {
                Some(d) => found(
                    self@.dependencies,
                    coordinate_key(group_id@, artifact_id@, version@),
                ) == Some(d@),
                None => found(self@.dependencies, coordinate_key(group_id@, artifact_id@, version@))
                    is None,
            },
    {
        let key = make_coordinate(group_id, artifact_id, version);
        let ghost names = entry_keys(self@.dependencies);
        match position_of(&self.keys, key.as_str()) {
            Some(i) => {
                proof {
                    assert(names[i as int] == key@);
                    lemma_first_exists(names, key@, i as int);
                }
                Some(&self.dependencies[i])
            },
            None => None,
        }
    }

    /// Whether there is an entry with the key `group_id:artifact_id:version`.
    pub fn has_dependency(&self, group_id: &str, artifact_id: &str, version: &str) -> (r: bool)
        requires
            self.wf(),
        ensures
            r == entry_keys(self@.dependencies).contains(
                coordinate_key(group_id@, artifact_id@, version@),
            ),
    {
        let key = make_coordinate(group_id, artifact_id, version);
        let ghost names = entry_keys(self@.dependencies);
        match position_of(&self.keys, key.as_str()) {
            Some(i) => {
                assert(names[i as int] == key@);
                true
            },
            None => false,
        }
    }

    /// Sets the checksum of the entry with the key
    /// `group_id:artifact_id:version` and notes `now` as the time of change.
    /// Says whether there was such an entry; where there is none, nothing
    /// changes.
    pub fn update_checksum_at(
        &mut self,
        group_id: &str,
        artifact_id: &str,
        version: &str,
        checksum: &str,
        now: String,
    ) -> (r: bool)
        requires
            old(self).wf(),
        ensures
            final(self).wf(),
            r == entry_keys(old(self)@.dependencies).contains(
                coordinate_key(group_id@, artifact_id@, version@),
            ),
            !r ==> final(self)@ == old(self)@,
            r ==> final(self)@ == (LockFileModel {
                dependencies: upserted(
                    old(self)@.dependencies,
                    LockedModel {
                        checksum: checksum@,
                        ..found(
                            old(self)@.dependencies,
                            coordinate_key(group_id@, artifact_id@, version@),
                        )->0
                    },
                ),
                metadata: LockMetadataModel { updated_at: now@, ..old(self)@.metadata },
                ..old(self)@
            }),
    {
        let key = make_coordinate(group_id, artifact_id, version);
        let ghost entries = self@.dependencies;
        let ghost names = entry_keys(entries);
        match position_of(&self.keys, key.as_str()) {
            Some(i) => {
                proof {
                    assert(names[i as int] == key@);
                    lemma_first_exists(names, key@, i as int);
                }
                let mut entry = self.dependencies[i].clone();
                entry.checksum = String::from_str(checksum);
                let ghost model = entry@;
                assert(model.key() == key@);
                self.dependencies[i] = entry;
                self.metadata.updated_at = now;
                proof {
                    assert(self@.dependencies =~= entries.update(i as int, model));
                    assert(entry_keys(self@.dependencies) =~= names);
                }
                true
            },
            None => false,
        }
    }

    /// Sets the checksum of the entry with the key
    /// `group_id:artifact_id:version` and notes the time. Where there is no
    /// such entry nothing changes; that is no error.
    pub fn update_checksum(
        &mut self,
        group_id: &str,
        artifact_id: &str,
        version: &str,
        checksum: &str,
    ) -> (r: Result<(), LockError>)
        requires
            old(self).wf(),
        ensures
            r is Ok,
            final(self).wf(),
            !entry_keys(old(self)@.dependencies).contains(
                coordinate_key(group_id@, artifact_id@, version@),
            ) ==> final(self)@ == old(self)@,
            entry_keys(old(self)@.dependencies).contains(
                coordinate_key(group_id@, artifact_id@, version@),
            ) ==> final(self)@.dependencies == upserted(
                old(self)@.dependencies,
                LockedModel {
                    checksum: checksum@,
                    ..found(old(self)@.dependencies, coordinate_key(group_id@, artifact_id@, version@))->0
                },
            ),
            final(self)@.version == old(self)@.version,
            final(self)@.metadata.created_at == old(self)@.metadata.created_at,
            final(self)@.metadata.total_dependencies == old(self)@.metadata.total_dependencies,
            final(self)@.metadata.total_size == old(self)@.metadata.total_size,
    {
        let now = current_timestamp();
        let _ = self.update_checksum_at(group_id, artifact_id, version, checksum, now);
        Ok(())
    }

    /// Sets the source URL of the entry with the key
    /// `group_id:artifact_id:version` and notes `now` as the time of change.
    /// Says whether there was such an entry; where there is none, nothing
    /// changes.
    pub fn update_url_at(
        &mut self,
        group_id: &str,
        artifact_id: &str,
        version: &str,
        url: &str,
        now: String,
    ) -> (r: bool)
        requires
            old(self).wf(),
        ensures
            final(self).wf(),
            r == entry_keys(old(self)@.dependencies).contains(
                coordinate_key(group_id@, artifact_id@, version@),
            ),
            !r ==> final(self)@ == old(self)@,
            r ==> final(self)@ == (LockFileModel {
                dependencies: upserted(
                    old(self)@.dependencies,
                    LockedModel {
                        url: url@,
                        ..found(
                            old(self)@.dependencies,
                            coordinate_key(group_id@, artifact_id@, version@),
                        )->0
                    },
                ),
                metadata: LockMetadataModel { updated_at: now@, ..old(self)@.metadata },
                ..old(self)@
            }),
    {
        let key = make_coordinate(group_id, artifact_id, version);
        let ghost entries = self@.dependencies;
        let ghost names = entry_keys(entries);
        match position_of(&self.keys, key.as_str()) {
            Some(i) => {
                proof {
                    assert(names[i as int] == key@);
                    lemma_first_exists(names, key@, i as int);
                }
                let mut entry = self.dependencies[i].clone();
                entry.url = String::from_str(url);
                let ghost model = entry@;
                assert(model.key() == key@);
                self.dependencies[i] = entry;
                self.metadata.updated_at = now;
                proof {
                    assert(self@.dependencies =~= entries.update(i as int, model));
                    assert(entry_keys(self@.dependencies) =~= names);
                }
                true
            },
            None => false,
        }
    }

    /// Sets the source URL of the entry with the key
    /// `group_id:artifact_id:version` and notes the time. Where there is no
    /// such entry nothing changes; that is no error.
    pub fn update_url(&mut self, group_id: &str, artifact_id: &str, version: &str, url: &str) -> (r:
        Result<(), LockError>)
        requires
            old(self).wf(),
        ensures
            r is Ok,
            final(self).wf(),
            !entry_keys(old(self)@.dependencies).contains(
                coordinate_key(group_id@, artifact_id@, version@),
            ) ==> final(self)@ == old(self)@,
            entry_keys(old(self)@.dependencies).contains(
                coordinate_key(group_id@, artifact_id@, version@),
            ) ==> final(self)@.dependencies == upserted(
                old(self)@.dependencies,
                LockedModel {
                    url: url@,
                    ..found(old(self)@.dependencies, coordinate_key(group_id@, artifact_id@, version@))->0
                },
            ),
            final(self)@.version == old(self)@.version,
            final(self)@.metadata.created_at == old(self)@.metadata.created_at,
            final(self)@.metadata.total_dependencies == old(self)@.metadata.total_dependencies,
            final(self)@.metadata.total_size == old(self)@.metadata.total_size,
    {
        let now = current_timestamp();
        let _ = self.update_url_at(group_id, artifact_id, version, url, now);
        Ok(())
    }

    /// The graph of the entries.
    fn graph(&self) -> (r: Vec<Vec<usize>>)
        requires
            self.wf(),
        ensures
            r.deep_view() == lock_graph(self@.dependencies),
            graph_ok(r.deep_view()),
            r@.len() == self@.dependencies.len(),
    {
        let mut graph: Vec<Vec<usize>> = Vec::new();
        let mut i: usize = 0;
        let ghost entries = self@.dependencies;
        while i < self.dependencies.len()
            invariant
                i <= self.dependencies.len(),
                entries == self@.dependencies,
                texts(self.keys@) == entry_keys(entries),
                graph@.len() == i,
                forall|u: int|
                    0 <= u < i ==> (#[trigger] graph@[u])@ == targets_spec(
                        entry_keys(entries),
                        entries[u].dependencies,
                    ),
            decreases self.dependencies.len() - i,
        {
            let entry = &self.dependencies[i];
            assert(entry@ == entries[i as int]);
            let targets = targets_of(&self.keys, &entry.dependencies);
            graph.push(targets);
            i = i + 1;
        }
        proof {
            assert(graph.deep_view() =~= lock_graph(entries)) by {
                assert forall|u: int| 0 <= u < graph@.len() implies graph.deep_view()[u] == lock_graph(
                    entries,
                )[u] by {
                    assert(graph.deep_view()[u] =~= graph@[u]@);
                }
            }
            lemma_lock_graph_ok(entries);
        }
        graph
    }

    /// The node that shows the entries as `plan` says.
    fn build_tree_node(&self, plan: &IndexTree, Ghost(graph): Ghost<Seq<Seq<usize>>>) -> (r:
        DependencyTreeNode)
        requires
            tree_ok(graph, *plan),
            graph.len() == self@.dependencies.len(),
        ensures
            mirrors(self@.dependencies, *plan, r),
        decreases plan,
    {
        let ghost entries = self@.dependencies;
        let mut children: Vec<DependencyTreeNode> = Vec::new();
        let mut k: usize = 0;
        while k < plan.children.len()
            invariant
                k <= plan.children.len(),
                entries == self@.dependencies,
                tree_ok(graph, *plan),
                graph.len() == entries.len(),
                children@.len() == k,
                mirrors_upto(entries, plan.children@, children@, k as int),
            decreases plan.children.len() - k,
        {
            proof {
                lemma_child_ok(
                    graph,
                    plan.index,
                    plan.depth,
                    plan.children@,
                    plan.children@.len() as int,
                    k as int,
                );
            }
            let ghost before = children@;
            let child = self.build_tree_node(&plan.children[k], Ghost(graph));
            children.push(child);
            proof {
                lemma_mirrors_push(entries, plan.children@, before, child, k as int);
                assert(children@[k as int] == child);
            }
            k = k + 1;
        }
        let entry = &self.dependencies[plan.index];
        assert(entry@ == entries[plan.index as int]);
        DependencyTreeNode {
            dependency: entry.clone(),
            children,
            depth: plan.depth,
            repeated: plan.repeated,
        }
    }

    /// The trees that show the entries with what they require. The walk
    /// starts from each entry, in order, that no earlier tree shows, and
    /// goes down the requirements that name an entry. An entry is expanded
    /// where the walk first reaches it and is a leaf marked as repeated
    /// wherever the walk reaches it again, so that requirements that lead
    /// round in a circle end there. A requirement that names no entry is
    /// left out; [`Self::missing_edges`] lists those.
    pub fn get_dependency_tree(&self) -> (r: Vec<DependencyTreeNode>)
        requires
            self.wf(),
        ensures
            shows_all(self@.dependencies, r@),
    {
        let graph = self.graph();
        let ghost entries = self@.dependencies;
        let n = self.dependencies.len();
        let mut roots: Vec<usize> = Vec::new();
        let mut i: usize = 0;
        while i < n
            invariant
                i <= n,
                roots@.len() == i,
                forall|j: int| 0 <= j < i ==> roots@[j] == j,
            decreases n - i,
        {
            roots.push(i);
            i = i + 1;
        }
        let plan = build_forest(&graph, &roots);
        assert(roots@ =~= in_order(entries.len()));
        let mut tree: Vec<DependencyTreeNode> = Vec::new();
        let mut t: usize = 0;
        while t < plan.len()
            invariant
                t <= plan.len(),
                entries == self@.dependencies,
                forest_ok(lock_graph(entries), plan@),
                lock_graph(entries).len() == entries.len(),
                tree@.len() == t,
                mirrors_upto(entries, plan@, tree@, t as int),
            decreases plan.len() - t,
        {
            let ghost before = tree@;
            let node = self.build_tree_node(&plan[t], Ghost(lock_graph(entries)));
            tree.push(node);
            proof {
                lemma_mirrors_push(entries, plan@, before, node, t as int);
                assert(tree@[t as int] == node);
            }
            t = t + 1;
        }
        proof {
            assert forall|v: usize| v < entries.len() implies #[trigger] expanded_all(plan@).contains(
                v,
            ) by {
                assert(roots@[v as int] == v);
            }
            assert(forest_ok(lock_graph(entries), plan@));
            assert(roots_ok(in_order(entries.len()), plan@, entries.len() as int, plan@.len() as int));
        }
        tree
    }

    /// The requirements, entry by entry, that name no entry of the store.
    pub fn missing_edges(&self) -> (r: Vec<String>)
        requires
            self.wf(),
        ensures
            texts(r@) == missing_upto(self@.dependencies, self@.dependencies.len() as int),
    {
        let mut out: Vec<String> = Vec::new();
        let mut i: usize = 0;
        let ghost entries = self@.dependencies;
        assert(texts(out@) =~= missing_upto(entries, 0));
        while i < self.dependencies.len()
            invariant
                i <= self.dependencies.len(),
                entries == self@.dependencies,
                texts(self.keys@) == entry_keys(entries),
                texts(out@) == missing_upto(entries, i as int),
            decreases self.dependencies.len() - i,
        {
            let entry = &self.dependencies[i];
            assert(entry@ == entries[i as int]);
            let ghost sofar = texts(out@);
            let mut more = dangling_of(&self.keys, &entry.dependencies);
            let ghost added = texts(more@);
            out.append(&mut more);
            assert(texts(out@) =~= sofar + added);
            i = i + 1;
        }
        out
    }

    /// Whether every requirement of every entry names an entry of the
    /// store. A store with a requirement that names none records a
    /// resolution that did not finish.
    pub fn is_complete(&self) -> (r: bool)
        requires
            self.wf(),
        ensures
            r == (missing_upto(self@.dependencies, self@.dependencies.len() as int).len() == 0),
    {
        self.missing_edges().len() == 0
    }

    /// The parts of the store for writing it out: the format version, the
    /// entries in order, each with the key under which it is filed, and the
    /// metadata block.
    pub fn parts(&self) -> (r: (String, Vec<(String, LockedDependency)>, LockMetadata))
        requires
            self.wf(),
        ensures
            r.0@ == self@.version,
            part_views(r.1@) == parts_of(self@.dependencies),
            r.2@ == self@.metadata,
    {
        let mut out: Vec<(String, LockedDependency)> = Vec::new();
        let mut i: usize = 0;
        let ghost entries = self@.dependencies;
        while i < self.dependencies.len()
            invariant
                i <= self.dependencies.len(),
                entries == self@.dependencies,
                out@.len() == i,
                forall|j: int|
                    0 <= j < i ==> (#[trigger] out@[j]).0@ == entries[j].key() && out@[j].1@ == entries[j],
            decreases self.dependencies.len() - i,
        {
            let entry = &self.dependencies[i];
            assert(entry@ == entries[i as int]);
            out.push((entry.coordinate(), entry.clone()));
            i = i + 1;
        }
        assert(part_views(out@) =~= parts_of(entries));
        (self.version.clone(), out, self.metadata.clone())
    }

    /// Makes a store of parts that were read: the format version, the
    /// entries, each with the key under which it was filed, and the
    /// metadata block. The entries keep their order. Parts in which an
    /// entry is filed under a key that is not its own, or in which a key
    /// occurs twice, make no store.
    pub fn from_parts(version: String, parts: Vec<(String, LockedDependency)>, metadata: LockMetadata) -> (r:
        Result<LockFile, LockError>)
        ensures
            match r {
                Ok(lock) => {
                    &&& parts_ok(part_views(parts@))
                    &&& lock.wf()
                    &&& lock@ == (LockFileModel {
                        version: version@,
                        dependencies: entries_of(part_views(parts@)),
                        metadata: metadata@,
                    })
                },
                Err(LockError::KeyMismatch(key)) => exists|i: int|
                    0 <= i < parts@.len() && (#[trigger] part_views(parts@)[i]).0 == key@
                        && part_views(parts@)[i].1.key() != key@,
                Err(LockError::DuplicateKey(key)) => exists|i: int, j: int|
                    0 <= i < j < parts@.len() && (#[trigger] part_views(parts@)[i]).0 == key@ && (
                    #[trigger] part_views(parts@)[j]).0 == key@,
            },
    {
        let ghost views = part_views(parts@);
        let mut dependencies: Vec<LockedDependency> = Vec::new();
        let mut keys: Vec<String> = Vec::new();
        let mut i: usize = 0;
        while i < parts.len()
            invariant
                i <= parts.len(),
                views == part_views(parts@),
                dependencies@.len() == i,
                keys@.len() == i,
                forall|j: int| 0 <= j < i ==> (#[trigger] dependencies@[j])@ == views[j].1,
                forall|j: int| 0 <= j < i ==> (#[trigger] keys@[j])@ == views[j].0,
                forall|j: int| 0 <= j < i ==> (#[trigger] views[j]).0 == views[j].1.key(),
                forall|a: int, b: int|
                    0 <= a < b < i ==> (#[trigger] views[a]).0 != (#[trigger] views[b]).0,
            decreases parts.len() - i,
        {
            let part = &parts[i];
            assert(views[i as int] == (part.0@, part.1@));
            let own = part.1.coordinate();
            if own != part.0 {
                return Err(LockError::KeyMismatch(part.0.clone()));
            }
            match position_of(&keys, part.0.as_str()) {
                Some(at) => {
                    assert(views[at as int].0 == part.0@);
                    return Err(LockError::DuplicateKey(part.0.clone()));
                },
                None => {
                    proof {
                        assert forall|a: int| 0 <= a < i implies (#[trigger] views[a]).0 != views[i as int].0 by {
                            if views[a].0 == views[i as int].0 {
                                assert(texts(keys@)[a] == part.0@);
                            }
                        }
                    }
                },
            }
            dependencies.push(part.1.clone());
            keys.push(part.0.clone());
            i = i + 1;
        }
        let lock = LockFile { version, dependencies, keys, metadata };
        proof {
            assert(lock@.dependencies =~= entries_of(views));
            assert(texts(lock.keys@) =~= entry_keys(lock@.dependencies));
            assert(entry_keys(lock@.dependencies).no_duplicates()) by {
                let names = entry_keys(lock@.dependencies);
                assert forall|a: int, b: int|
                    0 <= a < names.len() && 0 <= b < names.len() && a != b implies names[a] != names[b] by {
                    assert(names[a] == views[a].0);
                    assert(names[b] == views[b].0);
                    if a < b {
                        assert(views[a].0 != views[b].0);
                    } else {
                        assert(views[b].0 != views[a].0);
                    }
                }
            }
        }
        Ok(lock)
    }

    /// Records a resolution: puts each resolved dependency of `resolver`
    /// into the store, in the order in which they were resolved, and notes
    /// `now` as the time of change.
    pub fn record_resolution_at(&mut self, resolver: &DependencyResolver, now: String)
        requires
            old(self).wf(),
            resolver.wf(),
        ensures
            final(self).wf(),
            final(self)@.version == old(self)@.version,
            final(self)@.dependencies == recorded(
                old(self)@.dependencies,
                resolver@,
                resolver@.len() as int,
            ),
            final(self)@.metadata.created_at == old(self)@.metadata.created_at,
            final(self)@.metadata.updated_at == now@,
            final(self)@.metadata.total_dependencies == final(self)@.dependencies.len(),
            final(self)@.metadata.total_size == old(self)@.metadata.total_size,
    {
        let entries = resolver.entries();
        let ghost memo = resolver@;
        let ghost start = self@.dependencies;
        let mut i: usize = 0;
        while i < entries.len()
            invariant
                i <= entries.len(),
                memo == entries.deep_view(),
                memo == resolver@,
                resolver.wf(),
                self.wf(),
                self@.version == old(self)@.version,
                self@.dependencies == recorded(start, memo, i as int),
                self@.metadata.created_at == old(self)@.metadata.created_at,
                self@.metadata.total_size == old(self)@.metadata.total_size,
            decreases entries.len() - i,
        {
            let dep = locked_from(resolver, i);
            self.add_dependency_at(dep, now.clone());
            i = i + 1;
        }
        self.metadata.total_dependencies = self.dependencies.len();
        self.metadata.updated_at = now;
    }

    /// Records a resolution and notes the time.
    pub fn record_resolution(&mut self, resolver: &DependencyResolver)
        requires
            old(self).wf(),
            resolver.wf(),
        ensures
            final(self).wf(),
            final(self)@.version == old(self)@.version,
            final(self)@.dependencies == recorded(
                old(self)@.dependencies,
                resolver@,
                resolver@.len() as int,
            ),
            final(self)@.metadata.created_at == old(self)@.metadata.created_at,
            final(self)@.metadata.total_dependencies == final(self)@.dependencies.len(),
            final(self)@.metadata.total_size == old(self)@.metadata.total_size,
    {
        let now = current_timestamp();
        self.record_resolution_at(resolver, now);
    }
}

} // verus!
