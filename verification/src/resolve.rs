//! The resolver: transitive expansion of declared dependencies with cycle
//! detection and memoisation, conflict detection and install ordering.
//!
//! Resolved dependencies are kept in the order in which their expansion
//! finished, so each one stands behind everything that it requires.

use crate::dependency::{Dependency, DependencyModel, keys_of, lemma_key_injective};
use crate::metadata::{
    MetadataEntryModel, MetadataSource, all_listed, always_available, answer, children,
    lemma_answer_by_coordinate, lemma_available_answers, lemma_children_listed,
    lemma_listed_pruned, lemma_pruned_all, lemma_pruned_listed, prune,
};
use crate::graph::{
    IndexTree, build_forest, expanded_all, forest_ok, graph_ok, lemma_child_ok,
    lemma_targets_in_range, roots_ok, targets_of, targets_spec, tree_ok,
};
use crate::text::{contains_text, position_of, texts};
use vstd::prelude::*;

verus! {

/// Why a resolution was given up.
#[derive(Debug)]
pub enum ResolveError {
    /// The expansion came back to a coordinate that it was still expanding.
    /// Carries that coordinate's key.
    Cycle(String),
    /// The metadata source gave no answer in time for the coordinate with
    /// this key.
    MetadataTimeout(String),
}

impl ResolveError {
    /// The key that the error names.
    pub open spec fn key(self) -> Seq<char> {
        match self {
            ResolveError::Cycle(k) => k@,
            ResolveError::MetadataTimeout(k) => k@,
        }
    }
}

/// A resolved dependency with the keys of what its expansion requires.
#[derive(Debug)]
pub struct ResolvedDependency {
    pub dependency: Dependency,
    pub edges: Vec<String>,
}

/// What a [`ResolvedDependency`] stands for.
pub struct ResolvedModel {
    pub dependency: DependencyModel,
    pub edges: Seq<Seq<char>>,
}

impl View for ResolvedDependency {
    type V = ResolvedModel;

    open spec fn view(&self) -> ResolvedModel {
        ResolvedModel { dependency: self.dependency@, edges: texts(self.edges@) }
    }
}

impl DeepView for ResolvedDependency {
    type V = ResolvedModel;

    open spec fn deep_view(&self) -> ResolvedModel {
        self@
    }
}

/// The keys of the resolved dependencies, in order.
pub open spec fn memo_keys(memo: Seq<ResolvedModel>) -> Seq<Seq<char>> {
    Seq::new(memo.len(), |i: int| memo[i].dependency.key())
}

/// Edge `k` of entry `i` is the key of an earlier entry.
pub open spec fn edge_resolved(memo: Seq<ResolvedModel>, i: int, k: int) -> bool {
    exists|j: int| 0 <= j < i && memo_keys(memo)[j] == memo[i].edges[k]
}

/// In `order`, the key that edge `k` of entry `i` names stands before
/// position `i`, the position of the entry's own key.
pub open spec fn placed_before(order: Seq<Seq<char>>, memo: Seq<ResolvedModel>, i: int, k: int) -> bool {
    exists|j: int| 0 <= j < i && order[j] == memo[i].edges[k]
}

/// No key occurs twice, and every edge leads to an earlier entry.
pub open spec fn memo_wf(memo: Seq<ResolvedModel>) -> bool {
    &&& memo_keys(memo).no_duplicates()
    &&& forall|i: int, k: int|
        0 <= i < memo.len() && 0 <= k < memo[i].edges.len() ==> #[trigger] edge_resolved(memo, i, k)
}

/// `a` is the beginning of `b`.
pub open spec fn is_prefix(a: Seq<ResolvedModel>, b: Seq<ResolvedModel>) -> bool {
    &&& a.len() <= b.len()
    &&& forall|i: int| 0 <= i < a.len() ==> a[i] == b[i]
}

/// The edges of entry `i` are the keys of its children under `table`: what
/// the source lists for it, less what it excludes.
pub open spec fn entry_expanded(table: Seq<MetadataEntryModel>, memo: Seq<ResolvedModel>, i: int) -> bool {
    memo[i].edges == keys_of(children(table, memo[i].dependency))
}

/// From index `from` on, every entry has the children under `table` as its
/// edges.
pub open spec fn expanded_with(
    table: Seq<MetadataEntryModel>,
    memo: Seq<ResolvedModel>,
    from: int,
) -> bool {
    forall|i: int| from <= i < memo.len() ==> #[trigger] entry_expanded(table, memo, i)
}

/// Entry `i` is one of `specs` or a child, under `table`, of a later entry.
pub open spec fn entry_justified(
    table: Seq<MetadataEntryModel>,
    specs: Seq<DependencyModel>,
    memo: Seq<ResolvedModel>,
    i: int,
) -> bool {
    ||| specs.contains(memo[i].dependency)
    ||| exists|j: int|
        i < j < memo.len() && #[trigger] children(table, memo[j].dependency).contains(
            memo[i].dependency,
        )
}

/// From index `from` on, each entry is one of `specs` or a child, under
/// `table`, of a later entry: nothing was resolved that nothing asked for.
pub open spec fn justified(
    table: Seq<MetadataEntryModel>,
    specs: Seq<DependencyModel>,
    memo: Seq<ResolvedModel>,
    from: int,
) -> bool {
    forall|i: int| from <= i < memo.len() ==> #[trigger] entry_justified(table, specs, memo, i)
}

/// Each element of `path` but the first is a child, under `table`, of the
/// one before it.
pub open spec fn is_chain(table: Seq<MetadataEntryModel>, path: Seq<DependencyModel>) -> bool {
    forall|t: int|
        0 <= t < path.len() - 1 ==> #[trigger] children(table, path[t]).contains(path[t + 1])
}

/// A chain of requirements leads from one of `specs` to a coordinate with
/// key `key` that the chain has passed before; nothing on the chain is among
/// `known`.
pub open spec fn cycle_witness(
    table: Seq<MetadataEntryModel>,
    specs: Seq<DependencyModel>,
    known: Seq<ResolvedModel>,
    key: Seq<char>,
) -> bool {
    exists|p: Seq<DependencyModel>|
        {
            &&& #[trigger] is_chain(table, p)
            &&& p.len() >= 2
            &&& specs.contains(p[0])
            &&& p.last().key() == key
            &&& keys_of(p.drop_last()).contains(key)
            &&& forall|t: int| 0 <= t < p.len() ==> !memo_keys(known).contains(#[trigger] p[t].key())
        }
}

/// A chain of requirements leads from one of `specs` to a coordinate with
/// key `key` for which the source is unavailable; nothing on the chain is
/// among `known`.
pub open spec fn timeout_witness(
    table: Seq<MetadataEntryModel>,
    specs: Seq<DependencyModel>,
    known: Seq<ResolvedModel>,
    key: Seq<char>,
) -> bool {
    exists|p: Seq<DependencyModel>|
        {
            &&& #[trigger] is_chain(table, p)
            &&& p.len() >= 1
            &&& specs.contains(p[0])
            &&& p.last().key() == key
            &&& answer(table, p.last()) is None
            &&& forall|t: int| 0 <= t < p.len() ==> !memo_keys(known).contains(#[trigger] p[t].key())
        }
}

/// What an error of the resolver shows about its input.
pub open spec fn error_witness(
    table: Seq<MetadataEntryModel>,
    specs: Seq<DependencyModel>,
    known: Seq<ResolvedModel>,
    e: ResolveError,
) -> bool {
    match e {
        ResolveError::Cycle(k) => cycle_witness(table, specs, known, k@),
        ResolveError::MetadataTimeout(k) => timeout_witness(table, specs, known, k@),
    }
}

/// Entry `i` is one of `specs`, a child of a later entry, or a child of
/// something on `path`.
pub open spec fn entry_justified_under(
    table: Seq<MetadataEntryModel>,
    specs: Seq<DependencyModel>,
    path: Seq<DependencyModel>,
    memo: Seq<ResolvedModel>,
    i: int,
) -> bool {
    ||| entry_justified(table, specs, memo, i)
    ||| exists|t: int|
        0 <= t < path.len() && #[trigger] children(table, path[t]).contains(memo[i].dependency)
}

/// While an expansion is under way: each entry from `from` on is one of
/// `specs`, a child of a later entry, or a child of something on `path`.
pub open spec fn justified_under(
    table: Seq<MetadataEntryModel>,
    specs: Seq<DependencyModel>,
    path: Seq<DependencyModel>,
    memo: Seq<ResolvedModel>,
    from: int,
) -> bool {
    forall|i: int|
        from <= i < memo.len() ==> #[trigger] entry_justified_under(table, specs, path, memo, i)
}

/// A key of a prefix is a key of the whole.
pub proof fn lemma_prefix_keys(a: Seq<ResolvedModel>, b: Seq<ResolvedModel>, key: Seq<char>)
    requires
        is_prefix(a, b),
        memo_keys(a).contains(key),
    ensures
        memo_keys(b).contains(key),
{
    let i = choose|i: int| 0 <= i < a.len() && memo_keys(a)[i] == key;
    assert(memo_keys(b)[i] == key);
}

/// Keys that are pairwise distinct and, but for the first, all among
/// `universe` are at most one more than `universe` has elements.
pub proof fn lemma_path_bound(path: Seq<DependencyModel>, universe: Seq<Seq<char>>)
    requires
        keys_of(path).no_duplicates(),
        forall|t: int| 1 <= t < path.len() ==> universe.contains(#[trigger] path[t].key()),
    ensures
        path.len() <= universe.len() + 1,
{
    if path.len() > 0 {
        let tail = keys_of(path).drop_first();
        assert(tail.no_duplicates()) by {
            assert forall|i: int, j: int| 0 <= i < tail.len() && 0 <= j < tail.len() && i != j implies tail[i]
                != tail[j] by {
                assert(tail[i] == keys_of(path)[i + 1]);
                assert(tail[j] == keys_of(path)[j + 1]);
            }
        }
        tail.unique_seq_to_set();
        universe.lemma_cardinality_of_set();
        assert(tail.to_set().subset_of(universe.to_set())) by {
            assert forall|k: Seq<char>| tail.to_set().contains(k) implies universe.to_set().contains(
                k,
            ) by {
                let i = choose|i: int| 0 <= i < tail.len() && tail[i] == k;
                assert(path[i + 1].key() == k);
            }
        }
        vstd::set_lib::lemma_len_subset(tail.to_set(), universe.to_set());
    }
}

/// What holds of the memo in the middle of an expansion that started from
/// the memo `start` and has come down `path`.
#[verifier::opaque]
pub open spec fn walk_inv(
    table: Seq<MetadataEntryModel>,
    specs: Seq<DependencyModel>,
    path: Seq<DependencyModel>,
    start: Seq<ResolvedModel>,
    memo: Seq<ResolvedModel>,
) -> bool {
    &&& memo_wf(memo)
    &&& is_prefix(start, memo)
    &&& expanded_with(table, memo, start.len() as int)
    &&& is_chain(table, path)
    &&& (path.len() > 0 ==> specs.contains(path[0]))
    &&& keys_of(path).no_duplicates()
    &&& forall|t: int| 0 <= t < path.len() ==> !memo_keys(memo).contains(#[trigger] path[t].key())
    &&& forall|t: int|
        1 <= t < path.len() ==> keys_of(all_listed(table)).contains(#[trigger] path[t].key())
    &&& justified_under(table, specs, path, memo, start.len() as int)
}

/// The memo of an expansion under way begins with the memo it started from.
pub proof fn lemma_walk_prefix(
    table: Seq<MetadataEntryModel>,
    specs: Seq<DependencyModel>,
    path: Seq<DependencyModel>,
    start: Seq<ResolvedModel>,
    memo: Seq<ResolvedModel>,
)
    requires
        walk_inv(table, specs, path, start, memo),
    ensures
        is_prefix(start, memo),
        memo_wf(memo),
{
    reveal(walk_inv);
}

/// The expansion may go down from `path` to a requirement `dep` that is
/// neither resolved nor on the path.
pub proof fn lemma_walk_descend(
    table: Seq<MetadataEntryModel>,
    specs: Seq<DependencyModel>,
    path: Seq<DependencyModel>,
    start: Seq<ResolvedModel>,
    memo: Seq<ResolvedModel>,
    dep: DependencyModel,
)
    requires
        walk_inv(table, specs, path, start, memo),
        path.len() == 0 ==> specs.contains(dep),
        path.len() > 0 ==> children(table, path.last()).contains(dep),
        !memo_keys(memo).contains(dep.key()),
        !keys_of(path).contains(dep.key()),
    ensures
        walk_inv(table, specs, path.push(dep), start, memo),
        path.len() + 1 <= all_listed(table).len() + 1,
{
    reveal(walk_inv);
    let down = path.push(dep);
    assert forall|t: int| 0 <= t < down.len() - 1 implies #[trigger] children(table, down[t]).contains(
        down[t + 1],
    ) by {
        if t < path.len() - 1 {
            assert(children(table, path[t]).contains(path[t + 1]));
        }
    }
    assert(keys_of(down).no_duplicates()) by {
        assert forall|i: int, j: int|
            0 <= i < down.len() && 0 <= j < down.len() && i != j implies keys_of(down)[i] != keys_of(
            down,
        )[j] by {
            if i < path.len() && j < path.len() {
                assert(keys_of(path)[i] != keys_of(path)[j]);
            } else if i < path.len() {
                assert(keys_of(path)[i] == down[i].key());
            } else {
                assert(keys_of(path)[j] == down[j].key());
            }
        }
    }
    assert forall|t: int| 0 <= t < down.len() implies !memo_keys(memo).contains(
        #[trigger] down[t].key(),
    ) by {
        if t < path.len() {
            assert(down[t] == path[t]);
        }
    }
    assert forall|t: int| 1 <= t < down.len() implies keys_of(all_listed(table)).contains(
        #[trigger] down[t].key(),
    ) by {
        if t == path.len() {
            lemma_children_listed(table, path.last(), dep);
            let m = choose|m: int| 0 <= m < all_listed(table).len() && all_listed(table)[m] == dep;
            assert(keys_of(all_listed(table))[m] == dep.key());
        } else {
            assert(down[t] == path[t]);
        }
    }
    assert forall|a: int| start.len() <= a < memo.len() implies #[trigger] entry_justified_under(
        table,
        specs,
        down,
        memo,
        a,
    ) by {
        assert(entry_justified_under(table, specs, path, memo, a));
        if !entry_justified(table, specs, memo, a) {
            let t = choose|t: int|
                0 <= t < path.len() && #[trigger] children(table, path[t]).contains(
                    memo[a].dependency,
                );
            assert(down[t] == path[t]);
            assert(children(table, down[t]).contains(memo[a].dependency));
        }
    }
    lemma_path_bound(down, keys_of(all_listed(table)));
}

/// Coming back to a key on the path shows a cycle.
pub proof fn lemma_walk_cycle(
    table: Seq<MetadataEntryModel>,
    specs: Seq<DependencyModel>,
    path: Seq<DependencyModel>,
    start: Seq<ResolvedModel>,
    memo: Seq<ResolvedModel>,
    dep: DependencyModel,
)
    requires
        walk_inv(table, specs, path, start, memo),
        path.len() == 0 ==> specs.contains(dep),
        path.len() > 0 ==> children(table, path.last()).contains(dep),
        !memo_keys(memo).contains(dep.key()),
        keys_of(path).contains(dep.key()),
    ensures
        cycle_witness(table, specs, start, dep.key()),
{
    reveal(walk_inv);
    let down = path.push(dep);
    assert(path.len() > 0);
    assert(down.drop_last() =~= path);
    assert forall|t: int| 0 <= t < down.len() - 1 implies #[trigger] children(table, down[t]).contains(
        down[t + 1],
    ) by {
        if t < path.len() - 1 {
            assert(children(table, path[t]).contains(path[t + 1]));
        }
    }
    assert forall|t: int| 0 <= t < down.len() implies !memo_keys(start).contains(
        #[trigger] down[t].key(),
    ) by {
        if memo_keys(start).contains(down[t].key()) {
            lemma_prefix_keys(start, memo, down[t].key());
            if t < path.len() {
                assert(down[t] == path[t]);
            }
        }
    }
    assert(is_chain(table, down));
}

/// An unavailable lookup below the path shows in the error.
pub proof fn lemma_walk_timeout(
    table: Seq<MetadataEntryModel>,
    specs: Seq<DependencyModel>,
    path: Seq<DependencyModel>,
    start: Seq<ResolvedModel>,
    memo: Seq<ResolvedModel>,
    dep: DependencyModel,
)
    requires
        walk_inv(table, specs, path, start, memo),
        path.len() == 0 ==> specs.contains(dep),
        path.len() > 0 ==> children(table, path.last()).contains(dep),
        !memo_keys(memo).contains(dep.key()),
        answer(table, dep) is None,
    ensures
        timeout_witness(table, specs, start, dep.key()),
{
    reveal(walk_inv);
    let down = path.push(dep);
    assert forall|t: int| 0 <= t < down.len() - 1 implies #[trigger] children(table, down[t]).contains(
        down[t + 1],
    ) by {
        if t < path.len() - 1 {
            assert(children(table, path[t]).contains(path[t + 1]));
        }
    }
    assert forall|t: int| 0 <= t < down.len() implies !memo_keys(start).contains(
        #[trigger] down[t].key(),
    ) by {
        if memo_keys(start).contains(down[t].key()) {
            lemma_prefix_keys(start, memo, down[t].key());
            if t < path.len() {
                assert(down[t] == path[t]);
            }
        }
    }
    assert(is_chain(table, down));
}

/// Once everything that `dep` requires is resolved, `dep` is recorded and
/// the expansion is back on `path`.
pub proof fn lemma_walk_finish(
    table: Seq<MetadataEntryModel>,
    specs: Seq<DependencyModel>,
    path: Seq<DependencyModel>,
    start: Seq<ResolvedModel>,
    memo: Seq<ResolvedModel>,
    dep: DependencyModel,
)
    requires
        walk_inv(table, specs, path.push(dep), start, memo),
        path.len() == 0 ==> specs.contains(dep),
        path.len() > 0 ==> children(table, path.last()).contains(dep),
        forall|k: int|
            0 <= k < children(table, dep).len() ==> memo_keys(memo).contains(
                #[trigger] children(table, dep)[k].key(),
            ),
    ensures
        walk_inv(
            table,
            specs,
            path,
            start,
            memo.push(
                ResolvedModel { dependency: dep, edges: keys_of(children(table, dep)) },
            ),
        ),
{
    reveal(walk_inv);
    let down = path.push(dep);
    let below = children(table, dep);
    let entry = ResolvedModel { dependency: dep, edges: keys_of(below) };
    let now = memo.push(entry);
    assert(down[path.len() as int] == dep);
    assert(!memo_keys(memo).contains(dep.key()));
    assert(memo_keys(now) =~= memo_keys(memo).push(dep.key()));
    assert(memo_keys(now).no_duplicates());
    assert forall|a: int, k: int|
        0 <= a < now.len() && 0 <= k < now[a].edges.len() implies #[trigger] edge_resolved(
        now,
        a,
        k,
    ) by {
        if a == memo.len() {
            assert(memo_keys(memo).contains(below[k].key()));
            let j = choose|j: int| 0 <= j < memo.len() && memo_keys(memo)[j] == below[k].key();
            assert(memo_keys(now)[j] == now[a].edges[k]);
        } else {
            assert(edge_resolved(memo, a, k));
            let j = choose|j: int| 0 <= j < a && memo_keys(memo)[j] == memo[a].edges[k];
            assert(memo_keys(now)[j] == now[a].edges[k]);
        }
    }
    assert forall|a: int| start.len() <= a < now.len() implies #[trigger] entry_expanded(
        table,
        now,
        a,
    ) by {
        if a < memo.len() {
            assert(entry_expanded(table, memo, a));
        }
    }
    assert(is_chain(table, path)) by {
        assert forall|t: int| 0 <= t < path.len() - 1 implies #[trigger] children(
            table,
            path[t],
        ).contains(path[t + 1]) by {
            assert(children(table, down[t]).contains(down[t + 1]));
        }
    }
    assert(path.len() > 0 ==> specs.contains(path[0])) by {
        if path.len() > 0 {
            assert(down[0] == path[0]);
        }
    }
    assert(keys_of(path).no_duplicates()) by {
        assert forall|i: int, j: int|
            0 <= i < path.len() && 0 <= j < path.len() && i != j implies keys_of(path)[i] != keys_of(
            path,
        )[j] by {
            assert(keys_of(down)[i] != keys_of(down)[j]);
        }
    }
    assert forall|t: int| 0 <= t < path.len() implies !memo_keys(now).contains(
        #[trigger] path[t].key(),
    ) by {
        assert(down[t] == path[t]);
        if memo_keys(now).contains(path[t].key()) {
            let j = choose|j: int| 0 <= j < now.len() && memo_keys(now)[j] == path[t].key();
            if j < memo.len() {
                assert(memo_keys(memo)[j] == path[t].key());
            } else {
                assert(keys_of(down)[t] != keys_of(down)[path.len() as int]);
            }
        }
    }
    assert forall|t: int| 1 <= t < path.len() implies keys_of(all_listed(table)).contains(
        #[trigger] path[t].key(),
    ) by {
        assert(down[t] == path[t]);
    }
    assert forall|a: int| start.len() <= a < now.len() implies #[trigger] entry_justified_under(
        table,
        specs,
        path,
        now,
        a,
    ) by {
        if a == memo.len() {
            if path.len() > 0 {
                assert(children(table, path[path.len() - 1]).contains(now[a].dependency));
            }
        } else {
            assert(now[a] == memo[a]);
            assert(entry_justified_under(table, specs, down, memo, a));
            if specs.contains(memo[a].dependency) {
            } else if entry_justified(table, specs, memo, a) {
                let j = choose|j: int|
                    a < j < memo.len() && #[trigger] children(table, memo[j].dependency).contains(
                        memo[a].dependency,
                    );
                assert(now[j] == memo[j]);
                assert(children(table, now[j].dependency).contains(now[a].dependency));
            } else {
                let t = choose|t: int|
                    0 <= t < down.len() && #[trigger] children(table, down[t]).contains(
                        memo[a].dependency,
                    );
                if t < path.len() {
                    assert(down[t] == path[t]);
                    assert(children(table, path[t]).contains(now[a].dependency));
                } else {
                    let j = memo.len() as int;
                    assert(now[j].dependency == dep);
                    assert(children(table, now[j].dependency).contains(now[a].dependency));
                }
            }
        }
    }
}

/// A prefix of a prefix is a prefix.
pub proof fn lemma_prefix_trans(a: Seq<ResolvedModel>, b: Seq<ResolvedModel>, c: Seq<ResolvedModel>)
    requires
        is_prefix(a, b),
        is_prefix(b, c),
    ensures
        is_prefix(a, c),
{
}

/// What a successful resolution of `specs` makes of the memo `before`.
pub open spec fn resolved_from(
    table: Seq<MetadataEntryModel>,
    specs: Seq<DependencyModel>,
    before: Seq<ResolvedModel>,
    after: Seq<ResolvedModel>,
) -> bool {
    &&& is_prefix(before, after)
    &&& memo_wf(after)
    &&& forall|k: int| 0 <= k < specs.len() ==> memo_keys(after).contains(#[trigger] specs[k].key())
    &&& expanded_with(table, after, before.len() as int)
    &&& justified(table, specs, after, before.len() as int)
}

/// A memo that is in order is a fit start for an expansion.
pub proof fn lemma_walk_start(
    table: Seq<MetadataEntryModel>,
    specs: Seq<DependencyModel>,
    memo: Seq<ResolvedModel>,
)
    requires
        memo_wf(memo),
    ensures
        walk_inv(table, specs, Seq::empty(), memo, memo),
{
    reveal(walk_inv);
    assert(keys_of(Seq::<DependencyModel>::empty()) =~= Seq::<Seq<char>>::empty());
}

/// When the expansion is back at the top, every new entry is justified.
pub proof fn lemma_walk_end(
    table: Seq<MetadataEntryModel>,
    specs: Seq<DependencyModel>,
    start: Seq<ResolvedModel>,
    memo: Seq<ResolvedModel>,
)
    requires
        walk_inv(table, specs, Seq::empty(), start, memo),
    ensures
        is_prefix(start, memo),
        memo_wf(memo),
        expanded_with(table, memo, start.len() as int),
        justified(table, specs, memo, start.len() as int),
{
    reveal(walk_inv);
    assert forall|i: int| start.len() <= i < memo.len() implies #[trigger] entry_justified(
        table,
        specs,
        memo,
        i,
    ) by {
        assert(entry_justified_under(table, specs, Seq::empty(), memo, i));
    }
}

/// Entry `i` is wanted by `roots`: its key is one of them, or a later entry
/// that is wanted has an edge to it.
pub open spec fn needed(memo: Seq<ResolvedModel>, roots: Seq<Seq<char>>, i: int) -> bool
    decreases memo.len() - i,
{
    &&& 0 <= i < memo.len()
    &&& (roots.contains(memo_keys(memo)[i]) || exists|j: int|
        i < j < memo.len() && needed(memo, roots, j) && (#[trigger] memo[j]).edges.contains(
            memo_keys(memo)[i],
        ))
}

/// The dependencies among the first `n` entries that `roots` want, in order.
pub open spec fn closure_upto(memo: Seq<ResolvedModel>, roots: Seq<Seq<char>>, n: int) -> Seq<
    DependencyModel,
>
    decreases n,
{
    if n <= 0 {
        Seq::empty()
    } else {
        let init = closure_upto(memo, roots, n - 1);
        if needed(memo, roots, n - 1) {
            init.push(memo[n - 1].dependency)
        } else {
            init
        }
    }
}

/// Every resolved dependency that `roots` require, directly or through
/// others, each once and behind what it requires.
pub open spec fn closure(memo: Seq<ResolvedModel>, roots: Seq<Seq<char>>) -> Seq<DependencyModel> {
    closure_upto(memo, roots, memo.len() as int)
}

/// Entry `i` is marked once the entries from `from` on have passed their
/// marks down: its key is a root, or a wanted entry at `from` or later has an
/// edge to it.
pub open spec fn marked_by(memo: Seq<ResolvedModel>, roots: Seq<Seq<char>>, i: int, from: int) -> bool {
    ||| roots.contains(memo_keys(memo)[i])
    ||| exists|j: int|
        i < j < memo.len() && from <= j && needed(memo, roots, j) && (#[trigger] memo[j]).edges.contains(
            memo_keys(memo)[i],
        )
}

/// Once every later entry has passed its mark down, an entry is marked
/// exactly when it is wanted.
pub proof fn lemma_marked_needed(memo: Seq<ResolvedModel>, roots: Seq<Seq<char>>, i: int, from: int)
    requires
        0 <= i < memo.len(),
        from <= i + 1,
    ensures
        marked_by(memo, roots, i, from) == needed(memo, roots, i),
{
    let key = memo_keys(memo)[i];
    if marked_by(memo, roots, i, from) && !roots.contains(key) {
        let j = choose|j: int|
            i < j < memo.len() && from <= j && needed(memo, roots, j) && (#[trigger] memo[j]).edges.contains(
                key,
            );
        assert(i < j < memo.len() && needed(memo, roots, j) && memo[j].edges.contains(key));
    }
    if needed(memo, roots, i) && !roots.contains(key) {
        let j = choose|j: int|
            i < j < memo.len() && needed(memo, roots, j) && (#[trigger] memo[j]).edges.contains(key);
        assert(i < j < memo.len() && from <= j && needed(memo, roots, j) && memo[j].edges.contains(
            key,
        ));
    }
}

/// An entry that is not wanted passes nothing down.
pub proof fn lemma_mark_skip(memo: Seq<ResolvedModel>, roots: Seq<Seq<char>>, c: int, i: int)
    requires
        0 <= c < memo.len(),
        0 <= i < memo.len(),
        !needed(memo, roots, c),
    ensures
        marked_by(memo, roots, i, c) == marked_by(memo, roots, i, c + 1),
{
}

/// A wanted entry marks exactly the targets of its edges, all of which
/// stand before it.
pub proof fn lemma_mark_step(memo: Seq<ResolvedModel>, roots: Seq<Seq<char>>, c: int, i: int)
    requires
        memo_wf(memo),
        0 <= c < memo.len(),
        0 <= i < memo.len(),
        needed(memo, roots, c),
    ensures
        marked_by(memo, roots, i, c) == (marked_by(memo, roots, i, c + 1) || memo[c].edges.contains(
            memo_keys(memo)[i],
        )),
        memo[c].edges.contains(memo_keys(memo)[i]) ==> i < c,
{
    if memo[c].edges.contains(memo_keys(memo)[i]) {
        let k = choose|k: int| 0 <= k < memo[c].edges.len() && memo[c].edges[k] == memo_keys(memo)[i];
        assert(edge_resolved(memo, c, k));
        let j = choose|j: int| 0 <= j < c && memo_keys(memo)[j] == memo[c].edges[k];
        assert(i == j);
    }
}

/// Resolving again what is resolved changes nothing: a second resolution of
/// the same dependencies, from the memo that the first one left, leaves the
/// memo as it is.
pub proof fn lemma_resolve_idempotent(
    table: Seq<MetadataEntryModel>,
    specs: Seq<DependencyModel>,
    first: Seq<ResolvedModel>,
    second: Seq<ResolvedModel>,
    third: Seq<ResolvedModel>,
)
    requires
        resolved_from(table, specs, first, second),
        resolved_from(table, specs, second, third),
    ensures
        third == second,
        closure(third, keys_of(specs)) == closure(second, keys_of(specs)),
{
    if third.len() > second.len() {
        let last = third.len() - 1;
        assert(entry_justified(table, specs, third, last));
        let d = third[last].dependency;
        assert(specs.contains(d));
        let k = choose|k: int| 0 <= k < specs.len() && specs[k] == d;
        assert(memo_keys(second).contains(specs[k].key()));
        let i = choose|i: int| 0 <= i < second.len() && memo_keys(second)[i] == d.key();
        assert(memo_keys(third)[i] == d.key());
        assert(memo_keys(third)[last] == d.key());
    }
    assert(third =~= second);
}

/// Where every one of `specs` is resolved already, a resolution of `specs`
/// cannot fail.
pub proof fn lemma_resolved_cannot_fail(
    table: Seq<MetadataEntryModel>,
    specs: Seq<DependencyModel>,
    memo: Seq<ResolvedModel>,
    e: ResolveError,
)
    requires
        forall|k: int| 0 <= k < specs.len() ==> memo_keys(memo).contains(#[trigger] specs[k].key()),
    ensures
        !error_witness(table, specs, memo, e),
{
    if error_witness(table, specs, memo, e) {
        let p = match e {
            ResolveError::Cycle(key) => choose|p: Seq<DependencyModel>|
                {
                    &&& #[trigger] is_chain(table, p)
                    &&& p.len() >= 2
                    &&& specs.contains(p[0])
                    &&& p.last().key() == key@
                    &&& keys_of(p.drop_last()).contains(key@)
                    &&& forall|t: int|
                        0 <= t < p.len() ==> !memo_keys(memo).contains(#[trigger] p[t].key())
                },
            ResolveError::MetadataTimeout(key) => choose|p: Seq<DependencyModel>|
                {
                    &&& #[trigger] is_chain(table, p)
                    &&& p.len() >= 1
                    &&& specs.contains(p[0])
                    &&& p.last().key() == key@
                    &&& answer(table, p.last()) is None
                    &&& forall|t: int|
                        0 <= t < p.len() ==> !memo_keys(memo).contains(#[trigger] p[t].key())
                },
        };
        let k = choose|k: int| 0 <= k < specs.len() && specs[k] == p[0];
        assert(memo_keys(memo).contains(specs[k].key()));
        assert(!memo_keys(memo).contains(p[0].key()));
    }
}

/// `d` is one of `specs`, is listed somewhere in `table`, or is the
/// dependency of an entry of `memo`.
pub open spec fn occurs(
    table: Seq<MetadataEntryModel>,
    specs: Seq<DependencyModel>,
    memo: Seq<ResolvedModel>,
    d: DependencyModel,
) -> bool {
    ||| specs.contains(d)
    ||| all_listed(table).contains(d)
    ||| exists|i: int| 0 <= i < memo.len() && (#[trigger] memo[i]).dependency == d
}

/// Among the dependencies that occur, what one requires depends on its key
/// alone: two with the same key have children with the same keys.
pub open spec fn requirements_by_key(
    table: Seq<MetadataEntryModel>,
    specs: Seq<DependencyModel>,
    memo: Seq<ResolvedModel>,
) -> bool {
    forall|a: DependencyModel, b: DependencyModel|
        #[trigger] occurs(table, specs, memo, a) && #[trigger] occurs(table, specs, memo, b)
            && a.key() == b.key() ==> keys_of(children(table, a)) == keys_of(children(table, b))
}

/// A source that always answers gives no reason for a timeout.
pub proof fn lemma_available_no_timeout(
    table: Seq<MetadataEntryModel>,
    specs: Seq<DependencyModel>,
    known: Seq<ResolvedModel>,
    key: Seq<char>,
)
    requires
        always_available(table),
    ensures
        !timeout_witness(table, specs, known, key),
{
    assert forall|d: DependencyModel| answer(table, d) is Some by {
        lemma_available_answers(table, d);
    }
}

/// The position of the entry with key `key`.
pub open spec fn position_of_key(memo: Seq<ResolvedModel>, key: Seq<char>) -> int {
    choose|i: int| 0 <= i < memo.len() && memo_keys(memo)[i] == key
}

/// A memo whose entries are all expanded under `table` stays so when a
/// resolution under `table` extends it.
pub proof fn lemma_expanded_kept(
    table: Seq<MetadataEntryModel>,
    specs: Seq<DependencyModel>,
    before: Seq<ResolvedModel>,
    after: Seq<ResolvedModel>,
)
    requires
        expanded_with(table, before, 0),
        resolved_from(table, specs, before, after),
    ensures
        expanded_with(table, after, 0),
{
    assert forall|i: int| 0 <= i < after.len() implies #[trigger] entry_expanded(table, after, i) by {
        if i < before.len() {
            assert(entry_expanded(table, before, i));
        }
    }
}

/// Every dependency that a resolution records occurs: it is one of `specs`,
/// is listed in `table`, or was in the memo before.
pub proof fn lemma_entries_occur(
    table: Seq<MetadataEntryModel>,
    specs: Seq<DependencyModel>,
    before: Seq<ResolvedModel>,
    after: Seq<ResolvedModel>,
    i: int,
)
    requires
        resolved_from(table, specs, before, after),
        0 <= i < after.len(),
    ensures
        occurs(table, specs, before, after[i].dependency),
{
    if i < before.len() {
        assert(before[i].dependency == after[i].dependency);
    } else {
        assert(entry_justified(table, specs, after, i));
        if !specs.contains(after[i].dependency) {
            let j = choose|j: int|
                i < j < after.len() && #[trigger] children(table, after[j].dependency).contains(
                    after[i].dependency,
                );
            lemma_children_listed(table, after[j].dependency, after[i].dependency);
        }
    }
}

/// Every element of a chain of requirements that starts at one of `specs`
/// occurs.
pub proof fn lemma_chain_occurs(
    table: Seq<MetadataEntryModel>,
    specs: Seq<DependencyModel>,
    memo: Seq<ResolvedModel>,
    p: Seq<DependencyModel>,
    t: int,
)
    requires
        is_chain(table, p),
        p.len() >= 1,
        specs.contains(p[0]),
        0 <= t < p.len(),
    ensures
        occurs(table, specs, memo, p[t]),
{
    if t > 0 {
        let u = t - 1;
        assert(children(table, p[u]).contains(p[u + 1]));
        lemma_children_listed(table, p[u], p[t]);
    }
}

/// Whatever a chain of requirements leads to from one of the resolved
/// `specs` is resolved too, and along the chain the positions in the memo
/// go down.
pub proof fn lemma_chain_descends(
    table: Seq<MetadataEntryModel>,
    specs: Seq<DependencyModel>,
    before: Seq<ResolvedModel>,
    after: Seq<ResolvedModel>,
    p: Seq<DependencyModel>,
    t: int,
)
    requires
        expanded_with(table, before, 0),
        resolved_from(table, specs, before, after),
        requirements_by_key(table, specs, before),
        is_chain(table, p),
        p.len() >= 1,
        specs.contains(p[0]),
        0 <= t < p.len(),
    ensures
        memo_keys(after).contains(p[t].key()),
        forall|s: int|
            0 <= s < t ==> position_of_key(after, p[t].key()) < position_of_key(
                after,
                #[trigger] p[s].key(),
            ),
    decreases t,
{
    let memo = after;
    if t == 0 {
        let k = choose|k: int| 0 <= k < specs.len() && specs[k] == p[0];
        assert(memo_keys(memo).contains(specs[k].key()));
    } else {
        lemma_chain_descends(table, specs, before, after, p, t - 1);
        lemma_expanded_kept(table, specs, before, after);
        let up = position_of_key(memo, p[t - 1].key());
        assert(entry_expanded(table, memo, up));
        let u = t - 1;
        assert(children(table, p[u]).contains(p[u + 1]));
        let below = children(table, p[t - 1]);
        let k = choose|k: int| 0 <= k < below.len() && below[k] == p[t];
        assert(keys_of(below)[k] == p[t].key());
        assert(memo[up].dependency.key() == p[t - 1].key());
        lemma_entries_occur(table, specs, before, after, up);
        lemma_chain_occurs(table, specs, before, p, t - 1);
        assert(keys_of(children(table, memo[up].dependency)) == keys_of(below));
        assert(memo[up].edges[k] == p[t].key());
        assert(edge_resolved(memo, up, k));
        let j = choose|j: int| 0 <= j < up && memo_keys(memo)[j] == memo[up].edges[k];
        assert(memo_keys(memo)[j] == p[t].key());
        let here = position_of_key(memo, p[t].key());
        assert(here == j);
        assert forall|s: int| 0 <= s < t implies here < position_of_key(memo, #[trigger] p[s].key()) by {
            if s < t - 1 {
                assert(up < position_of_key(memo, p[s].key()));
            }
        }
    }
}

/// Whatever one of the resolved `specs` requires, directly or through
/// others, is resolved, and under one entry only: however many of them
/// require it, its key occurs once.
pub proof fn lemma_requirements_resolved(
    table: Seq<MetadataEntryModel>,
    specs: Seq<DependencyModel>,
    before: Seq<ResolvedModel>,
    after: Seq<ResolvedModel>,
    p: Seq<DependencyModel>,
)
    requires
        expanded_with(table, before, 0),
        resolved_from(table, specs, before, after),
        requirements_by_key(table, specs, before),
        is_chain(table, p),
        p.len() >= 1,
        specs.contains(p[0]),
    ensures
        memo_keys(after).contains(p.last().key()),
        memo_keys(after).no_duplicates(),
{
    lemma_chain_descends(table, specs, before, after, p, p.len() - 1);
}

/// Where a chain of requirements from one of `specs` comes back to a key
/// that it has passed, no resolution of `specs` succeeds.
pub proof fn lemma_cycle_unresolvable(
    table: Seq<MetadataEntryModel>,
    specs: Seq<DependencyModel>,
    before: Seq<ResolvedModel>,
    after: Seq<ResolvedModel>,
    p: Seq<DependencyModel>,
    j: int,
)
    requires
        expanded_with(table, before, 0),
        requirements_by_key(table, specs, before),
        is_chain(table, p),
        specs.contains(p[0]),
        0 <= j < p.len() - 1,
        p[j].key() == p.last().key(),
    ensures
        !resolved_from(table, specs, before, after),
{
    if resolved_from(table, specs, before, after) {
        let last = p.len() - 1;
        lemma_chain_descends(table, specs, before, after, p, last);
        assert(position_of_key(after, p[last].key()) < position_of_key(after, p[j].key()));
    }
}

/// Where a chain of requirements from one of `specs` comes back to a key
/// that it has passed, and the source always answers, a resolution of
/// `specs` ends with the error for a cycle: whatever outcome meets the
/// contract of the resolver, success with the memo `after` or the error
/// `e`, it is the error, and the error is [`ResolveError::Cycle`].
pub proof fn lemma_cycle_reported(
    table: Seq<MetadataEntryModel>,
    specs: Seq<DependencyModel>,
    before: Seq<ResolvedModel>,
    after: Seq<ResolvedModel>,
    succeeded: bool,
    e: ResolveError,
    p: Seq<DependencyModel>,
    j: int,
)
    requires
        expanded_with(table, before, 0),
        requirements_by_key(table, specs, before),
        always_available(table),
        is_chain(table, p),
        specs.contains(p[0]),
        0 <= j < p.len() - 1,
        p[j].key() == p.last().key(),
        succeeded ==> resolved_from(table, specs, before, after),
        !succeeded ==> error_witness(table, specs, before, e),
    ensures
        !succeeded,
        e is Cycle,
{
    lemma_cycle_unresolvable(table, specs, before, after, p, j);
    lemma_available_no_timeout(table, specs, before, e.key());
}

/// Where the source always answers and no chain of requirements from one
/// of `specs` comes back to a key that it has passed, a resolution of
/// `specs` succeeds: an outcome that meets the contract of the resolver is
/// no error.
pub proof fn lemma_success_owed(
    table: Seq<MetadataEntryModel>,
    specs: Seq<DependencyModel>,
    before: Seq<ResolvedModel>,
    succeeded: bool,
    e: ResolveError,
)
    requires
        always_available(table),
        forall|key: Seq<char>| !cycle_witness(table, specs, before, key),
        !succeeded ==> error_witness(table, specs, before, e),
    ensures
        succeeded,
{
    lemma_available_no_timeout(table, specs, before, e.key());
}

/// What a dependency excludes is not among the children that its expansion
/// follows.
pub proof fn lemma_excluded_not_followed(
    table: Seq<MetadataEntryModel>,
    dep: DependencyModel,
    c: DependencyModel,
)
    requires
        dep.excludes(c),
    ensures
        !children(table, dep).contains(c),
{
    if children(table, dep).contains(c) {
        lemma_children_listed(table, dep, c);
    }
}

/// Every dependency that occurs has a key whose fields hold no colon, and
/// excludes nothing.
pub open spec fn plain_input(
    table: Seq<MetadataEntryModel>,
    specs: Seq<DependencyModel>,
    memo: Seq<ResolvedModel>,
) -> bool {
    forall|d: DependencyModel| #[trigger]
        occurs(table, specs, memo, d) ==> d.plain() && d.exclusions.len() == 0
}

/// Where no dependency that occurs has exclusions or a colon in a field of
/// its key, what a dependency requires depends on its key alone.
pub proof fn lemma_plain_requirements(
    table: Seq<MetadataEntryModel>,
    specs: Seq<DependencyModel>,
    memo: Seq<ResolvedModel>,
)
    requires
        plain_input(table, specs, memo),
    ensures
        requirements_by_key(table, specs, memo),
{
    assert forall|a: DependencyModel, b: DependencyModel|
        #[trigger] occurs(table, specs, memo, a) && #[trigger] occurs(table, specs, memo, b)
            && a.key() == b.key() implies keys_of(children(table, a)) == keys_of(
        children(table, b),
    ) by {
        lemma_key_injective(a, b);
        lemma_answer_by_coordinate(table, a, b);
        reveal(children);
        match answer(table, a) {
            Some(listed) => {
                lemma_pruned_all(a, listed);
                lemma_pruned_all(b, listed);
            },
            None => {},
        }
    }
}

/// Where no dependency that occurs has exclusions or a colon in a field of
/// its key, the source always answers, and a chain of requirements from one
/// of `specs` comes back to a key that it has passed, a resolution of
/// `specs` ends with the error for a cycle: whatever outcome meets the
/// contract of the resolver, success with the memo `after` or the error
/// `e`, it is the error, and the error is [`ResolveError::Cycle`].
pub proof fn lemma_plain_cycle_reported(
    table: Seq<MetadataEntryModel>,
    specs: Seq<DependencyModel>,
    before: Seq<ResolvedModel>,
    after: Seq<ResolvedModel>,
    succeeded: bool,
    e: ResolveError,
    p: Seq<DependencyModel>,
    j: int,
)
    requires
        expanded_with(table, before, 0),
        plain_input(table, specs, before),
        always_available(table),
        is_chain(table, p),
        specs.contains(p[0]),
        0 <= j < p.len() - 1,
        p[j].key() == p.last().key(),
        succeeded ==> resolved_from(table, specs, before, after),
        !succeeded ==> error_witness(table, specs, before, e),
    ensures
        !succeeded,
        e is Cycle,
{
    lemma_plain_requirements(table, specs, before);
    lemma_cycle_reported(table, specs, before, after, succeeded, e, p, j);
}

/// Among the first `n` entries, the result holds the dependencies of those
/// that `roots` want, and no others.
pub proof fn lemma_closure_members(
    memo: Seq<ResolvedModel>,
    roots: Seq<Seq<char>>,
    n: int,
    d: DependencyModel,
)
    requires
        0 <= n <= memo.len(),
    ensures
        closure_upto(memo, roots, n).contains(d) <==> exists|i: int|
            0 <= i < n && needed(memo, roots, i) && (#[trigger] memo[i]).dependency == d,
    decreases n,
{
    if n > 0 {
        lemma_closure_members(memo, roots, n - 1, d);
        let init = closure_upto(memo, roots, n - 1);
        let all = closure_upto(memo, roots, n);
        if all.contains(d) {
            let k = choose|k: int| 0 <= k < all.len() && all[k] == d;
            if k < init.len() {
                assert(init[k] == d);
                let i = choose|i: int|
                    0 <= i < n - 1 && needed(memo, roots, i) && (#[trigger] memo[i]).dependency == d;
                assert(0 <= i < n && needed(memo, roots, i) && memo[i].dependency == d);
            } else {
                assert(needed(memo, roots, n - 1) && memo[n - 1].dependency == d);
            }
        }
        if exists|i: int| 0 <= i < n && needed(memo, roots, i) && (#[trigger] memo[i]).dependency == d {
            let i = choose|i: int|
                0 <= i < n && needed(memo, roots, i) && (#[trigger] memo[i]).dependency == d;
            if i < n - 1 {
                assert(init.contains(d));
                let k = choose|k: int| 0 <= k < init.len() && init[k] == d;
                assert(all[k] == d);
            } else {
                assert(all[all.len() - 1] == d);
            }
        }
    }
}

/// The result holds no key twice.
pub proof fn lemma_closure_distinct(memo: Seq<ResolvedModel>, roots: Seq<Seq<char>>, n: int)
    requires
        memo_keys(memo).no_duplicates(),
        0 <= n <= memo.len(),
    ensures
        keys_of(closure_upto(memo, roots, n)).no_duplicates(),
    decreases n,
{
    if n > 0 {
        lemma_closure_distinct(memo, roots, n - 1);
        let init = closure_upto(memo, roots, n - 1);
        let all = closure_upto(memo, roots, n);
        if needed(memo, roots, n - 1) {
            assert forall|x: int, y: int|
                0 <= x < all.len() && 0 <= y < all.len() && x != y implies keys_of(all)[x] != keys_of(
                all,
            )[y] by {
                if x < init.len() && y < init.len() {
                    assert(keys_of(init)[x] != keys_of(init)[y]);
                } else {
                    let low = if x < y { x } else { y };
                    assert(init[low] == all[low]);
                    assert(init.contains(init[low]));
                    lemma_closure_members(memo, roots, n - 1, init[low]);
                    let i = choose|i: int|
                        0 <= i < n - 1 && needed(memo, roots, i) && (#[trigger] memo[i]).dependency
                            == init[low];
                    assert(memo_keys(memo)[i] == init[low].key());
                    assert(memo_keys(memo)[n - 1] == memo[n - 1].dependency.key());
                }
            }
        }
    }
}

/// Among what `dep` requires, which is what the source lists for it less
/// what it excludes, something has the key `key`.
pub open spec fn requires_key(table: Seq<MetadataEntryModel>, dep: DependencyModel, key: Seq<char>) -> bool {
    keys_of(children(table, dep)).contains(key)
}

/// `dep` excludes whatever the source lists for it under the key `key`.
pub open spec fn shuts_out(table: Seq<MetadataEntryModel>, dep: DependencyModel, key: Seq<char>) -> bool {
    match answer(table, dep) {
        Some(listed) => forall|k: int|
            0 <= k < listed.len() && (#[trigger] listed[k]).key() == key ==> dep.excludes(listed[k]),
        None => true,
    }
}

/// A dependency requires a key exactly where the source lists for it
/// something of that key that it does not exclude.
pub proof fn lemma_requires_unless_shut_out(
    table: Seq<MetadataEntryModel>,
    dep: DependencyModel,
    key: Seq<char>,
)
    ensures
        requires_key(table, dep, key) == !shuts_out(table, dep, key),
{
    reveal(children);
    let below = children(table, dep);
    if requires_key(table, dep, key) {
        let k = choose|k: int| 0 <= k < keys_of(below).len() && keys_of(below)[k] == key;
        assert(below.contains(below[k]));
        let listed = answer(table, dep)->0;
        lemma_pruned_listed(dep, listed, below[k]);
        let m = choose|m: int| 0 <= m < listed.len() && listed[m] == below[k];
        assert(listed[m].key() == key && !dep.excludes(listed[m]));
    }
    if !shuts_out(table, dep, key) {
        let listed = answer(table, dep)->0;
        let m = choose|m: int|
            0 <= m < listed.len() && (#[trigger] listed[m]).key() == key && !dep.excludes(listed[m]);
        lemma_listed_pruned(dep, listed, m);
        let k = choose|k: int| 0 <= k < below.len() && below[k] == listed[m];
        assert(keys_of(below)[k] == key);
    }
}

/// Nothing is in the result of a resolution that nothing asked for: each
/// dependency of the result has the key of one of `specs`, or the key of a
/// requirement of another dependency of the result, one that this other
/// lists and does not exclude.
pub proof fn lemma_result_asked_for(
    table: Seq<MetadataEntryModel>,
    specs: Seq<DependencyModel>,
    before: Seq<ResolvedModel>,
    after: Seq<ResolvedModel>,
    d: DependencyModel,
)
    requires
        expanded_with(table, before, 0),
        resolved_from(table, specs, before, after),
        closure(after, keys_of(specs)).contains(d),
    ensures
        keys_of(specs).contains(d.key()) || exists|e: DependencyModel|
            closure(after, keys_of(specs)).contains(e) && #[trigger] requires_key(table, e, d.key()),
{
    let roots = keys_of(specs);
    lemma_closure_members(after, roots, after.len() as int, d);
    let i = choose|i: int|
        0 <= i < after.len() && needed(after, roots, i) && (#[trigger] after[i]).dependency == d;
    assert(memo_keys(after)[i] == d.key());
    if !roots.contains(d.key()) {
        let j = choose|j: int|
            i < j < after.len() && needed(after, roots, j) && (#[trigger] after[j]).edges.contains(
                memo_keys(after)[i],
            );
        lemma_expanded_kept(table, specs, before, after);
        assert(entry_expanded(table, after, j));
        let e = after[j].dependency;
        lemma_closure_members(after, roots, after.len() as int, e);
        assert(requires_key(table, e, d.key()));
    }
}

/// Exclusions prune the result: a key that is the key of none of `specs`,
/// and that every dependency of the result excludes wherever the source
/// lists it, is the key of nothing in the result. What can be in the result
/// at all, [`lemma_result_occurs`] says.
pub proof fn lemma_exclusion_prunes(
    table: Seq<MetadataEntryModel>,
    specs: Seq<DependencyModel>,
    before: Seq<ResolvedModel>,
    after: Seq<ResolvedModel>,
    key: Seq<char>,
)
    requires
        expanded_with(table, before, 0),
        resolved_from(table, specs, before, after),
        !keys_of(specs).contains(key),
        forall|e: DependencyModel|
            closure(after, keys_of(specs)).contains(e) ==> #[trigger] shuts_out(table, e, key),
    ensures
        !keys_of(closure(after, keys_of(specs))).contains(key),
{
    let list = closure(after, keys_of(specs));
    if keys_of(list).contains(key) {
        let x = choose|x: int| 0 <= x < keys_of(list).len() && keys_of(list)[x] == key;
        let d = list[x];
        assert(list.contains(d));
        lemma_result_asked_for(table, specs, before, after, d);
        let e = choose|e: DependencyModel| list.contains(e) && #[trigger] requires_key(table, e, key);
        lemma_requires_unless_shut_out(table, e, key);
        assert(shuts_out(table, e, key));
    }
}

/// Every dependency of the result occurs: it is one of `specs`, is listed
/// in `table`, or was in the memo before.
pub proof fn lemma_result_occurs(
    table: Seq<MetadataEntryModel>,
    specs: Seq<DependencyModel>,
    before: Seq<ResolvedModel>,
    after: Seq<ResolvedModel>,
    d: DependencyModel,
)
    requires
        resolved_from(table, specs, before, after),
        closure(after, keys_of(specs)).contains(d),
    ensures
        occurs(table, specs, before, d),
{
    lemma_closure_members(after, keys_of(specs), after.len() as int, d);
    let i = choose|i: int|
        0 <= i < after.len() && needed(after, keys_of(specs), i) && (#[trigger] after[i]).dependency == d;
    lemma_entries_occur(table, specs, before, after, i);
}

/// What a dependency of the result lists and does not exclude is in the
/// result, under one entry: the result holds its key, and holds no key
/// twice. So an exclusion of one dependency takes nothing away that
/// another dependency of the result requires.
pub proof fn lemma_required_kept(
    table: Seq<MetadataEntryModel>,
    specs: Seq<DependencyModel>,
    before: Seq<ResolvedModel>,
    after: Seq<ResolvedModel>,
    e: DependencyModel,
    key: Seq<char>,
)
    requires
        expanded_with(table, before, 0),
        resolved_from(table, specs, before, after),
        closure(after, keys_of(specs)).contains(e),
        !shuts_out(table, e, key),
    ensures
        keys_of(closure(after, keys_of(specs))).contains(key),
        keys_of(closure(after, keys_of(specs))).no_duplicates(),
{
    let roots = keys_of(specs);
    let list = closure(after, roots);
    lemma_closure_distinct(after, roots, after.len() as int);
    lemma_requires_unless_shut_out(table, e, key);
    lemma_closure_members(after, roots, after.len() as int, e);
    let j = choose|j: int|
        0 <= j < after.len() && needed(after, roots, j) && (#[trigger] after[j]).dependency == e;
    lemma_expanded_kept(table, specs, before, after);
    assert(entry_expanded(table, after, j));
    let k = choose|k: int| 0 <= k < after[j].edges.len() && after[j].edges[k] == key;
    assert(edge_resolved(after, j, k));
    let i = choose|i: int| 0 <= i < j && memo_keys(after)[i] == after[j].edges[k];
    assert(after[j].edges.contains(memo_keys(after)[i]));
    assert(needed(after, roots, i));
    lemma_closure_members(after, roots, after.len() as int, after[i].dependency);
    let x = choose|x: int| 0 <= x < list.len() && list[x] == after[i].dependency;
    assert(keys_of(list)[x] == key);
}

/// Each of `specs` is in the result of its resolution, under one entry.
pub proof fn lemma_specs_kept(
    table: Seq<MetadataEntryModel>,
    specs: Seq<DependencyModel>,
    before: Seq<ResolvedModel>,
    after: Seq<ResolvedModel>,
    k: int,
)
    requires
        resolved_from(table, specs, before, after),
        0 <= k < specs.len(),
    ensures
        keys_of(closure(after, keys_of(specs))).contains(specs[k].key()),
        keys_of(closure(after, keys_of(specs))).no_duplicates(),
{
    let roots = keys_of(specs);
    let list = closure(after, roots);
    lemma_closure_distinct(after, roots, after.len() as int);
    assert(memo_keys(after).contains(specs[k].key()));
    let i = choose|i: int| 0 <= i < after.len() && memo_keys(after)[i] == specs[k].key();
    assert(roots[k] == specs[k].key());
    assert(needed(after, roots, i));
    lemma_closure_members(after, roots, after.len() as int, after[i].dependency);
    let x = choose|x: int| 0 <= x < list.len() && list[x] == after[i].dependency;
    assert(keys_of(list)[x] == specs[k].key());
}

/// Along a chain of requirements from one of the resolved `specs`, every
/// entry is one that the specs want.
pub proof fn lemma_chain_needed(
    table: Seq<MetadataEntryModel>,
    specs: Seq<DependencyModel>,
    before: Seq<ResolvedModel>,
    after: Seq<ResolvedModel>,
    p: Seq<DependencyModel>,
    t: int,
)
    requires
        expanded_with(table, before, 0),
        resolved_from(table, specs, before, after),
        requirements_by_key(table, specs, before),
        is_chain(table, p),
        p.len() >= 1,
        specs.contains(p[0]),
        0 <= t < p.len(),
    ensures
        memo_keys(after).contains(p[t].key()),
        needed(after, keys_of(specs), position_of_key(after, p[t].key())),
    decreases t,
{
    let memo = after;
    let roots = keys_of(specs);
    lemma_chain_descends(table, specs, before, after, p, t);
    let here = position_of_key(memo, p[t].key());
    assert(memo_keys(memo)[here] == p[t].key());
    if t == 0 {
        let k = choose|k: int| 0 <= k < specs.len() && specs[k] == p[0];
        assert(roots[k] == p[0].key());
    } else {
        lemma_chain_needed(table, specs, before, after, p, t - 1);
        lemma_expanded_kept(table, specs, before, after);
        let up = position_of_key(memo, p[t - 1].key());
        assert(memo_keys(memo)[up] == p[t - 1].key());
        assert(entry_expanded(table, memo, up));
        let u = t - 1;
        assert(children(table, p[u]).contains(p[u + 1]));
        let below = children(table, p[t - 1]);
        let k = choose|k: int| 0 <= k < below.len() && below[k] == p[t];
        assert(keys_of(below)[k] == p[t].key());
        lemma_entries_occur(table, specs, before, after, up);
        lemma_chain_occurs(table, specs, before, p, t - 1);
        assert(keys_of(children(table, memo[up].dependency)) == keys_of(below));
        assert(memo[up].edges[k] == p[t].key());
        assert(memo[up].edges.contains(memo_keys(memo)[here]));
        assert(here < up);
    }
}

/// Whatever the resolved `specs` require, directly or through others, is
/// in the result, and under one entry only: where chains of requirements
/// from several of the specs lead to one key, the result holds that key, and
/// holds no key twice.
pub proof fn lemma_required_once(
    table: Seq<MetadataEntryModel>,
    specs: Seq<DependencyModel>,
    before: Seq<ResolvedModel>,
    after: Seq<ResolvedModel>,
    p: Seq<DependencyModel>,
)
    requires
        expanded_with(table, before, 0),
        resolved_from(table, specs, before, after),
        requirements_by_key(table, specs, before),
        is_chain(table, p),
        p.len() >= 1,
        specs.contains(p[0]),
    ensures
        keys_of(closure(after, keys_of(specs))).contains(p.last().key()),
        keys_of(closure(after, keys_of(specs))).no_duplicates(),
{
    let roots = keys_of(specs);
    let list = closure(after, roots);
    lemma_closure_distinct(after, roots, after.len() as int);
    lemma_chain_needed(table, specs, before, after, p, p.len() - 1);
    let i = position_of_key(after, p.last().key());
    assert(memo_keys(after)[i] == p.last().key());
    lemma_closure_members(after, roots, after.len() as int, after[i].dependency);
    let x = choose|x: int| 0 <= x < list.len() && list[x] == after[i].dependency;
    assert(keys_of(list)[x] == p.last().key());
}

/// The entry that records `dep`: the dependency itself, with the keys of
/// its children as edges.
pub open spec fn entry_of(table: Seq<MetadataEntryModel>, dep: DependencyModel) -> ResolvedModel {
    ResolvedModel { dependency: dep, edges: keys_of(children(table, dep)) }
}

/// How many entries the memo holds after a visit to `dep` that begins when
/// it holds the first `from`: as many as before where one of these has the
/// key of `dep`, else those up to the entry with that key.
pub open spec fn visit_end(memo: Seq<ResolvedModel>, from: int, dep: DependencyModel) -> int {
    if memo_keys(memo.take(from)).contains(dep.key()) {
        from
    } else {
        position_of_key(memo, dep.key()) + 1
    }
}

/// How many entries the memo holds after visits to the first `n` of `kids`,
/// one after the other, that begin when it holds the first `from`.
pub open spec fn visits_end(memo: Seq<ResolvedModel>, from: int, kids: Seq<DependencyModel>, n: int) -> int
    decreases n,
{
    if n <= 0 {
        from
    } else {
        visit_end(memo, visits_end(memo, from, kids, n - 1), kids[n - 1])
    }
}

/// The memo records a visit to `dep` that began when it held the first
/// `from` entries and ended within the first `limit`: where one of the
/// first `from` has the key of `dep`, nothing is recorded; else the source
/// has an answer for `dep`, visits to the children of `dep`, one after the
/// other, are recorded, and right behind them `dep` itself.
pub open spec fn visit_ok(
    table: Seq<MetadataEntryModel>,
    memo: Seq<ResolvedModel>,
    from: int,
    limit: int,
    dep: DependencyModel,
) -> bool
    decreases limit, 0nat, 0int,
{
    if memo_keys(memo.take(from)).contains(dep.key()) {
        true
    } else {
        let at = position_of_key(memo, dep.key());
        let below = children(table, dep);
        &&& 0 <= from <= at < limit <= memo.len()
        &&& answer(table, dep) is Some
        &&& memo[at] == entry_of(table, dep)
        &&& visits_ok(table, memo, from, at, below, below.len() as int)
        &&& visits_end(memo, from, below, below.len() as int) == at
    }
}

/// The memo records visits to the first `n` of `kids`, one after the other,
/// that began when it held the first `from` entries and ended within the
/// first `limit`.
pub open spec fn visits_ok(
    table: Seq<MetadataEntryModel>,
    memo: Seq<ResolvedModel>,
    from: int,
    limit: int,
    kids: Seq<DependencyModel>,
    n: int,
) -> bool
    decreases limit, 1nat, n,
{
    if n <= 0 || limit < 0 {
        n <= 0
    } else {
        &&& visits_ok(table, memo, from, limit, kids, n - 1)
        &&& visit_ok(table, memo, visits_end(memo, from, kids, n - 1), limit, kids[n - 1])
    }
}

/// The memo `after` is what the resolution of `specs` makes of the memo
/// `before`: the entries of `before`, and behind them what visits to
/// `specs`, one after the other, record. A visit to a dependency whose key
/// the memo has records nothing; any other visit records first what visits
/// to the children of the dependency record, then the dependency itself.
pub open spec fn walked(
    table: Seq<MetadataEntryModel>,
    specs: Seq<DependencyModel>,
    before: Seq<ResolvedModel>,
    after: Seq<ResolvedModel>,
) -> bool {
    &&& is_prefix(before, after)
    &&& visits_ok(table, after, before.len() as int, after.len() as int, specs, specs.len() as int)
    &&& visits_end(after, before.len() as int, specs, specs.len() as int) == after.len()
}

/// What the memo records of a visit stays recorded when the memo grows.
pub proof fn lemma_visit_extend(
    table: Seq<MetadataEntryModel>,
    short: Seq<ResolvedModel>,
    long: Seq<ResolvedModel>,
    from: int,
    limit: int,
    dep: DependencyModel,
)
    requires
        is_prefix(short, long),
        memo_keys(long).no_duplicates(),
        0 <= from <= limit <= short.len(),
        visit_ok(table, short, from, limit, dep),
    ensures
        visit_ok(table, long, from, limit, dep),
        visit_end(long, from, dep) == visit_end(short, from, dep),
        from <= visit_end(short, from, dep) <= limit,
    decreases limit, 0nat, 0int,
{
    assert(long.take(from) =~= short.take(from));
    if !memo_keys(short.take(from)).contains(dep.key()) {
        let at = position_of_key(short, dep.key());
        let below = children(table, dep);
        assert(memo_keys(short)[at] == dep.key());
        assert(memo_keys(long)[at] == dep.key());
        let other = position_of_key(long, dep.key());
        assert(memo_keys(long)[other] == dep.key());
        assert(other == at);
        lemma_visits_extend(table, short, long, from, at, below, below.len() as int);
    }
}

/// What the memo records of visits stays recorded when the memo grows.
pub proof fn lemma_visits_extend(
    table: Seq<MetadataEntryModel>,
    short: Seq<ResolvedModel>,
    long: Seq<ResolvedModel>,
    from: int,
    limit: int,
    kids: Seq<DependencyModel>,
    n: int,
)
    requires
        is_prefix(short, long),
        memo_keys(long).no_duplicates(),
        0 <= from <= limit <= short.len(),
        0 <= n <= kids.len(),
        visits_ok(table, short, from, limit, kids, n),
    ensures
        visits_ok(table, long, from, limit, kids, n),
        visits_end(long, from, kids, n) == visits_end(short, from, kids, n),
        from <= visits_end(short, from, kids, n) <= limit,
    decreases limit, 1nat, n,
{
    if n > 0 {
        lemma_visits_extend(table, short, long, from, limit, kids, n - 1);
        let mid = visits_end(short, from, kids, n - 1);
        lemma_visit_extend(table, short, long, mid, limit, kids[n - 1]);
    }
}

/// A visit that ended within a limit ended within any later one.
pub proof fn lemma_visit_weaken(
    table: Seq<MetadataEntryModel>,
    memo: Seq<ResolvedModel>,
    from: int,
    limit: int,
    later: int,
    dep: DependencyModel,
)
    requires
        limit <= later <= memo.len(),
        visit_ok(table, memo, from, limit, dep),
    ensures
        visit_ok(table, memo, from, later, dep),
{
}

/// Visits that ended within a limit ended within any later one.
pub proof fn lemma_visits_weaken(
    table: Seq<MetadataEntryModel>,
    memo: Seq<ResolvedModel>,
    from: int,
    limit: int,
    later: int,
    kids: Seq<DependencyModel>,
    n: int,
)
    requires
        0 <= limit <= later <= memo.len(),
        visits_ok(table, memo, from, limit, kids, n),
    ensures
        visits_ok(table, memo, from, later, kids, n),
    decreases n,
{
    if n > 0 {
        lemma_visits_weaken(table, memo, from, limit, later, kids, n - 1);
        lemma_visit_weaken(
            table,
            memo,
            visits_end(memo, from, kids, n - 1),
            limit,
            later,
            kids[n - 1],
        );
    }
}

/// One more visit is recorded behind the visits before it.
pub proof fn lemma_visits_step(
    table: Seq<MetadataEntryModel>,
    before: Seq<ResolvedModel>,
    after: Seq<ResolvedModel>,
    from: int,
    kids: Seq<DependencyModel>,
    n: int,
)
    requires
        is_prefix(before, after),
        memo_keys(after).no_duplicates(),
        0 <= from <= before.len(),
        0 <= n < kids.len(),
        visits_ok(table, before, from, before.len() as int, kids, n),
        visits_end(before, from, kids, n) == before.len(),
        visit_ok(table, after, before.len() as int, after.len() as int, kids[n]),
        visit_end(after, before.len() as int, kids[n]) == after.len(),
    ensures
        visits_ok(table, after, from, after.len() as int, kids, n + 1),
        visits_end(after, from, kids, n + 1) == after.len(),
{
    lemma_visits_extend(table, before, after, from, before.len() as int, kids, n);
    lemma_visits_weaken(table, after, from, before.len() as int, after.len() as int, kids, n);
}

/// Behind the visits to its children, a dependency itself is recorded.
pub proof fn lemma_visit_finish(
    table: Seq<MetadataEntryModel>,
    start: Seq<ResolvedModel>,
    memo: Seq<ResolvedModel>,
    dep: DependencyModel,
)
    requires
        is_prefix(start, memo),
        memo_keys(memo.push(entry_of(table, dep))).no_duplicates(),
        !memo_keys(start).contains(dep.key()),
        answer(table, dep) is Some,
        visits_ok(
            table,
            memo,
            start.len() as int,
            memo.len() as int,
            children(table, dep),
            children(table, dep).len() as int,
        ),
        visits_end(memo, start.len() as int, children(table, dep), children(table, dep).len() as int)
            == memo.len(),
    ensures
        visit_ok(
            table,
            memo.push(entry_of(table, dep)),
            start.len() as int,
            (memo.len() + 1) as int,
            dep,
        ),
        visit_end(memo.push(entry_of(table, dep)), start.len() as int, dep) == memo.len() + 1,
{
    let now = memo.push(entry_of(table, dep));
    let below = children(table, dep);
    let from = start.len() as int;
    assert(now.take(from) =~= start);
    assert(memo_keys(now)[memo.len() as int] == dep.key());
    let at = position_of_key(now, dep.key());
    assert(memo_keys(now)[at] == dep.key());
    assert(at == memo.len());
    lemma_visits_extend(table, memo, now, from, memo.len() as int, below, below.len() as int);
}

/// A visit is recorded in one way only: two memos that agree in their first
/// `from` entries and both record a visit to `dep` from there agree up to
/// the end of the visit, which is the same in both.
pub proof fn lemma_visit_fixed(
    table: Seq<MetadataEntryModel>,
    a: Seq<ResolvedModel>,
    b: Seq<ResolvedModel>,
    from: int,
    limit_a: int,
    limit_b: int,
    dep: DependencyModel,
)
    requires
        0 <= from <= limit_a <= a.len(),
        from <= limit_b <= b.len(),
        a.take(from) == b.take(from),
        visit_ok(table, a, from, limit_a, dep),
        visit_ok(table, b, from, limit_b, dep),
    ensures
        visit_end(a, from, dep) == visit_end(b, from, dep),
        from <= visit_end(a, from, dep) <= limit_a,
        visit_end(a, from, dep) <= limit_b,
        a.take(visit_end(a, from, dep)) == b.take(visit_end(a, from, dep)),
    decreases limit_a, 0nat, 0int,
{
    if !memo_keys(a.take(from)).contains(dep.key()) {
        let at = position_of_key(a, dep.key());
        let bt = position_of_key(b, dep.key());
        let below = children(table, dep);
        lemma_visits_fixed(table, a, b, from, at, bt, below, below.len() as int);
        assert(at == bt);
        assert(a[at] == b[at]);
        assert(a.take(at + 1) =~= a.take(at).push(a[at]));
        assert(b.take(at + 1) =~= b.take(at).push(b[at]));
    }
}

/// Visits are recorded in one way only: two memos that agree in their first
/// `from` entries and both record visits to the first `n` of `kids` from
/// there agree up to the end of the last visit, which is the same in both.
pub proof fn lemma_visits_fixed(
    table: Seq<MetadataEntryModel>,
    a: Seq<ResolvedModel>,
    b: Seq<ResolvedModel>,
    from: int,
    limit_a: int,
    limit_b: int,
    kids: Seq<DependencyModel>,
    n: int,
)
    requires
        0 <= from <= limit_a <= a.len(),
        from <= limit_b <= b.len(),
        0 <= n <= kids.len(),
        a.take(from) == b.take(from),
        visits_ok(table, a, from, limit_a, kids, n),
        visits_ok(table, b, from, limit_b, kids, n),
    ensures
        visits_end(a, from, kids, n) == visits_end(b, from, kids, n),
        from <= visits_end(a, from, kids, n) <= limit_a,
        visits_end(a, from, kids, n) <= limit_b,
        a.take(visits_end(a, from, kids, n)) == b.take(visits_end(a, from, kids, n)),
    decreases limit_a, 1nat, n,
{
    if n > 0 {
        lemma_visits_fixed(table, a, b, from, limit_a, limit_b, kids, n - 1);
        let mid = visits_end(a, from, kids, n - 1);
        lemma_visit_fixed(table, a, b, mid, limit_a, limit_b, kids[n - 1]);
    }
}

/// The resolution is a function of what it is given: two memos that the
/// resolution of the same dependencies, under the same source, makes of the
/// same memo are equal, and so are the lists that the two resolutions
/// return. Two resolvers that begin alike and are asked alike end alike.
pub proof fn lemma_walked_unique(
    table: Seq<MetadataEntryModel>,
    specs: Seq<DependencyModel>,
    before: Seq<ResolvedModel>,
    first: Seq<ResolvedModel>,
    second: Seq<ResolvedModel>,
)
    requires
        walked(table, specs, before, first),
        walked(table, specs, before, second),
    ensures
        first == second,
        memo_keys(first) == memo_keys(second),
        closure(first, keys_of(specs)) == closure(second, keys_of(specs)),
{
    let from = before.len() as int;
    assert(first.take(from) =~= before);
    assert(second.take(from) =~= before);
    lemma_visits_fixed(
        table,
        first,
        second,
        from,
        first.len() as int,
        second.len() as int,
        specs,
        specs.len() as int,
    );
    assert(first.take(first.len() as int) =~= first);
    assert(second.take(second.len() as int) =~= second);
}

/// The kind of a conflict between resolved dependencies.
#[derive(Debug, Clone, Copy, PartialEq, Eq, Structural)]
pub enum ConflictType {
    VersionConflict,
    ScopeConflict,
    OptionalConflict,
}

/// Several versions of one group and artifact among the resolved
/// dependencies.
#[derive(Debug)]
pub struct DependencyConflict {
    pub group_id: String,
    pub artifact_id: String,
    pub versions: Vec<String>,
    pub conflict_type: ConflictType,
}

/// What a [`DependencyConflict`] stands for.
pub struct ConflictModel {
    pub group_id: Seq<char>,
    pub artifact_id: Seq<char>,
    pub versions: Seq<Seq<char>>,
    pub conflict_type: ConflictType,
}

impl View for DependencyConflict {
    type V = ConflictModel;

    open spec fn view(&self) -> ConflictModel {
        ConflictModel {
            group_id: self.group_id@,
            artifact_id: self.artifact_id@,
            versions: texts(self.versions@),
            conflict_type: self.conflict_type,
        }
    }
}

impl DeepView for DependencyConflict {
    type V = ConflictModel;

    open spec fn deep_view(&self) -> ConflictModel {
        self@
    }
}

/// Whether `d` is the artifact `artifact` of the group `group`.
pub open spec fn is_artifact(d: DependencyModel, group: Seq<char>, artifact: Seq<char>) -> bool {
    d.group_id == group && d.artifact_id == artifact
}

/// The distinct versions in which the artifact occurs among the first `n`
/// entries, in the order of first occurrence.
pub open spec fn versions_upto(
    memo: Seq<ResolvedModel>,
    group: Seq<char>,
    artifact: Seq<char>,
    n: int,
) -> Seq<Seq<char>>
    decreases n,
{
    if n <= 0 {
        Seq::empty()
    } else {
        let init = versions_upto(memo, group, artifact, n - 1);
        let d = memo[n - 1].dependency;
        if is_artifact(d, group, artifact) && !init.contains(d.version) {
            init.push(d.version)
        } else {
            init
        }
    }
}

/// No earlier entry has the group and artifact of entry `i`.
pub open spec fn first_of_artifact(memo: Seq<ResolvedModel>, i: int) -> bool {
    forall|j: int|
        0 <= j < i ==> !is_artifact(
            (#[trigger] memo[j]).dependency,
            memo[i].dependency.group_id,
            memo[i].dependency.artifact_id,
        )
}

/// The conflict that the artifact of entry `i` is in, if it occurs in two
/// versions or more.
pub open spec fn conflict_at(memo: Seq<ResolvedModel>, i: int) -> ConflictModel {
    let d = memo[i].dependency;
    ConflictModel {
        group_id: d.group_id,
        artifact_id: d.artifact_id,
        versions: versions_upto(memo, d.group_id, d.artifact_id, memo.len() as int),
        conflict_type: ConflictType::VersionConflict,
    }
}

/// The conflicts of the artifacts that first occur among the first `n`
/// entries: one for each artifact that occurs in two versions or more, in
/// the order of first occurrence.
pub open spec fn conflicts_upto(memo: Seq<ResolvedModel>, n: int) -> Seq<ConflictModel>
    decreases n,
{
    if n <= 0 {
        Seq::empty()
    } else {
        let init = conflicts_upto(memo, n - 1);
        if first_of_artifact(memo, n - 1) && conflict_at(memo, n - 1).versions.len() >= 2 {
            init.push(conflict_at(memo, n - 1))
        } else {
            init
        }
    }
}

/// The versions listed for an artifact are exactly those in which it occurs.
pub proof fn lemma_versions_complete(
    memo: Seq<ResolvedModel>,
    group: Seq<char>,
    artifact: Seq<char>,
    n: int,
    i: int,
)
    requires
        0 <= i < n <= memo.len(),
        is_artifact(memo[i].dependency, group, artifact),
    ensures
        versions_upto(memo, group, artifact, n).contains(memo[i].dependency.version),
    decreases n,
{
    let init = versions_upto(memo, group, artifact, n - 1);
    let all = versions_upto(memo, group, artifact, n);
    if i == n - 1 {
        if init.contains(memo[i].dependency.version) {
            let m = choose|m: int| 0 <= m < init.len() && init[m] == memo[i].dependency.version;
            assert(all[m] == memo[i].dependency.version);
        } else {
            assert(all[all.len() - 1] == memo[i].dependency.version);
        }
    } else {
        lemma_versions_complete(memo, group, artifact, n - 1, i);
        let m = choose|m: int| 0 <= m < init.len() && init[m] == memo[i].dependency.version;
        assert(all[m] == memo[i].dependency.version);
    }
}

/// Every version listed for an artifact is the version of an entry of that
/// artifact, and none is listed twice.
pub proof fn lemma_versions_sound(
    memo: Seq<ResolvedModel>,
    group: Seq<char>,
    artifact: Seq<char>,
    n: int,
)
    requires
        0 <= n <= memo.len(),
    ensures
        versions_upto(memo, group, artifact, n).no_duplicates(),
        forall|m: int|
            0 <= m < versions_upto(memo, group, artifact, n).len() ==> exists|i: int|
                0 <= i < n && is_artifact((#[trigger] memo[i]).dependency, group, artifact)
                    && memo[i].dependency.version == #[trigger] versions_upto(
                    memo,
                    group,
                    artifact,
                    n,
                )[m],
    decreases n,
{
    if n > 0 {
        lemma_versions_sound(memo, group, artifact, n - 1);
        let init = versions_upto(memo, group, artifact, n - 1);
        let all = versions_upto(memo, group, artifact, n);
        assert forall|m: int| 0 <= m < all.len() implies exists|i: int|
            0 <= i < n && is_artifact((#[trigger] memo[i]).dependency, group, artifact)
                && memo[i].dependency.version == #[trigger] all[m] by {
            if m < init.len() {
                let i = choose|i: int|
                    0 <= i < n - 1 && is_artifact((#[trigger] memo[i]).dependency, group, artifact)
                        && memo[i].dependency.version == init[m];
                assert(is_artifact(memo[i].dependency, group, artifact));
            } else {
                assert(is_artifact(memo[n - 1].dependency, group, artifact));
            }
        }
    }
}

/// Some entry at or before `i` is the first of the artifact of entry `i`.
pub proof fn lemma_first_exists(memo: Seq<ResolvedModel>, i: int) -> (f: int)
    requires
        0 <= i < memo.len(),
    ensures
        0 <= f <= i,
        first_of_artifact(memo, f),
        is_artifact(memo[f].dependency, memo[i].dependency.group_id, memo[i].dependency.artifact_id),
    decreases i,
{
    if first_of_artifact(memo, i) {
        i
    } else {
        let j = choose|j: int|
            0 <= j < i && is_artifact(
                (#[trigger] memo[j]).dependency,
                memo[i].dependency.group_id,
                memo[i].dependency.artifact_id,
            );
        lemma_first_exists(memo, j)
    }
}

/// The conflict of an artifact that occurs in two versions or more is
/// reported once its first entry has been passed.
pub proof fn lemma_conflict_listed(memo: Seq<ResolvedModel>, n: int, f: int)
    requires
        0 <= f < n <= memo.len(),
        first_of_artifact(memo, f),
        conflict_at(memo, f).versions.len() >= 2,
    ensures
        conflicts_upto(memo, n).contains(conflict_at(memo, f)),
    decreases n,
{
    let init = conflicts_upto(memo, n - 1);
    let all = conflicts_upto(memo, n);
    if f == n - 1 {
        assert(all[all.len() - 1] == conflict_at(memo, f));
    } else {
        lemma_conflict_listed(memo, n - 1, f);
        let m = choose|m: int| 0 <= m < init.len() && init[m] == conflict_at(memo, f);
        assert(all[m] == conflict_at(memo, f));
    }
}

/// Two resolved dependencies of one group and artifact in different
/// versions give a version conflict that names both versions.
pub proof fn lemma_conflict_detected(memo: Seq<ResolvedModel>, i: int, j: int)
    requires
        0 <= i < memo.len(),
        0 <= j < memo.len(),
        is_artifact(memo[j].dependency, memo[i].dependency.group_id, memo[i].dependency.artifact_id),
        memo[i].dependency.version != memo[j].dependency.version,
    ensures
        exists|c: int|
            0 <= c < conflicts_upto(memo, memo.len() as int).len() && {
                let found = #[trigger] conflicts_upto(memo, memo.len() as int)[c];
                &&& found.group_id == memo[i].dependency.group_id
                &&& found.artifact_id == memo[i].dependency.artifact_id
                &&& found.conflict_type == ConflictType::VersionConflict
                &&& found.versions.contains(memo[i].dependency.version)
                &&& found.versions.contains(memo[j].dependency.version)
            },
{
    let n = memo.len() as int;
    let g = memo[i].dependency.group_id;
    let a = memo[i].dependency.artifact_id;
    let f = lemma_first_exists(memo, i);
    let versions = versions_upto(memo, g, a, n);
    lemma_versions_complete(memo, g, a, n, i);
    lemma_versions_complete(memo, g, a, n, j);
    let x = choose|x: int| 0 <= x < versions.len() && versions[x] == memo[i].dependency.version;
    let y = choose|y: int| 0 <= y < versions.len() && versions[y] == memo[j].dependency.version;
    assert(x != y);
    assert(conflict_at(memo, f).versions == versions);
    lemma_conflict_listed(memo, n, f);
    let all = conflicts_upto(memo, n);
    let c = choose|c: int| 0 <= c < all.len() && all[c] == conflict_at(memo, f);
    assert(all[c].versions.contains(memo[i].dependency.version));
}

/// Every reported conflict names two versions or more of its artifact, each
/// of them the version of a resolved dependency, none of them twice.
pub proof fn lemma_conflicts_sound(memo: Seq<ResolvedModel>, n: int, c: int)
    requires
        0 <= n <= memo.len(),
        0 <= c < conflicts_upto(memo, n).len(),
    ensures
        conflicts_upto(memo, n)[c].versions.len() >= 2,
        conflicts_upto(memo, n)[c].versions.no_duplicates(),
        conflicts_upto(memo, n)[c].conflict_type == ConflictType::VersionConflict,
        conflicts_upto(memo, n)[c].versions == versions_upto(
            memo,
            conflicts_upto(memo, n)[c].group_id,
            conflicts_upto(memo, n)[c].artifact_id,
            memo.len() as int,
        ),
    decreases n,
{
    let init = conflicts_upto(memo, n - 1);
    if c < init.len() {
        lemma_conflicts_sound(memo, n - 1, c);
    } else {
        let d = memo[n - 1].dependency;
        lemma_versions_sound(memo, d.group_id, d.artifact_id, memo.len() as int);
    }
}

/// A node of the tree that shows the resolved dependencies.
#[derive(Debug)]
pub struct DependencyTreeNode {
    pub dependency: Dependency,
    pub children: Vec<DependencyTreeNode>,
    pub depth: usize,
    /// Whether the dependency is expanded elsewhere in the tree and is a
    /// mere mark here.
    pub repeated: bool,
}

/// The graph of the resolved dependencies: the edges of an entry lead to the
/// entries that its edges name.
pub open spec fn memo_graph(memo: Seq<ResolvedModel>) -> Seq<Seq<usize>> {
    Seq::new(memo.len(), |i: int| targets_spec(memo_keys(memo), memo[i].edges))
}

/// The node shows the resolved dependencies as the plan says: the same
/// shape, and at each place the dependency with the number that the plan
/// gives.
pub open spec fn mirrors(memo: Seq<ResolvedModel>, plan: IndexTree, node: DependencyTreeNode) -> bool
    decreases plan, 1nat,
{
    &&& plan.index < memo.len()
    &&& node.dependency@ == memo[plan.index as int].dependency
    &&& node.depth == plan.depth
    &&& node.repeated == plan.repeated
    &&& node.children@.len() == plan.children@.len()
    &&& mirrors_upto(memo, plan.children@, node.children@, plan.children@.len() as int)
}

/// The first `n` of `nodes` show the resolved dependencies as the first `n`
/// of `plans` say.
pub open spec fn mirrors_upto(
    memo: Seq<ResolvedModel>,
    plans: Seq<IndexTree>,
    nodes: Seq<DependencyTreeNode>,
    n: int,
) -> bool
    decreases plans, 0nat, n,
{
    if n <= 0 || n > plans.len() || n > nodes.len() {
        n <= 0
    } else {
        &&& mirrors_upto(memo, plans, nodes, n - 1)
        &&& mirrors(memo, plans[n - 1], nodes[n - 1])
    }
}

/// Adding a node behind the first `n` keeps them as they are.
pub proof fn lemma_mirrors_push(
    memo: Seq<ResolvedModel>,
    plans: Seq<IndexTree>,
    nodes: Seq<DependencyTreeNode>,
    node: DependencyTreeNode,
    n: int,
)
    requires
        0 <= n <= nodes.len(),
        mirrors_upto(memo, plans, nodes, n),
    ensures
        mirrors_upto(memo, plans, nodes.push(node), n),
    decreases n,
{
    if n > 0 {
        lemma_mirrors_push(memo, plans, nodes, node, n - 1);
        assert(nodes.push(node)[n - 1] == nodes[n - 1]);
    }
}

/// The entries by number, the last first.
pub open spec fn last_first(n: nat) -> Seq<usize> {
    Seq::new(n, |i: int| (n - 1 - i) as usize)
}

/// The trees `nodes` show every resolved dependency: they follow the walk
/// over the graph of the memo that starts from each entry in turn, the
/// last first, that no earlier tree shows, and that expands each entry
/// exactly once, where it first reaches it.
pub open spec fn shows_all(memo: Seq<ResolvedModel>, nodes: Seq<DependencyTreeNode>) -> bool {
    exists|plan: Seq<IndexTree>|
        {
            &&& #[trigger] forest_ok(memo_graph(memo), plan)
            &&& roots_ok(last_first(memo.len()), plan, memo.len() as int, plan.len() as int)
            &&& forall|v: usize| v < memo.len() ==> #[trigger] expanded_all(plan).contains(v)
            &&& nodes.len() == plan.len()
            &&& mirrors_upto(memo, plan, nodes, plan.len() as int)
        }
}

/// The key `key` belongs to an entry of `memo` at index `from` or later.
pub open spec fn recorded_behind(memo: Seq<ResolvedModel>, from: int, key: Seq<char>) -> bool {
    exists|i: int| from <= i < memo.len() && memo_keys(memo)[i] == key
}

/// The keys `asked`, for which the source was asked, are the keys of the
/// entries of `memo` from index `from` on, each once: no key was asked for
/// twice, each belongs to one of these entries, and there are as many keys
/// as entries.
pub open spec fn asked_once(asked: Seq<Seq<char>>, memo: Seq<ResolvedModel>, from: int) -> bool {
    &&& asked.no_duplicates()
    &&& asked.len() == memo.len() - from
    &&& forall|t: int| 0 <= t < asked.len() ==> recorded_behind(memo, from, #[trigger] asked[t])
}

/// While an expansion is under way: the source was asked once for each
/// entry from `from` on and once for each dependency on `path`, and for
/// nothing else.
#[verifier::opaque]
pub open spec fn ask_inv(
    asked: Seq<Seq<char>>,
    memo: Seq<ResolvedModel>,
    from: int,
    path: Seq<DependencyModel>,
) -> bool {
    &&& asked.no_duplicates()
    &&& asked.len() == memo.len() - from + path.len()
    &&& forall|t: int|
        0 <= t < asked.len() ==> recorded_behind(memo, from, #[trigger] asked[t]) || keys_of(
            path,
        ).contains(asked[t])
}

/// Before the expansion begins the source was asked for nothing.
pub proof fn lemma_ask_start(memo: Seq<ResolvedModel>)
    ensures
        ask_inv(Seq::empty(), memo, memo.len() as int, Seq::empty()),
{
    reveal(ask_inv);
}

/// Asking for a dependency that is neither resolved nor on the path is
/// asking for something new.
pub proof fn lemma_ask_descend(
    asked: Seq<Seq<char>>,
    memo: Seq<ResolvedModel>,
    from: int,
    path: Seq<DependencyModel>,
    dep: DependencyModel,
)
    requires
        0 <= from,
        ask_inv(asked, memo, from, path),
        !memo_keys(memo).contains(dep.key()),
        !keys_of(path).contains(dep.key()),
    ensures
        ask_inv(asked.push(dep.key()), memo, from, path.push(dep)),
{
    reveal(ask_inv);
    let next = asked.push(dep.key());
    let down = path.push(dep);
    assert forall|t: int| 0 <= t < asked.len() implies asked[t] != dep.key() && (recorded_behind(
        memo,
        from,
        #[trigger] asked[t],
    ) || keys_of(down).contains(asked[t])) by {
        if recorded_behind(memo, from, asked[t]) {
            let i = choose|i: int| from <= i < memo.len() && memo_keys(memo)[i] == asked[t];
            assert(memo_keys(memo).contains(asked[t]));
        } else {
            let m = choose|m: int| 0 <= m < keys_of(path).len() && keys_of(path)[m] == asked[t];
            assert(keys_of(down)[m] == asked[t]);
        }
    }
    assert(keys_of(down)[path.len() as int] == dep.key());
    assert forall|t: int| 0 <= t < next.len() implies recorded_behind(memo, from, #[trigger] next[t])
        || keys_of(down).contains(next[t]) by {
        if t < asked.len() {
            assert(next[t] == asked[t]);
        }
    }
    assert forall|x: int, y: int| 0 <= x < next.len() && 0 <= y < next.len() && x != y implies next[x]
        != next[y] by {
        if x < asked.len() {
            assert(next[x] == asked[x]);
        }
        if y < asked.len() {
            assert(next[y] == asked[y]);
        }
    }
}

/// When a dependency leaves the path and is recorded, what was asked for it
/// was asked for an entry.
pub proof fn lemma_ask_finish(
    asked: Seq<Seq<char>>,
    memo: Seq<ResolvedModel>,
    from: int,
    path: Seq<DependencyModel>,
    entry: ResolvedModel,
)
    requires
        0 <= from <= memo.len(),
        ask_inv(asked, memo, from, path.push(entry.dependency)),
    ensures
        ask_inv(asked, memo.push(entry), from, path),
{
    reveal(ask_inv);
    let now = memo.push(entry);
    let down = path.push(entry.dependency);
    assert forall|t: int| 0 <= t < asked.len() implies recorded_behind(now, from, #[trigger] asked[t])
        || keys_of(path).contains(asked[t]) by {
        if recorded_behind(memo, from, asked[t]) {
            let i = choose|i: int| from <= i < memo.len() && memo_keys(memo)[i] == asked[t];
            assert(memo_keys(now)[i] == asked[t]);
        } else {
            let m = choose|m: int| 0 <= m < keys_of(down).len() && keys_of(down)[m] == asked[t];
            if m < path.len() {
                assert(keys_of(path)[m] == asked[t]);
            } else {
                assert(memo_keys(now)[memo.len() as int] == asked[t]);
            }
        }
    }
}

/// When the expansion is back at the top, the source was asked once for
/// each new entry.
pub proof fn lemma_ask_end(asked: Seq<Seq<char>>, memo: Seq<ResolvedModel>, from: int)
    requires
        ask_inv(asked, memo, from, Seq::empty()),
    ensures
        asked_once(asked, memo, from),
{
    reveal(ask_inv);
    assert(keys_of(Seq::<DependencyModel>::empty()).len() == 0);
}

/// Where the source was asked once for each entry from `from` on, it was
/// asked for every one of them: the key of each such entry is among the
/// keys asked for, and stands there once.
pub proof fn lemma_asked_each(asked: Seq<Seq<char>>, memo: Seq<ResolvedModel>, from: int, i: int)
    requires
        memo_keys(memo).no_duplicates(),
        0 <= from <= i < memo.len(),
        asked_once(asked, memo, from),
    ensures
        asked.contains(memo_keys(memo)[i]),
        asked.no_duplicates(),
{
    let fresh = memo_keys(memo).skip(from);
    assert forall|x: int, y: int| 0 <= x < fresh.len() && 0 <= y < fresh.len() && x != y implies fresh[x]
        != fresh[y] by {
        assert(fresh[x] == memo_keys(memo)[from + x]);
        assert(fresh[y] == memo_keys(memo)[from + y]);
    }
    asked.unique_seq_to_set();
    fresh.unique_seq_to_set();
    vstd::seq_lib::seq_to_set_is_finite(asked);
    vstd::seq_lib::seq_to_set_is_finite(fresh);
    assert forall|k: Seq<char>| asked.to_set().contains(k) implies fresh.to_set().contains(k) by {
        let t = choose|t: int| 0 <= t < asked.len() && asked[t] == k;
        assert(recorded_behind(memo, from, asked[t]));
        let j = choose|j: int| from <= j < memo.len() && memo_keys(memo)[j] == k;
        assert(fresh[j - from] == k);
    }
    vstd::set_lib::lemma_subset_equality(asked.to_set(), fresh.to_set());
    assert(fresh[i - from] == memo_keys(memo)[i]);
    assert(fresh.to_set().contains(memo_keys(memo)[i]));
    assert(asked.to_set().contains(memo_keys(memo)[i]));
}

/// The source is asked once for whatever the resolved `specs` require,
/// directly or through others, and was not resolved before: however many
/// chains of requirements lead to a key, the key stands once among the keys
/// asked for.
pub proof fn lemma_required_asked_once(
    table: Seq<MetadataEntryModel>,
    specs: Seq<DependencyModel>,
    before: Seq<ResolvedModel>,
    after: Seq<ResolvedModel>,
    asked: Seq<Seq<char>>,
    p: Seq<DependencyModel>,
)
    requires
        expanded_with(table, before, 0),
        resolved_from(table, specs, before, after),
        requirements_by_key(table, specs, before),
        asked_once(asked, after, before.len() as int),
        is_chain(table, p),
        p.len() >= 1,
        specs.contains(p[0]),
        !memo_keys(before).contains(p.last().key()),
    ensures
        asked.contains(p.last().key()),
        asked.no_duplicates(),
{
    lemma_chain_descends(table, specs, before, after, p, p.len() - 1);
    let i = position_of_key(after, p.last().key());
    assert(memo_keys(after)[i] == p.last().key());
    if i < before.len() {
        assert(memo_keys(before)[i] == p.last().key());
    }
    lemma_asked_each(asked, after, before.len() as int, i);
}

/// The resolver. It remembers what it has resolved, so that a coordinate is
/// expanded once however many dependencies require it.
pub struct DependencyResolver {
    resolved: Vec<ResolvedDependency>,
    keys: Vec<String>,
    in_progress: Vec<String>,
    asked: Vec<String>,
}

impl View for DependencyResolver {
    type V = Seq<ResolvedModel>;

    closed spec fn view(&self) -> Seq<ResolvedModel> {
        self.resolved.deep_view()
    }
}

impl DependencyResolver {
    /// The resolver's own bookkeeping agrees with what it has resolved, and
    /// no expansion is under way.
    pub closed spec fn at_rest(&self) -> bool {
        &&& texts(self.keys@) == memo_keys(self@)
        &&& self.in_progress@.len() == 0
    }

    /// The resolver is in a state that its operations keep.
    pub open spec fn wf(&self) -> bool {
        &&& memo_wf(self@)
        &&& self.at_rest()
    }

    /// The state in the middle of an expansion that started from the memo
    /// `start` and has come down `path`.
    spec fn walking(
        &self,
        table: Seq<MetadataEntryModel>,
        specs: Seq<DependencyModel>,
        path: Seq<DependencyModel>,
        start: Seq<ResolvedModel>,
    ) -> bool {
        &&& walk_inv(table, specs, path, start, self@)
        &&& texts(self.keys@) == memo_keys(self@)
        &&& texts(self.in_progress@) == keys_of(path)
        &&& ask_inv(texts(self.asked@), self@, start.len() as int, path)
    }

    /// The number of lookups of the metadata source that the last call of
    /// [`Self::resolve_dependencies`] made.
    pub closed spec fn lookup_count(&self) -> nat {
        self.asked@.len()
    }

    /// The keys for which the last call of [`Self::resolve_dependencies`]
    /// asked the metadata source, in the order of the lookups.
    pub closed spec fn asked(&self) -> Seq<Seq<char>> {
        texts(self.asked@)
    }

    /// The keys for which the last call of [`Self::resolve_dependencies`]
    /// asked the metadata source, in the order of the lookups.
    pub fn last_asked(&self) -> (r: &Vec<String>)
        ensures
            texts(r@) == self.asked(),
            r@.len() == self.lookup_count(),
    {
        &self.asked
    }

    /// The number of lookups of the metadata source that the last call of
    /// [`Self::resolve_dependencies`] made.
    pub fn last_lookups(&self) -> (r: u128)
        ensures
            r == self.lookup_count(),
    {
        self.asked.len() as u128
    }

    /// A resolver that has resolved nothing.
    pub fn new() -> (r: Self)
        ensures
            r.wf(),
            r@.len() == 0,
    {
        let r = DependencyResolver {
            resolved: Vec::new(),
            keys: Vec::new(),
            in_progress: Vec::new(),
            asked: Vec::new(),
        };
        assert(texts(r.keys@) =~= memo_keys(r@));
        r
    }

    /// Forgets everything resolved.
    pub fn clear(&mut self)
        ensures
            final(self).wf(),
            final(self)@.len() == 0,
    {
        self.resolved.clear();
        self.keys.clear();
        self.in_progress.clear();
        assert(texts(self.keys@) =~= memo_keys(self@));
    }

    /// The number of resolved dependencies.
    pub fn len(&self) -> (r: usize)
        ensures
            r == self@.len(),
    {
        self.resolved.len()
    }

    /// The place of the entry that edge `k` of entry `i` names: an earlier
    /// entry, the one with the key that the edge reads.
    pub fn edge_target(&self, i: usize, k: usize) -> (t: usize)
        requires
            self.wf(),
            i < self@.len(),
            k < self@[i as int].edges.len(),
        ensures
            t < i,
            t == position_of_key(self@, self@[i as int].edges[k as int]),
            memo_keys(self@)[t as int] == self@[i as int].edges[k as int],
    {
        let ghost memo = self@;
        let entry = &self.resolved[i];
        assert(entry@ == memo[i as int]);
        assert(texts(entry.edges@)[k as int] == entry.edges@[k as int]@);
        let found = position_of(&self.keys, entry.edges[k].as_str());
        proof {
            assert(edge_resolved(memo, i as int, k as int));
            let j = choose|j: int| 0 <= j < i && memo_keys(memo)[j] == memo[i as int].edges[k as int];
            assert(texts(self.keys@).len() == memo_keys(memo).len());
            assert(0 <= j < self.keys@.len());
            assert(texts(self.keys@)[j] == self.keys@[j]@);
            let at = position_of_key(memo, memo[i as int].edges[k as int]);
            assert(memo_keys(memo)[at] == memo[i as int].edges[k as int]);
            assert(at == j);
            if found is Some {
                assert(texts(self.keys@)[found->0 as int] == self.keys@[found->0 as int]@);
                assert(found->0 == j);
            } else {
                assert(texts(self.keys@).contains(memo_keys(memo)[j]));
            }
        }
        match found {
            Some(t) => t,
            None => 0,
        }
    }

    /// The resolved dependencies with their edges, in the order in which
    /// they were resolved.
    pub fn entries(&self) -> (r: &Vec<ResolvedDependency>)
        ensures
            r.deep_view() == self@,
    {
        &self.resolved
    }

    /// Expands `dep` unless it is resolved already, and records it behind
    /// everything that it requires.
    fn resolve_dependency<S: MetadataSource>(
        &mut self,
        dep: &Dependency,
        table: &S,
        Ghost(specs): Ghost<Seq<DependencyModel>>,
        Ghost(path): Ghost<Seq<DependencyModel>>,
        Ghost(start): Ghost<Seq<ResolvedModel>>,
    ) -> (r: Result<(), ResolveError>)
        requires
            old(self).walking(table.listing(), specs, path, start),
            path.len() == 0 ==> specs.contains(dep@),
            path.len() > 0 ==> children(table.listing(), path.last()).contains(dep@),
        ensures
            is_prefix(old(self)@, final(self)@),
            is_prefix(start, final(self)@),
            texts(final(self).keys@) == memo_keys(final(self)@),
            match r {
                Ok(()) => {
                    &&& final(self).walking(table.listing(), specs, path, start)
                    &&& memo_keys(final(self)@).contains(dep@.key())
                    &&& visit_ok(
                        table.listing(),
                        final(self)@,
                        old(self)@.len() as int,
                        final(self)@.len() as int,
                        dep@,
                    )
                    &&& visit_end(final(self)@, old(self)@.len() as int, dep@) == final(self)@.len()
                },
                Err(e) => error_witness(table.listing(), specs, start, e),
            },
        decreases all_listed(table.listing()).len() + 1 - path.len(),
    {
        proof {
            lemma_walk_prefix(table.listing(), specs, path, start, self@);
            assert(self@.take(self@.len() as int) =~= self@);
        }
        let key = dep.coordinate();
        if contains_text(&self.keys, key.as_str()) {
            return Ok(());
        }
        if contains_text(&self.in_progress, key.as_str()) {
            proof {
                lemma_walk_cycle(table.listing(), specs, path, start, self@, dep@);
            }
            return Err(ResolveError::Cycle(key));
        }
        proof {
            assert(self.resolved.len() == self.resolved@.len());
            assert(self.in_progress.len() == self.in_progress@.len());
            assert(texts(self.in_progress@).len() == keys_of(path).len());
            assert(self@.len() == self.resolved@.len());
        }
        let ghost log = texts(self.asked@);
        self.asked.push(key.clone());
        assert(texts(self.asked@) =~= log.push(dep@.key()));
        let listed = match table.transitive_of(dep) {
            Some(listed) => listed,
            None => {
                proof {
                    lemma_walk_timeout(table.listing(), specs, path, start, self@, dep@);
                }
                return Err(ResolveError::MetadataTimeout(key));
            },
        };
        let kids = prune(dep, listed);
        let ghost below = children(table.listing(), dep@);
        proof {
            reveal(children);
        }
        assert(kids.deep_view() == below);
        assert(answer(table.listing(), dep@) is Some);
        let ghost down = path.push(dep@);
        self.in_progress.push(key.clone());
        proof {
            assert(texts(self.in_progress@) =~= keys_of(path).push(key@));
            assert(keys_of(down) =~= keys_of(path).push(dep@.key()));
            lemma_walk_descend(table.listing(), specs, path, start, self@, dep@);
            lemma_ask_descend(log, self@, start.len() as int, path, dep@);
        }
        let mut edges: Vec<String> = Vec::new();
        let mut i: usize = 0;
        assert(texts(edges@) =~= keys_of(below.take(0)));
        while i < kids.len()
            invariant
                i <= kids.len(),
                kids.deep_view() == below,
                below == children(table.listing(), dep@),
                down == path.push(dep@),
                down.len() <= all_listed(table.listing()).len() + 1,
                self.walking(table.listing(), specs, down, start),
                is_prefix(old(self)@, self@),
                texts(edges@) == keys_of(below.take(i as int)),
                forall|t: int| 0 <= t < i ==> memo_keys(self@).contains(#[trigger] below[t].key()),
                visits_ok(table.listing(), self@, old(self)@.len() as int, self@.len() as int, below, i as int),
                visits_end(self@, old(self)@.len() as int, below, i as int) == self@.len(),
                answer(table.listing(), dep@) is Some,
            decreases kids.len() - i,
        {
            let ghost before = self@;
            assert(kids[i as int]@ == below[i as int]);
            assert(down.last() == dep@);
            match self.resolve_dependency(&kids[i], table, Ghost(specs), Ghost(down), Ghost(start)) {
                Ok(()) => {},
                Err(e) => {
                    proof {
                        lemma_prefix_trans(old(self)@, before, self@);
                    }
                    return Err(e);
                },
            }
            proof {
                lemma_prefix_trans(old(self)@, before, self@);
                lemma_walk_prefix(table.listing(), specs, down, start, self@);
                lemma_visits_step(
                    table.listing(),
                    before,
                    self@,
                    old(self)@.len() as int,
                    below,
                    i as int,
                );
                assert forall|t: int| 0 <= t < i implies memo_keys(self@).contains(
                    #[trigger] below[t].key(),
                ) by {
                    lemma_prefix_keys(before, self@, below[t].key());
                }
            }
            let ghost sofar = texts(edges@);
            edges.push(kids[i].coordinate());
            proof {
                assert(texts(edges@) =~= sofar.push(below[i as int].key()));
                assert(keys_of(below.take(i + 1)) =~= keys_of(below.take(i as int)).push(
                    below[i as int].key(),
                ));
            }
            i = i + 1;
        }
        assert(below.take(kids.len() as int) =~= below);
        let ghost memo = self@;
        let ghost marks = texts(self.in_progress@);
        let ghost index = texts(self.keys@);
        self.in_progress.pop();
        let entry = ResolvedDependency { dependency: dep.clone(), edges };
        self.resolved.push(entry);
        self.keys.push(key);
        proof {
            let now = self@;
            assert(now =~= memo.push(entry@));
            assert(texts(self.in_progress@) =~= keys_of(path)) by {
                assert(marks.drop_last() =~= keys_of(path));
                assert(texts(self.in_progress@) =~= marks.drop_last());
            }
            assert(texts(self.keys@) =~= memo_keys(now)) by {
                assert(texts(self.keys@) =~= index.push(key@));
            }
            assert(memo_keys(now)[memo.len() as int] == dep@.key());
            lemma_walk_finish(table.listing(), specs, path, start, memo, dep@);
            lemma_ask_finish(texts(self.asked@), memo, start.len() as int, path, entry@);
            lemma_walk_prefix(table.listing(), specs, path, start, now);
            assert(is_prefix(memo, now));
            lemma_prefix_trans(old(self)@, memo, now);
            assert(entry@ == entry_of(table.listing(), dep@));
            lemma_visit_finish(table.listing(), old(self)@, memo, dep@);
        }
        Ok(())
    }

    /// Resolves `dependencies` and everything that they require, directly or
    /// through others, as the source `table` lists it.
    ///
    /// A dependency that is resolved already is not expanded again. What a
    /// dependency excludes is left out of its own requirements. On success
    /// the result holds every resolved dependency that `dependencies`
    /// require, each once and behind what it requires, and the metadata
    /// source was asked once for each dependency that the call resolved and
    /// for nothing else. On an error the resolver has resolved what it had
    /// before the call.
    pub fn resolve_dependencies<S: MetadataSource>(
        &mut self,
        dependencies: &[Dependency],
        table: &S,
    ) -> (r:
        Result<Vec<Dependency>, ResolveError>)
        requires
            old(self).wf(),
        ensures
            final(self).wf(),
            match r {
                Ok(list) => {
                    &&& resolved_from(table.listing(), dependencies.deep_view(), old(self)@, final(self)@)
                    &&& walked(table.listing(), dependencies.deep_view(), old(self)@, final(self)@)
                    &&& list.deep_view() == closure(final(self)@, keys_of(dependencies.deep_view()))
                    &&& final(self).lookup_count() == final(self)@.len() - old(self)@.len()
                    &&& asked_once(final(self).asked(), final(self)@, old(self)@.len() as int)
                },
                Err(e) => {
                    &&& final(self)@ == old(self)@
                    &&& error_witness(table.listing(), dependencies.deep_view(), old(self)@, e)
                },
            },
    {
        let base = self.resolved.len();
        let ghost start = self@;
        let ghost specs = dependencies.deep_view();
        let ghost none = Seq::<DependencyModel>::empty();
        let mut roots: Vec<String> = Vec::new();
        let mut i: usize = 0;
        self.asked.clear();
        proof {
            lemma_walk_start(table.listing(), specs, start);
            lemma_ask_start(start);
            assert(texts(self.asked@) =~= Seq::<Seq<char>>::empty());
            assert(keys_of(none) =~= Seq::<Seq<char>>::empty());
            assert(texts(self.in_progress@) =~= keys_of(none));
            assert(texts(roots@) =~= keys_of(specs.take(0)));
        }
        while i < dependencies.len()
            invariant
                i <= dependencies.len(),
                specs == dependencies.deep_view(),
                none.len() == 0,
                base == start.len(),
                start == old(self)@,
                memo_wf(start),
                self.walking(table.listing(), specs, none, start),
                texts(roots@) == keys_of(specs.take(i as int)),
                forall|k: int| 0 <= k < i ==> memo_keys(self@).contains(#[trigger] specs[k].key()),
                is_prefix(start, self@),
                visits_ok(table.listing(), self@, start.len() as int, self@.len() as int, specs, i as int),
                visits_end(self@, start.len() as int, specs, i as int) == self@.len(),
            decreases dependencies.len() - i,
        {
            let ghost before = self@;
            let dep = &dependencies[i];
            assert(specs[i as int] == dep@);
            match self.resolve_dependency(dep, table, Ghost(specs), Ghost(none), Ghost(start)) {
                Ok(()) => {},
                Err(e) => {
                    let ghost failed = self@;
                    let ghost index = texts(self.keys@);
                    assert(index.len() == failed.len());
                    self.resolved.truncate(base);
                    self.keys.truncate(base);
                    self.in_progress.clear();
                    proof {
                        assert(self@.len() == base);
                        assert forall|t: int| 0 <= t < base implies self@[t] == start[t] by {
                            assert(self@[t] == failed[t]);
                        }
                        assert(self@ =~= start);
                        assert(texts(self.keys@) =~= memo_keys(start)) by {
                            assert forall|t: int| 0 <= t < base implies texts(self.keys@)[t]
                                == memo_keys(start)[t] by {
                                assert(index[t] == memo_keys(failed)[t]);
                            }
                        }
                    }
                    return Err(e);
                },
            }
            proof {
                assert forall|k: int| 0 <= k < i implies memo_keys(self@).contains(
                    #[trigger] specs[k].key(),
                ) by {
                    lemma_prefix_keys(before, self@, specs[k].key());
                }
                lemma_walk_prefix(table.listing(), specs, none, start, self@);
                lemma_visits_step(table.listing(), before, self@, start.len() as int, specs, i as int);
            }
            let ghost sofar = texts(roots@);
            roots.push(dep.coordinate());
            proof {
                assert(texts(roots@) =~= sofar.push(dep@.key()));
                assert(keys_of(specs.take(i + 1)) =~= keys_of(specs.take(i as int)).push(dep@.key()));
            }
            i = i + 1;
        }
        proof {
            assert(specs.take(dependencies.len() as int) =~= specs);
            lemma_walk_end(table.listing(), specs, start, self@);
            lemma_ask_end(texts(self.asked@), self@, start.len() as int);
        }
        Ok(self.closure_of(&roots))
    }

    /// The resolved dependencies that the keys `roots` require, directly or
    /// through others, in the order in which they were resolved.
    pub fn closure_of(&self, roots: &Vec<String>) -> (r: Vec<Dependency>)
        requires
            self.wf(),
        ensures
            r.deep_view() == closure(self@, texts(roots@)),
    {
        let n = self.resolved.len();
        let ghost memo = self@;
        let ghost wanted = texts(roots@);
        assert(texts(self.keys@).len() == memo_keys(memo).len());
        let mut marks: Vec<bool> = Vec::new();
        let mut i: usize = 0;
        while i < n
            invariant
                i <= n,
                n == self.resolved.len(),
                n == self.keys.len(),
                memo == self@,
                wanted == texts(roots@),
                texts(self.keys@) == memo_keys(memo),
                marks.len() == i,
                forall|t: int| 0 <= t < i ==> #[trigger] marks@[t] == marked_by(memo, wanted, t, n as int),
            decreases n - i,
        {
            assert(texts(self.keys@)[i as int] == self.keys@[i as int]@);
            let hit = contains_text(roots, self.keys[i].as_str());
            marks.push(hit);
            i = i + 1;
        }
        let mut c: usize = n;
        while c > 0
            invariant
                c <= n,
                n == self.resolved.len(),
                n == self.keys.len(),
                memo == self@,
                memo_wf(memo),
                wanted == texts(roots@),
                texts(self.keys@) == memo_keys(memo),
                marks.len() == n,
                forall|t: int| 0 <= t < n ==> #[trigger] marks@[t] == marked_by(memo, wanted, t, c as int),
            decreases c,
        {
            c = c - 1;
            proof {
                lemma_marked_needed(memo, wanted, c as int, c + 1);
            }
            if marks[c] {
                let entry = &self.resolved[c];
                assert(entry@ == memo[c as int]);
                let mut k: usize = 0;
                while k < entry.edges.len()
                    invariant
                        k <= entry.edges.len(),
                        c < n,
                        n == self.resolved.len(),
                        n == self.keys.len(),
                        memo == self@,
                        memo_wf(memo),
                        entry@ == memo[c as int],
                        needed(memo, wanted, c as int),
                        texts(self.keys@) == memo_keys(memo),
                        marks.len() == n,
                        forall|t: int|
                            0 <= t < n ==> #[trigger] marks@[t] == (marked_by(memo, wanted, t, c + 1)
                                || exists|m: int| 0 <= m < k && memo[c as int].edges[m] == memo_keys(memo)[t]),
                    decreases entry.edges.len() - k,
                {
                    let ghost seen = marks@;
                    assert(texts(entry.edges@)[k as int] == entry.edges@[k as int]@);
                    let edge = &entry.edges[k];
                    match position_of(&self.keys, edge.as_str()) {
                        Some(t) => {
                            marks[t] = true;
                            proof {
                                assert(texts(self.keys@)[t as int] == edge@);
                                assert forall|u: int| 0 <= u < n implies #[trigger] marks@[u] == (
                                marked_by(memo, wanted, u, c + 1) || exists|m: int|
                                    0 <= m < k + 1 && memo[c as int].edges[m] == memo_keys(memo)[u]) by {
                                    if u == t {
                                        assert(memo[c as int].edges[k as int] == memo_keys(memo)[u]);
                                    } else {
                                        assert(marks@[u] == seen[u]);
                                        assert(memo_keys(memo)[u] != memo_keys(memo)[t as int]);
                                    }
                                }
                            }
                        },
                        None => {
                            proof {
                                assert(edge_resolved(memo, c as int, k as int));
                                let j = choose|j: int|
                                    0 <= j < c && memo_keys(memo)[j] == memo[c as int].edges[k as int];
                                assert(texts(self.keys@)[j] == edge@);
                            }
                        },
                    }
                    k = k + 1;
                }
                proof {
                    assert forall|t: int| 0 <= t < n implies #[trigger] marks@[t] == marked_by(
                        memo,
                        wanted,
                        t,
                        c as int,
                    ) by {
                        lemma_mark_step(memo, wanted, c as int, t);
                        if memo[c as int].edges.contains(memo_keys(memo)[t]) {
                            let m = choose|m: int|
                                0 <= m < memo[c as int].edges.len() && memo[c as int].edges[m]
                                    == memo_keys(memo)[t];
                            assert(0 <= m < k && memo[c as int].edges[m] == memo_keys(memo)[t]);
                        }
                    }
                }
            } else {
                proof {
                    assert forall|t: int| 0 <= t < n implies #[trigger] marks@[t] == marked_by(
                        memo,
                        wanted,
                        t,
                        c as int,
                    ) by {
                        lemma_mark_skip(memo, wanted, c as int, t);
                    }
                }
            }
        }
        let mut out: Vec<Dependency> = Vec::new();
        let mut i: usize = 0;
        assert(out.deep_view() =~= closure_upto(memo, wanted, 0));
        while i < n
            invariant
                i <= n,
                n == self.resolved.len(),
                memo == self@,
                marks.len() == n,
                forall|t: int| 0 <= t < n ==> #[trigger] marks@[t] == marked_by(memo, wanted, t, 0),
                out.deep_view() == closure_upto(memo, wanted, i as int),
            decreases n - i,
        {
            proof {
                lemma_marked_needed(memo, wanted, i as int, 0);
            }
            let ghost sofar = out.deep_view();
            if marks[i] {
                out.push(self.resolved[i].dependency.clone());
                assert(out.deep_view() =~= sofar.push(memo[i as int].dependency));
            }
            i = i + 1;
        }
        out
    }

    /// The keys of the resolved dependencies in install order: each key
    /// stands behind the keys of everything that its dependency requires.
    /// The order is that in which the dependencies were resolved.
    pub fn get_resolution_order(&self) -> (r: Vec<String>)
        requires
            self.wf(),
        ensures
            texts(r@) == memo_keys(self@),
            forall|i: int, k: int|
                0 <= i < self@.len() && 0 <= k < self@[i].edges.len() ==> #[trigger] placed_before(
                    texts(r@),
                    self@,
                    i,
                    k,
                ),
    {
        let n = self.resolved.len();
        let ghost memo = self@;
        assert(texts(self.keys@).len() == memo_keys(memo).len());
        let mut visited: Vec<bool> = Vec::new();
        let mut temp_visited: Vec<bool> = Vec::new();
        let mut fill: usize = 0;
        while fill < n
            invariant
                fill <= n,
                visited.len() == fill,
                temp_visited.len() == fill,
                forall|w: int| 0 <= w < fill ==> !visited@[w] && !temp_visited@[w],
            decreases n - fill,
        {
            visited.push(false);
            temp_visited.push(false);
            fill = fill + 1;
        }
        let mut order: Vec<String> = Vec::new();
        let mut i: usize = 0;
        assert(texts(order@) =~= memo_keys(memo).take(0));
        while i < n
            invariant
                i <= n,
                n == self.resolved.len(),
                self.wf(),
                memo == self@,
                visited.len() == n,
                temp_visited.len() == n,
                forall|w: int| 0 <= w < n ==> !temp_visited@[w],
                forall|w: int| 0 <= w < n ==> visited@[w] == (w < i),
                texts(order@) == memo_keys(memo).take(i as int),
            decreases n - i,
        {
            if !visited[i] {
                self.topological_sort(i, &mut visited, &mut temp_visited, &mut order);
            }
            assert(memo_keys(memo).take(i + 1) =~= memo_keys(memo).take(i as int).push(
                memo_keys(memo)[i as int],
            ));
            i = i + 1;
        }
        proof {
            assert(memo_keys(memo).take(n as int) =~= memo_keys(memo));
            assert forall|a: int, k: int|
                0 <= a < memo.len() && 0 <= k < memo[a].edges.len() implies #[trigger] placed_before(
                texts(order@),
                memo,
                a,
                k,
            ) by {
                assert(edge_resolved(memo, a, k));
                let j = choose|j: int| 0 <= j < a && memo_keys(memo)[j] == memo[a].edges[k];
                assert(texts(order@)[j] == memo[a].edges[k]);
            }
        }
        order
    }

    /// Puts the key of entry `at` behind the keys of everything that the
    /// entry requires, unless the entry is in the order already. An entry
    /// that is met again while it is being placed is left alone.
    fn topological_sort(
        &self,
        at: usize,
        visited: &mut Vec<bool>,
        temp_visited: &mut Vec<bool>,
        order: &mut Vec<String>,
    )
        requires
            self.wf(),
            at < self@.len(),
            old(visited).len() == self@.len(),
            old(temp_visited).len() == self@.len(),
            forall|w: int| 0 <= w <= at ==> !old(temp_visited)@[w],
            forall|w: int| 0 <= w < at ==> old(visited)@[w],
        ensures
            final(temp_visited)@ == old(temp_visited)@,
            old(visited)@[at as int] ==> final(visited)@ == old(visited)@ && final(order)@ == old(
                order,
            )@,
            !old(visited)@[at as int] ==> final(visited)@ == old(visited)@.update(at as int, true)
                && texts(final(order)@) == texts(old(order)@).push(memo_keys(self@)[at as int]),
        decreases at,
    {
        let ghost memo = self@;
        assert(texts(self.keys@).len() == memo_keys(memo).len());
        if temp_visited[at] {
            return ;
        }
        if visited[at] {
            return ;
        }
        temp_visited[at] = true;
        let entry = &self.resolved[at];
        assert(entry@ == memo[at as int]);
        let mut k: usize = 0;
        while k < entry.edges.len()
            invariant
                k <= entry.edges.len(),
                self.wf(),
                memo == self@,
                at < memo.len(),
                entry@ == memo[at as int],
                visited.len() == memo.len(),
                temp_visited.len() == memo.len(),
                self.keys.len() == memo.len(),
                visited@ == old(visited)@,
                order@ == old(order)@,
                old(visited).len() == memo.len(),
                old(temp_visited).len() == memo.len(),
                temp_visited@ == old(temp_visited)@.update(at as int, true),
                forall|w: int| 0 <= w <= at ==> !old(temp_visited)@[w],
                forall|w: int| 0 <= w < at ==> old(visited)@[w],
            decreases entry.edges.len() - k,
        {
            assert(texts(entry.edges@)[k as int] == entry.edges@[k as int]@);
            match position_of(&self.keys, entry.edges[k].as_str()) {
                Some(t) => {
                    proof {
                        assert(edge_resolved(memo, at as int, k as int));
                        let j = choose|j: int|
                            0 <= j < at && memo_keys(memo)[j] == memo[at as int].edges[k as int];
                        assert(texts(self.keys@)[j] == self.keys@[j]@);
                        assert(texts(self.keys@)[t as int] == self.keys@[t as int]@);
                        assert(t <= j);
                    }
                    self.topological_sort(t, visited, temp_visited, order);
                },
                None => {},
            }
            k = k + 1;
        }
        temp_visited[at] = false;
        visited[at] = true;
        let ghost sofar = texts(order@);
        order.push(self.keys[at].clone());
        proof {
            assert(temp_visited@ =~= old(temp_visited)@);
            assert(texts(self.keys@)[at as int] == self.keys@[at as int]@);
            assert(texts(order@) =~= sofar.push(memo_keys(memo)[at as int]));
        }
    }

    /// Whether no earlier resolved dependency has the group and artifact of
    /// the one at `i`.
    fn is_first_of_artifact(&self, i: usize) -> (r: bool)
        requires
            i < self@.len(),
        ensures
            r == first_of_artifact(self@, i as int),
    {
        let d = &self.resolved[i].dependency;
        let mut j: usize = 0;
        while j < i
            invariant
                j <= i,
                i < self.resolved.len(),
                d@ == self@[i as int].dependency,
                forall|m: int|
                    0 <= m < j ==> !is_artifact(
                        (#[trigger] self@[m]).dependency,
                        d@.group_id,
                        d@.artifact_id,
                    ),
            decreases i - j,
        {
            let e = &self.resolved[j].dependency;
            assert(e@ == self@[j as int].dependency);
            if e.group_id == d.group_id && e.artifact_id == d.artifact_id {
                return false;
            }
            j = j + 1;
        }
        true
    }

    /// The distinct versions in which the artifact is resolved, in the order
    /// of first occurrence.
    fn versions_of(&self, group_id: &String, artifact_id: &String) -> (r: Vec<String>)
        ensures
            texts(r@) == versions_upto(self@, group_id@, artifact_id@, self@.len() as int),
    {
        let mut out: Vec<String> = Vec::new();
        let mut i: usize = 0;
        assert(texts(out@) =~= versions_upto(self@, group_id@, artifact_id@, 0));
        while i < self.resolved.len()
            invariant
                i <= self.resolved.len(),
                texts(out@) == versions_upto(self@, group_id@, artifact_id@, i as int),
            decreases self.resolved.len() - i,
        {
            let d = &self.resolved[i].dependency;
            assert(d@ == self@[i as int].dependency);
            let ghost sofar = texts(out@);
            if d.group_id == *group_id && d.artifact_id == *artifact_id && !contains_text(
                &out,
                d.version.as_str(),
            ) {
                out.push(d.version.clone());
                assert(texts(out@) =~= sofar.push(d@.version));
            }
            i = i + 1;
        }
        out
    }

    /// The version conflicts among the resolved dependencies: one for each
    /// group and artifact that is resolved in two versions or more, with all
    /// those versions. Conflicts are reported, not settled.
    pub fn detect_conflicts(&self) -> (r: Vec<DependencyConflict>)
        ensures
            r.deep_view() == conflicts_upto(self@, self@.len() as int),
    {
        let mut conflicts: Vec<DependencyConflict> = Vec::new();
        let mut i: usize = 0;
        assert(conflicts.deep_view() =~= conflicts_upto(self@, 0));
        while i < self.resolved.len()
            invariant
                i <= self.resolved.len(),
                conflicts.deep_view() == conflicts_upto(self@, i as int),
            decreases self.resolved.len() - i,
        {
            let ghost sofar = conflicts.deep_view();
            if self.is_first_of_artifact(i) {
                let d = &self.resolved[i].dependency;
                assert(d@ == self@[i as int].dependency);
                let versions = self.versions_of(&d.group_id, &d.artifact_id);
                if versions.len() >= 2 {
                    let conflict = DependencyConflict {
                        group_id: d.group_id.clone(),
                        artifact_id: d.artifact_id.clone(),
                        versions,
                        conflict_type: ConflictType::VersionConflict,
                    };
                    assert(conflict@ == conflict_at(self@, i as int));
                    conflicts.push(conflict);
                    assert(conflicts.deep_view() =~= sofar.push(conflict_at(self@, i as int)));
                }
            }
            i = i + 1;
        }
        conflicts
    }

    /// The graph of the resolved dependencies.
    fn graph(&self) -> (r: Vec<Vec<usize>>)
        requires
            self.wf(),
        ensures
            r.deep_view() == memo_graph(self@),
            graph_ok(r.deep_view()),
            r@.len() == self@.len(),
    {
        let mut graph: Vec<Vec<usize>> = Vec::new();
        let mut i: usize = 0;
        let ghost memo = self@;
        while i < self.resolved.len()
            invariant
                i <= self.resolved.len(),
                memo == self@,
                texts(self.keys@) == memo_keys(memo),
                graph@.len() == i,
                forall|u: int|
                    0 <= u < i ==> (#[trigger] graph@[u])@ == targets_spec(memo_keys(memo), memo[u].edges),
            decreases self.resolved.len() - i,
        {
            let entry = &self.resolved[i];
            assert(entry@ == memo[i as int]);
            let targets = targets_of(&self.keys, &entry.edges);
            graph.push(targets);
            i = i + 1;
        }
        proof {
            assert(graph.deep_view() =~= memo_graph(memo)) by {
                assert forall|u: int| 0 <= u < graph@.len() implies graph.deep_view()[u] == memo_graph(
                    memo,
                )[u] by {
                    assert(graph.deep_view()[u] =~= graph@[u]@);
                }
            }
            let shape = memo_graph(memo);
            assert forall|u: int, k: int| 0 <= u < shape.len() && 0 <= k < shape[u].len() implies (
            #[trigger] shape[u][k]) < shape.len() by {
                lemma_targets_in_range(memo_keys(memo), memo[u].edges);
            }
        }
        graph
    }

    /// The node that shows the resolved dependencies as `plan` says.
    fn build_tree_node(&self, plan: &IndexTree, Ghost(graph): Ghost<Seq<Seq<usize>>>) -> (r:
        DependencyTreeNode)
        requires
            tree_ok(graph, *plan),
            graph.len() == self@.len(),
        ensures
            mirrors(self@, *plan, r),
        decreases plan,
    {
        let ghost memo = self@;
        let mut children: Vec<DependencyTreeNode> = Vec::new();
        let mut k: usize = 0;
        while k < plan.children.len()
            invariant
                k <= plan.children.len(),
                memo == self@,
                tree_ok(graph, *plan),
                graph.len() == memo.len(),
                children@.len() == k,
                mirrors_upto(memo, plan.children@, children@, k as int),
            decreases plan.children.len() - k,
        {
            proof {
                lemma_child_ok(
                    graph,
                    plan.index,
                    plan.depth,
                    plan.children@,
                    plan.children@.len() as int,
                    k as int,
                );
            }
            let ghost before = children@;
            let child = self.build_tree_node(&plan.children[k], Ghost(graph));
            children.push(child);
            proof {
                lemma_mirrors_push(memo, plan.children@, before, child, k as int);
                assert(children@[k as int] == child);
            }
            k = k + 1;
        }
        let entry = &self.resolved[plan.index];
        assert(entry@ == memo[plan.index as int]);
        DependencyTreeNode {
            dependency: entry.dependency.clone(),
            children,
            depth: plan.depth,
            repeated: plan.repeated,
        }
    }

    /// The trees that show the resolved dependencies with what they
    /// require. The walk starts from the dependency that was resolved last
    /// and then from each earlier one that no tree shows yet, so that a
    /// dependency stands above what it requires. A dependency is expanded
    /// where the walk first reaches it and is a leaf marked as repeated
    /// wherever the walk reaches it again.
    pub fn get_dependency_tree(&self) -> (r: Vec<DependencyTreeNode>)
        requires
            self.wf(),
        ensures
            shows_all(self@, r@),
    {
        let graph = self.graph();
        let ghost memo = self@;
        let n = self.resolved.len();
        let mut roots: Vec<usize> = Vec::new();
        let mut i: usize = n;
        while i > 0
            invariant
                i <= n,
                roots@.len() == n - i,
                forall|j: int| 0 <= j < roots@.len() ==> roots@[j] == n - 1 - j,
            decreases i,
        {
            i = i - 1;
            roots.push(i);
        }
        let plan = build_forest(&graph, &roots);
        assert(roots@ =~= last_first(memo.len()));
        let mut tree: Vec<DependencyTreeNode> = Vec::new();
        let mut t: usize = 0;
        while t < plan.len()
            invariant
                t <= plan.len(),
                memo == self@,
                forest_ok(memo_graph(memo), plan@),
                memo_graph(memo).len() == memo.len(),
                tree@.len() == t,
                mirrors_upto(memo, plan@, tree@, t as int),
            decreases plan.len() - t,
        {
            let ghost before = tree@;
            let node = self.build_tree_node(&plan[t], Ghost(memo_graph(memo)));
            tree.push(node);
            proof {
                lemma_mirrors_push(memo, plan@, before, node, t as int);
                assert(tree@[t as int] == node);
            }
            t = t + 1;
        }
        proof {
            assert forall|v: usize| v < memo.len() implies #[trigger] expanded_all(plan@).contains(v) by {
                assert(roots@[n - 1 - v] == v);
            }
            assert(forest_ok(memo_graph(memo), plan@));
            assert(roots_ok(last_first(memo.len()), plan@, memo.len() as int, plan@.len() as int));
        }
        tree
    }
}

impl Default for DependencyResolver {
    /// A resolver that has resolved nothing.
    fn default() -> (r: Self)
        ensures
            r.wf(),
            r@.len() == 0,
    {
        DependencyResolver::new()
    }
}

} // verus!
