//! Walks over a graph of numbered nodes: the shared part of the dependency
//! trees that the resolver and the lock file show.
//!
//! A graph is a list of edge lists: `graph[u]` holds the targets of the
//! edges that leave node `u`. A tree plan says where each node is shown: a
//! node is expanded at the first place that the walk reaches it, and is a
//! leaf marked as repeated wherever the walk reaches it again.

use crate::text::{position_of, texts};
use vstd::prelude::*;

verus! {

/// Where one node is shown in a tree, with what is shown below it.
#[derive(Debug)]
pub struct IndexTree {
    /// The number of the node.
    pub index: usize,
    /// What is shown below the node, one child for each of its edges.
    pub children: Vec<IndexTree>,
    /// The distance from the root of the tree.
    pub depth: usize,
    /// Whether the node is expanded elsewhere and is a mere mark here.
    pub repeated: bool,
}

/// Every edge leads to a node of the graph.
pub open spec fn graph_ok(graph: Seq<Seq<usize>>) -> bool {
    forall|u: int, k: int|
        0 <= u < graph.len() && 0 <= k < graph[u].len() ==> (#[trigger] graph[u][k]) < graph.len()
}

/// The tree shows what the graph holds: an expanded node has one child for
/// each of its edges, in order and one level down; a repeated node has none.
pub open spec fn tree_ok(graph: Seq<Seq<usize>>, t: IndexTree) -> bool
    decreases t, 1nat,
{
    &&& t.index < graph.len()
    &&& if t.repeated {
        t.children@.len() == 0
    } else {
        &&& t.children@.len() == graph[t.index as int].len()
        &&& children_ok(graph, t.index, t.depth, t.children@, t.children@.len() as int)
    }
}

/// The first `n` of the children `ts` of node `parent` are in order.
pub open spec fn children_ok(
    graph: Seq<Seq<usize>>,
    parent: usize,
    depth: usize,
    ts: Seq<IndexTree>,
    n: int,
) -> bool
    decreases ts, 0nat, n,
{
    if n <= 0 || n > ts.len() {
        n <= 0
    } else {
        &&& children_ok(graph, parent, depth, ts, n - 1)
        &&& ts[n - 1].index == graph[parent as int][n - 1]
        &&& ts[n - 1].depth == depth + 1
        &&& tree_ok(graph, ts[n - 1])
    }
}

/// The nodes that the tree expands, parents before children.
pub open spec fn expanded(t: IndexTree) -> Seq<usize>
    decreases t, 1nat,
{
    if t.repeated {
        Seq::empty()
    } else {
        seq![t.index] + expanded_all(t.children@)
    }
}

/// The nodes that the trees expand, one tree after the other.
pub open spec fn expanded_all(ts: Seq<IndexTree>) -> Seq<usize>
    decreases ts, 0nat,
{
    if ts.len() == 0 {
        Seq::empty()
    } else {
        expanded_all(ts.drop_last()) + expanded(ts.last())
    }
}

/// `marks` with the marks of `nodes` added.
pub open spec fn marked_with(marks: Seq<bool>, nodes: Seq<usize>) -> Seq<bool> {
    Seq::new(marks.len(), |i: int| marks[i] || nodes.contains(i as usize))
}

/// The tree is what a walk shows that starts with the marks `marks`: a node
/// that is marked when the walk reaches it is shown as repeated, any other
/// node is expanded and marked, and its children are reached one after the
/// other, each with the marks that the walk has left by then.
pub open spec fn marks_ok(t: IndexTree, marks: Seq<bool>) -> bool
    decreases t, 1nat,
{
    &&& t.index < marks.len()
    &&& if t.repeated {
        marks[t.index as int]
    } else {
        &&& !marks[t.index as int]
        &&& walk_ok(t.children@, marks.update(t.index as int, true), t.children@.len() as int)
    }
}

/// The first `n` of the trees `ts` are what a walk shows that starts with
/// the marks `marks` and reaches their roots one after the other.
pub open spec fn walk_ok(ts: Seq<IndexTree>, marks: Seq<bool>, n: int) -> bool
    decreases ts, 0nat, n,
{
    if n <= 0 || n > ts.len() {
        n <= 0
    } else {
        &&& walk_ok(ts, marks, n - 1)
        &&& marks_ok(ts[n - 1], marked_with(marks, expanded_all(ts.take(n - 1))))
    }
}

/// Adding a tree behind the first `n` keeps what the walk showed of them.
pub proof fn lemma_walk_push(ts: Seq<IndexTree>, t: IndexTree, marks: Seq<bool>, n: int)
    requires
        0 <= n <= ts.len(),
        walk_ok(ts, marks, n),
    ensures
        walk_ok(ts.push(t), marks, n),
    decreases n,
{
    if n > 0 {
        lemma_walk_push(ts, t, marks, n - 1);
        assert(ts.push(t)[n - 1] == ts[n - 1]);
        assert(ts.push(t).take(n - 1) =~= ts.take(n - 1));
    }
}

/// The first `turns` of the nodes `roots` have had their turn and have given
/// the first `count` of the trees: a node that a tree before had expanded
/// gave none, any other node gave the next tree, with that node at its
/// root.
pub open spec fn roots_ok(roots: Seq<usize>, plan: Seq<IndexTree>, turns: int, count: int) -> bool
    decreases turns,
{
    if turns <= 0 {
        count == 0
    } else if turns > roots.len() || count < 0 || count > plan.len() {
        false
    } else {
        let root = roots[turns - 1];
        ||| (roots_ok(roots, plan, turns - 1, count) && expanded_all(plan.take(count)).contains(root))
        ||| (count >= 1 && roots_ok(roots, plan, turns - 1, count - 1) && !expanded_all(
            plan.take(count - 1),
        ).contains(root) && plan[count - 1].index == root)
    }
}

/// Adding a tree behind the first `count` keeps the turns that gave them.
pub proof fn lemma_roots_push(roots: Seq<usize>, plan: Seq<IndexTree>, t: IndexTree, turns: int, count: int)
    requires
        0 <= turns <= roots.len(),
        0 <= count <= plan.len(),
        roots_ok(roots, plan, turns, count),
    ensures
        roots_ok(roots, plan.push(t), turns, count),
    decreases turns,
{
    if turns > 0 {
        let root = roots[turns - 1];
        let more = plan.push(t);
        if roots_ok(roots, plan, turns - 1, count) && expanded_all(plan.take(count)).contains(root) {
            lemma_roots_push(roots, plan, t, turns - 1, count);
            assert(more.take(count) =~= plan.take(count));
        } else {
            lemma_roots_push(roots, plan, t, turns - 1, count - 1);
            assert(more.take(count - 1) =~= plan.take(count - 1));
            assert(more[count - 1] == plan[count - 1]);
        }
    }
}

/// The number of nodes that are not marked.
pub open spec fn unmarked(marks: Seq<bool>) -> nat
    decreases marks.len(),
{
    if marks.len() == 0 {
        0
    } else {
        unmarked(marks.drop_last()) + if marks.last() {
            0nat
        } else {
            1nat
        }
    }
}

/// There are no more unmarked nodes than nodes.
pub proof fn lemma_unmarked_bound(marks: Seq<bool>)
    ensures
        unmarked(marks) <= marks.len(),
    decreases marks.len(),
{
    if marks.len() > 0 {
        lemma_unmarked_bound(marks.drop_last());
    }
}

/// Marking an unmarked node leaves one unmarked node fewer.
pub proof fn lemma_unmarked_mark(marks: Seq<bool>, i: int)
    requires
        0 <= i < marks.len(),
        !marks[i],
    ensures
        unmarked(marks.update(i, true)) + 1 == unmarked(marks),
    decreases marks.len(),
{
    let after = marks.update(i, true);
    if i == marks.len() - 1 {
        assert(after.drop_last() =~= marks.drop_last());
    } else {
        lemma_unmarked_mark(marks.drop_last(), i);
        assert(after.drop_last() =~= marks.drop_last().update(i, true));
    }
}

/// Adding a tree to a list adds what it expands.
pub proof fn lemma_expanded_push(ts: Seq<IndexTree>, t: IndexTree)
    ensures
        expanded_all(ts.push(t)) == expanded_all(ts) + expanded(t),
{
    assert(ts.push(t).drop_last() =~= ts);
}

/// Adding a child in order keeps the children before it in order.
pub proof fn lemma_children_push(
    graph: Seq<Seq<usize>>,
    parent: usize,
    depth: usize,
    ts: Seq<IndexTree>,
    t: IndexTree,
    n: int,
)
    requires
        0 <= n <= ts.len(),
        children_ok(graph, parent, depth, ts, n),
    ensures
        children_ok(graph, parent, depth, ts.push(t), n),
    decreases n,
{
    if n > 0 {
        lemma_children_push(graph, parent, depth, ts, t, n - 1);
        assert(ts.push(t)[n - 1] == ts[n - 1]);
    }
}

/// A child among the first `n` that are in order is itself in order.
pub proof fn lemma_child_ok(
    graph: Seq<Seq<usize>>,
    parent: usize,
    depth: usize,
    ts: Seq<IndexTree>,
    n: int,
    k: int,
)
    requires
        0 <= k < n <= ts.len(),
        children_ok(graph, parent, depth, ts, n),
    ensures
        tree_ok(graph, ts[k]),
    decreases n,
{
    if k < n - 1 {
        lemma_child_ok(graph, parent, depth, ts, n - 1, k);
    }
}

/// The edges that leave node `at`.
pub fn edges_of(graph: &Vec<Vec<usize>>, at: usize) -> (r: &Vec<usize>)
    requires
        at < graph@.len(),
    ensures
        r@ == graph.deep_view()[at as int],
{
    let r = &graph[at];
    assert(r@ =~= graph.deep_view()[at as int]);
    r
}

/// Expands node `at`, which the walk reaches for the first time, and all
/// that lies below it. Nodes that are marked in `visited` are shown as
/// repeated; every node that the tree expands is marked on return.
pub fn build_tree(graph: &Vec<Vec<usize>>, at: usize, visited: &mut Vec<bool>, depth: usize) -> (r:
    IndexTree)
    requires
        graph_ok(graph.deep_view()),
        at < graph.deep_view().len(),
        old(visited)@.len() == graph.deep_view().len(),
        !old(visited)@[at as int],
        depth + unmarked(old(visited)@) <= graph.deep_view().len(),
    ensures
        tree_ok(graph.deep_view(), r),
        r.index == at,
        r.depth == depth,
        !r.repeated,
        final(visited)@.len() == graph.deep_view().len(),
        forall|v: int|
            0 <= v < graph.deep_view().len() ==> (#[trigger] final(visited)@[v] == (old(visited)@[v]
                || expanded(r).contains(v as usize))),
        forall|m: int|
            0 <= m < expanded(r).len() ==> (#[trigger] expanded(r)[m]) < graph.deep_view().len() && !old(
                visited,
            )@[expanded(r)[m] as int],
        expanded(r).no_duplicates(),
        marks_ok(r, old(visited)@),
        unmarked(final(visited)@) < unmarked(old(visited)@),
    decreases unmarked(old(visited)@),
{
    let n = graph.len();
    proof {
        lemma_unmarked_mark(visited@, at as int);
    }
    visited[at] = true;
    let ghost first = visited@;
    let mut children: Vec<IndexTree> = Vec::new();
    let mut k: usize = 0;
    let edges = edges_of(graph, at);
    assert(expanded_all(children@) =~= Seq::<usize>::empty());
    while k < edges.len()
        invariant
            k <= edges.len(),
            n == graph.deep_view().len(),
            at < n,
            graph_ok(graph.deep_view()),
            edges@ == graph.deep_view()[at as int],
            visited@.len() == n,
            old(visited)@.len() == n,
            !old(visited)@[at as int],
            first == old(visited)@.update(at as int, true),
            children@.len() == k,
            children_ok(graph.deep_view(), at, depth, children@, k as int),
            walk_ok(children@, first, k as int),
            depth + 1 + unmarked(visited@) <= n,
            unmarked(visited@) < unmarked(old(visited)@),
            forall|v: int|
                0 <= v < n ==> (#[trigger] visited@[v] == (first[v] || expanded_all(
                    children@,
                ).contains(v as usize))),
            forall|m: int|
                0 <= m < expanded_all(children@).len() ==> (#[trigger] expanded_all(children@)[m]) < n
                    && !first[expanded_all(children@)[m] as int],
            expanded_all(children@).no_duplicates(),
        decreases edges.len() - k,
    {
        let target = edges[k];
        assert(target < n);
        let ghost before = children@;
        let ghost marks = visited@;
        let ghost shown = expanded_all(before);
        let child = if visited[target] {
            let leaf = IndexTree { index: target, children: Vec::new(), depth: depth + 1, repeated: true };
            assert(expanded(leaf) =~= Seq::<usize>::empty());
            assert(tree_ok(graph.deep_view(), leaf));
            assert(marks_ok(leaf, marks));
            leaf
        } else {
            build_tree(graph, target, visited, depth + 1)
        };
        children.push(child);
        proof {
            let more = expanded(child);
            lemma_expanded_push(before, child);
            lemma_children_push(graph.deep_view(), at, depth, before, child, k as int);
            assert(children@[k as int] == child);
            assert(child.index == graph.deep_view()[at as int][k as int]);
            assert(child.depth == depth + 1);
            assert(tree_ok(graph.deep_view(), child));
            assert(children_ok(graph.deep_view(), at, depth, children@, k + 1));
            assert(marks =~= marked_with(first, shown));
            assert(marks_ok(child, marks));
            lemma_walk_push(before, child, first, k as int);
            assert(children@.take(k as int) =~= before);
            assert(walk_ok(children@, first, k + 1));
            let all = expanded_all(children@);
            assert(all == shown + more);
            assert forall|v: int| 0 <= v < n implies (#[trigger] visited@[v] == (first[v] || all.contains(
                v as usize,
            ))) by {
                if shown.contains(v as usize) {
                    let m = choose|m: int| 0 <= m < shown.len() && shown[m] == v as usize;
                    assert(all[m] == v as usize);
                }
                if more.contains(v as usize) {
                    let m = choose|m: int| 0 <= m < more.len() && more[m] == v as usize;
                    assert(all[shown.len() + m] == v as usize);
                }
                if all.contains(v as usize) {
                    let m = choose|m: int| 0 <= m < all.len() && all[m] == v as usize;
                    if m < shown.len() {
                        assert(shown[m] == v as usize);
                    } else {
                        assert(more[m - shown.len()] == v as usize);
                    }
                }
            }
            assert forall|m: int| 0 <= m < all.len() implies (#[trigger] all[m]) < n && !first[all[m] as int] by {
                if m >= shown.len() {
                    let x = more[m - shown.len()];
                    assert(all[m] == x);
                    assert(!marks[x as int]);
                }
            }
            assert(all.no_duplicates()) by {
                assert forall|a: int, b: int| 0 <= a < all.len() && 0 <= b < all.len() && a != b implies all[a]
                    != all[b] by {
                    if a < shown.len() && b < shown.len() {
                        assert(shown[a] != shown[b]);
                    } else if a >= shown.len() && b >= shown.len() {
                        assert(more[a - shown.len()] != more[b - shown.len()]);
                    } else {
                        let lo = if a < shown.len() { a } else { b };
                        let hi = if a < shown.len() { b } else { a };
                        let x = more[hi - shown.len()];
                        assert(all[hi] == x);
                        assert(!marks[x as int]);
                        assert(shown[lo] == all[lo]);
                        if all[lo] == x {
                            assert(shown.contains(x));
                        }
                    }
                }
            }
        }
        k = k + 1;
    }
    let tree = IndexTree { index: at, children, depth, repeated: false };
    proof {
        let below = expanded_all(tree.children@);
        let all = expanded(tree);
        assert(all == seq![at] + below);
        assert forall|v: int| 0 <= v < n implies (#[trigger] visited@[v] == (old(visited)@[v] || all.contains(
            v as usize,
        ))) by {
            if v == at {
                assert(all[0] == at);
            }
            if below.contains(v as usize) {
                let m = choose|m: int| 0 <= m < below.len() && below[m] == v as usize;
                assert(all[m + 1] == v as usize);
            }
            if all.contains(v as usize) {
                let m = choose|m: int| 0 <= m < all.len() && all[m] == v as usize;
                if m > 0 {
                    assert(below[m - 1] == v as usize);
                }
            }
        }
        assert forall|m: int| 0 <= m < all.len() implies (#[trigger] all[m]) < n && !old(visited)@[all[m] as int] by {
            if m > 0 {
                assert(all[m] == below[m - 1]);
            }
        }
        assert(all.no_duplicates()) by {
            assert forall|a: int, b: int| 0 <= a < all.len() && 0 <= b < all.len() && a != b implies all[a]
                != all[b] by {
                if a > 0 && b > 0 {
                    assert(below[a - 1] != below[b - 1]);
                } else if a > 0 {
                    assert(all[a] == below[a - 1]);
                    assert(!first[below[a - 1] as int]);
                } else {
                    assert(all[b] == below[b - 1]);
                    assert(!first[below[b - 1] as int]);
                }
            }
        }
    }
    tree
}

/// With nothing marked, every node is unmarked.
pub proof fn lemma_unmarked_none(marks: Seq<bool>)
    requires
        forall|i: int| 0 <= i < marks.len() ==> !marks[i],
    ensures
        unmarked(marks) == marks.len(),
    decreases marks.len(),
{
    if marks.len() > 0 {
        lemma_unmarked_none(marks.drop_last());
    }
}

/// The trees are such roots as a walk shows: each tree is in order, starts at
/// depth 0 with an expanded node, and no node is expanded twice.
pub open spec fn forest_ok(graph: Seq<Seq<usize>>, plan: Seq<IndexTree>) -> bool {
    &&& forall|i: int|
        0 <= i < plan.len() ==> tree_ok(graph, #[trigger] plan[i]) && plan[i].depth == 0
            && !plan[i].repeated
    &&& expanded_all(plan).no_duplicates()
    &&& forall|m: int|
        0 <= m < expanded_all(plan).len() ==> (#[trigger] expanded_all(plan)[m]) < graph.len()
    &&& walk_ok(plan, unmarked_nodes(graph.len()), plan.len() as int)
}

/// The marks of `n` nodes before any walk: none is marked.
pub open spec fn unmarked_nodes(n: nat) -> Seq<bool> {
    Seq::new(n, |i: int| false)
}

/// Walks the graph from each of `roots` in turn that no earlier walk has
/// reached, and gives the trees of these walks. Every one of `roots` is
/// expanded in one of the trees.
pub fn build_forest(graph: &Vec<Vec<usize>>, roots: &Vec<usize>) -> (r: Vec<IndexTree>)
    requires
        graph_ok(graph.deep_view()),
        forall|i: int| 0 <= i < roots@.len() ==> (#[trigger] roots@[i]) < graph@.len(),
    ensures
        forest_ok(graph.deep_view(), r@),
        forall|i: int| 0 <= i < roots@.len() ==> expanded_all(r@).contains(#[trigger] roots@[i]),
        roots_ok(roots@, r@, roots@.len() as int, r@.len() as int),
{
    let n = graph.len();
    let mut visited: Vec<bool> = Vec::new();
    let mut fill: usize = 0;
    while fill < n
        invariant
            fill <= n,
            visited.len() == fill,
            forall|w: int| 0 <= w < fill ==> !visited@[w],
        decreases n - fill,
    {
        visited.push(false);
        fill = fill + 1;
    }
    proof {
        lemma_unmarked_none(visited@);
    }
    let ghost none = unmarked_nodes(n as nat);
    let mut forest: Vec<IndexTree> = Vec::new();
    let mut i: usize = 0;
    assert(expanded_all(forest@) =~= Seq::<usize>::empty());
    while i < roots.len()
        invariant
            i <= roots.len(),
            n == graph@.len(),
            n == graph.deep_view().len(),
            graph_ok(graph.deep_view()),
            forall|j: int| 0 <= j < roots@.len() ==> (#[trigger] roots@[j]) < n,
            visited@.len() == n,
            unmarked(visited@) <= n,
            forall|j: int|
                0 <= j < forest@.len() ==> tree_ok(graph.deep_view(), #[trigger] forest@[j])
                    && forest@[j].depth == 0 && !forest@[j].repeated,
            expanded_all(forest@).no_duplicates(),
            forall|m: int|
                0 <= m < expanded_all(forest@).len() ==> (#[trigger] expanded_all(forest@)[m]) < n,
            forall|v: int|
                0 <= v < n ==> (#[trigger] visited@[v] == expanded_all(forest@).contains(v as usize)),
            forall|j: int| 0 <= j < i ==> expanded_all(forest@).contains(#[trigger] roots@[j]),
            none == unmarked_nodes(n as nat),
            walk_ok(forest@, none, forest@.len() as int),
            roots_ok(roots@, forest@, i as int, forest@.len() as int),
        decreases roots.len() - i,
    {
        let root = roots[i];
        let ghost before = forest@;
        let ghost marks = visited@;
        let ghost shown = expanded_all(before);
        if visited[root] {
            proof {
                assert(forest@.take(forest@.len() as int) =~= forest@);
            }
        } else {
            let tree = build_tree(graph, root, &mut visited, 0);
            forest.push(tree);
            proof {
                let more = expanded(tree);
                assert(marks =~= marked_with(none, shown));
                lemma_walk_push(before, tree, none, before.len() as int);
                assert(forest@.take(before.len() as int) =~= before);
                assert(walk_ok(forest@, none, forest@.len() as int));
                lemma_roots_push(roots@, before, tree, i as int, before.len() as int);
                assert(roots_ok(roots@, forest@, i + 1, forest@.len() as int));
                lemma_expanded_push(before, tree);
                let all = expanded_all(forest@);
                assert(all == shown + more);
                assert(more[0] == root);
                assert forall|j: int| 0 <= j < forest@.len() implies tree_ok(
                    graph.deep_view(),
                    #[trigger] forest@[j],
                ) && forest@[j].depth == 0 && !forest@[j].repeated by {
                    if j < before.len() {
                        assert(forest@[j] == before[j]);
                    }
                }
                assert forall|v: int| 0 <= v < n implies (#[trigger] visited@[v] == all.contains(
                    v as usize,
                )) by {
                    if shown.contains(v as usize) {
                        let m = choose|m: int| 0 <= m < shown.len() && shown[m] == v as usize;
                        assert(all[m] == v as usize);
                    }
                    if more.contains(v as usize) {
                        let m = choose|m: int| 0 <= m < more.len() && more[m] == v as usize;
                        assert(all[shown.len() + m] == v as usize);
                    }
                    if all.contains(v as usize) {
                        let m = choose|m: int| 0 <= m < all.len() && all[m] == v as usize;
                        if m < shown.len() {
                            assert(shown[m] == v as usize);
                        } else {
                            assert(more[m - shown.len()] == v as usize);
                        }
                    }
                }
                assert forall|m: int| 0 <= m < all.len() implies (#[trigger] all[m]) < n by {
                    if m >= shown.len() {
                        assert(all[m] == more[m - shown.len()]);
                    }
                }
                assert(all.no_duplicates()) by {
                    assert forall|a: int, b: int|
                        0 <= a < all.len() && 0 <= b < all.len() && a != b implies all[a] != all[b] by {
                        if a < shown.len() && b < shown.len() {
                            assert(shown[a] != shown[b]);
                        } else if a >= shown.len() && b >= shown.len() {
                            assert(more[a - shown.len()] != more[b - shown.len()]);
                        } else {
                            let lo = if a < shown.len() { a } else { b };
                            let hi = if a < shown.len() { b } else { a };
                            let x = more[hi - shown.len()];
                            assert(all[hi] == x);
                            assert(!marks[x as int]);
                            assert(shown[lo] == all[lo]);
                            if all[lo] == x {
                                assert(shown.contains(x));
                            }
                        }
                    }
                }
                assert forall|j: int| 0 <= j <= i implies all.contains(#[trigger] roots@[j]) by {
                    assert(visited@[roots@[j] as int]);
                }
            }
        }
        i = i + 1;
    }
    forest
}

/// The position of the first of `keys` that reads `key`.
pub open spec fn first_position(keys: Seq<Seq<char>>, key: Seq<char>) -> int {
    choose|i: int| 0 <= i < keys.len() && keys[i] == key && forall|j: int| 0 <= j < i ==> keys[j] != key
}

/// The nodes that `edges` name, in order: for each edge that reads as one of
/// `keys`, the position of the first such key. An edge that reads as none of
/// them names no node and is left out.
pub open spec fn targets_spec(keys: Seq<Seq<char>>, edges: Seq<Seq<char>>) -> Seq<usize>
    decreases edges.len(),
{
    if edges.len() == 0 {
        Seq::empty()
    } else {
        let init = targets_spec(keys, edges.drop_last());
        if keys.contains(edges.last()) {
            init.push(first_position(keys, edges.last()) as usize)
        } else {
            init
        }
    }
}

/// The edges that read as none of `keys`, in order.
pub open spec fn dangling_spec(keys: Seq<Seq<char>>, edges: Seq<Seq<char>>) -> Seq<Seq<char>>
    decreases edges.len(),
{
    if edges.len() == 0 {
        Seq::empty()
    } else {
        let init = dangling_spec(keys, edges.drop_last());
        if keys.contains(edges.last()) {
            init
        } else {
            init.push(edges.last())
        }
    }
}

/// Every target that an edge names is a position among the keys.
pub proof fn lemma_targets_in_range(keys: Seq<Seq<char>>, edges: Seq<Seq<char>>)
    requires
        keys.len() <= usize::MAX,
    ensures
        forall|k: int|
            0 <= k < targets_spec(keys, edges).len() ==> (#[trigger] targets_spec(keys, edges)[k])
                < keys.len(),
    decreases edges.len(),
{
    if edges.len() > 0 {
        lemma_targets_in_range(keys, edges.drop_last());
        let init = targets_spec(keys, edges.drop_last());
        let all = targets_spec(keys, edges);
        if keys.contains(edges.last()) {
            let key = edges.last();
            let w = choose|w: int| 0 <= w < keys.len() && keys[w] == key;
            lemma_first_exists(keys, key, w);
            let f = first_position(keys, key);
            assert(f as usize == f);
            assert(all == init.push(f as usize));
        }
        assert forall|k: int| 0 <= k < all.len() implies (#[trigger] all[k]) < keys.len() by {
            if k < init.len() {
                assert(all[k] == init[k]);
            }
        }
    }
}

/// A key that occurs has a first occurrence.
pub proof fn lemma_first_exists(keys: Seq<Seq<char>>, key: Seq<char>, w: int)
    requires
        0 <= w < keys.len(),
        keys[w] == key,
    ensures
        0 <= first_position(keys, key) <= w,
        keys[first_position(keys, key)] == key,
        forall|j: int| 0 <= j < first_position(keys, key) ==> keys[j] != key,
    decreases w,
{
    if forall|j: int| 0 <= j < w ==> keys[j] != key {
        assert(0 <= w < keys.len() && keys[w] == key && forall|j: int| 0 <= j < w ==> keys[j] != key);
        let f = first_position(keys, key);
        if f > w {
            assert(keys[w] != key);
        }
    } else {
        let j = choose|j: int| 0 <= j < w && keys[j] == key;
        lemma_first_exists(keys, key, j);
    }
}

/// The nodes that `edges` name among `keys`.
pub fn targets_of(keys: &Vec<String>, edges: &Vec<String>) -> (r: Vec<usize>)
    ensures
        r@ == targets_spec(texts(keys@), texts(edges@)),
        forall|k: int| 0 <= k < r@.len() ==> (#[trigger] r@[k]) < keys@.len(),
{
    let mut out: Vec<usize> = Vec::new();
    let mut i: usize = 0;
    let ghost names = texts(keys@);
    let ghost all = texts(edges@);
    assert(all.take(0) =~= Seq::<Seq<char>>::empty());
    while i < edges.len()
        invariant
            i <= edges.len(),
            names == texts(keys@),
            all == texts(edges@),
            out@ == targets_spec(names, all.take(i as int)),
        decreases edges.len() - i,
    {
        proof {
            let next = all.take(i + 1);
            assert(next.drop_last() =~= all.take(i as int));
            assert(next.last() == edges@[i as int]@);
        }
        match position_of(keys, edges[i].as_str()) {
            Some(t) => {
                proof {
                    assert(names[t as int] == edges@[i as int]@);
                    lemma_first_exists(names, edges@[i as int]@, t as int);
                    let f = first_position(names, edges@[i as int]@);
                    if f < t {
                        assert(keys@[f]@ == names[f]);
                    }
                }
                out.push(t);
            },
            None => {},
        }
        i = i + 1;
    }
    proof {
        assert(all.take(edges.len() as int) =~= all);
        assert(keys.len() == names.len());
        lemma_targets_in_range(names, all);
    }
    out
}

/// The edges among `edges` that name none of `keys`.
pub fn dangling_of(keys: &Vec<String>, edges: &Vec<String>) -> (r: Vec<String>)
    ensures
        texts(r@) == dangling_spec(texts(keys@), texts(edges@)),
{
    let mut out: Vec<String> = Vec::new();
    let mut i: usize = 0;
    let ghost names = texts(keys@);
    let ghost all = texts(edges@);
    assert(all.take(0) =~= Seq::<Seq<char>>::empty());
    assert(texts(out@) =~= dangling_spec(names, all.take(0)));
    while i < edges.len()
        invariant
            i <= edges.len(),
            names == texts(keys@),
            all == texts(edges@),
            texts(out@) == dangling_spec(names, all.take(i as int)),
        decreases edges.len() - i,
    {
        let ghost sofar = texts(out@);
        proof {
            let next = all.take(i + 1);
            assert(next.drop_last() =~= all.take(i as int));
            assert(next.last() == edges@[i as int]@);
        }
        match position_of(keys, edges[i].as_str()) {
            Some(t) => {
                assert(names[t as int] == edges@[i as int]@);
            },
            None => {
                out.push(edges[i].clone());
                assert(texts(out@) =~= sofar.push(edges@[i as int]@));
            },
        }
        i = i + 1;
    }
    assert(all.take(edges.len() as int) =~= all);
    out
}

} // verus!
