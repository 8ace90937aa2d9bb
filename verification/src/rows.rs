//! Breadth-first traversal of a graph from one of its nodes, a row at a time,
//! and what it comes to on a tree of a dependency forest.

use crate::forest::{
    depth, expand, is_forest, lemma_child_parent, lemma_expand_member, lemma_out_no_duplicates,
    lemma_rows_facts, out_neighbors, parent_of, rows,
};
use crate::graph::{
    bitset_capacity, bitset_members, bitset_visit, graph_neighbors, graph_node_bound,
    graph_nodes, graph_successors, graph_visit_map, walks_within,
};
use fixedbitset::FixedBitSet;
use petgraph::graph::DiGraph;
use std::collections::VecDeque;
use vstd::prelude::*;
use vstd::set_lib::{lemma_int_range, lemma_len_subset, set_int_range};

verus! {

/// `nodes` as queue entries, each paired with `level`.
pub open spec fn at_level(nodes: Seq<int>, level: nat) -> Seq<(usize, usize)> {
    Seq::new(nodes.len(), |i: int| (nodes[i] as usize, level as usize))
}

/// Those of `targets` that are met for the first time, `seen` having been
/// met before: each once, in the order of `targets`.
pub open spec fn fresh(targets: Seq<int>, seen: Set<int>) -> Seq<int>
    decreases targets.len(),
{
    if targets.len() == 0 {
        Seq::empty()
    } else {
        let earlier = fresh(targets.drop_last(), seen);
        if seen.contains(targets.last()) || earlier.contains(targets.last()) {
            earlier
        } else {
            earlier.push(targets.last())
        }
    }
}

/// The nodes met for the first time when the successors of each node of
/// `row` are looked at in turn, `seen` having been met before.
pub open spec fn found(succ: Seq<Seq<int>>, row: Seq<int>, seen: Set<int>) -> Seq<int>
    decreases row.len(),
{
    if row.len() == 0 {
        Seq::empty()
    } else {
        let earlier = found(succ, row.drop_last(), seen);
        earlier + fresh(succ[row.last()], seen.union(earlier.to_set()))
    }
}

/// Row `k` of the traversal from `start`, with the nodes of the rows up to it:
/// row 0 is `start`, and each further row holds the nodes first met from the
/// row before, in the order in which they are met.
pub open spec fn bfs(succ: Seq<Seq<int>>, start: int, k: nat) -> (Seq<int>, Set<int>)
    decreases k,
{
    if k == 0 {
        (seq![start], set![start])
    } else {
        let (row, seen) = bfs(succ, start, (k - 1) as nat);
        let next = found(succ, row, seen);
        (next, seen.union(next.to_set()))
    }
}

/// Row `k` of the traversal from `start`.
pub open spec fn bfs_row(succ: Seq<Seq<int>>, start: int, k: nat) -> Seq<int> {
    bfs(succ, start, k).0
}

/// The nodes of the rows `0..=k` of the traversal from `start`.
pub open spec fn bfs_seen(succ: Seq<Seq<int>>, start: int, k: nat) -> Set<int> {
    bfs(succ, start, k).1
}

/// The nodes that are queued ahead of their row: from the second row on, a
/// call stops only after it has looked at the first node of the next row and
/// queued what it met from there.
pub open spec fn queued_ahead(succ: Seq<Seq<int>>, start: int, k: nat) -> Seq<int> {
    let row = bfs_row(succ, start, k);
    if k >= 1 && row.len() > 0 {
        fresh(succ[row[0]], bfs_seen(succ, start, k))
    } else {
        Seq::empty()
    }
}

/// The nodes of the rows `0..=k` below `root`.
pub open spec fn reached(edges: Seq<(int, int)>, root: int, k: nat) -> Set<int> {
    Set::new(|v: int| exists|t: nat| t <= k && #[trigger] rows(edges, root, t).contains(v))
}

/// What is met for the first time is among the targets, was not seen before,
/// and is listed once; and every target was seen before or is met now.
pub proof fn lemma_fresh(targets: Seq<int>, seen: Set<int>)
    ensures
        fresh(targets, seen).no_duplicates(),
        forall|i: int|
            0 <= i < fresh(targets, seen).len() ==> !seen.contains(
                #[trigger] fresh(targets, seen)[i],
            ) && targets.contains(fresh(targets, seen)[i]),
        forall|i: int|
            0 <= i < targets.len() ==> seen.contains(#[trigger] targets[i]) || fresh(
                targets,
                seen,
            ).contains(targets[i]),
    decreases targets.len(),
{
    if targets.len() > 0 {
        let shorter = targets.drop_last();
        let last = targets.last();
        lemma_fresh(shorter, seen);
        let earlier = fresh(shorter, seen);
        let all = fresh(targets, seen);
        assert forall|i: int| 0 <= i < all.len() implies !seen.contains(#[trigger] all[i])
            && targets.contains(all[i]) by {
            if i < earlier.len() {
                assert(all[i] == earlier[i]);
                let t = choose|t: int| 0 <= t < shorter.len() && shorter[t] == earlier[i];
                assert(targets[t] == all[i]);
            } else {
                assert(targets[targets.len() - 1] == all[i]);
            }
        }
        assert forall|i: int| 0 <= i < targets.len() implies seen.contains(#[trigger] targets[i])
            || all.contains(targets[i]) by {
            if i < shorter.len() {
                assert(shorter[i] == targets[i]);
                if earlier.contains(targets[i]) {
                    let t = choose|t: int| 0 <= t < earlier.len() && earlier[t] == targets[i];
                    assert(all[t] == targets[i]);
                }
            } else if !seen.contains(last) {
                if earlier.contains(last) {
                    let t = choose|t: int| 0 <= t < earlier.len() && earlier[t] == last;
                    assert(all[t] == last);
                } else {
                    assert(all[all.len() - 1] == last);
                }
            }
        }
        assert forall|i: int, j: int| 0 <= i < all.len() && 0 <= j < all.len() && i != j implies all[i]
            != all[j] by {
            if i < earlier.len() && j < earlier.len() {
                assert(all[i] == earlier[i] && all[j] == earlier[j]);
            } else if i < earlier.len() {
                assert(all[i] == earlier[i]);
                assert(earlier.contains(all[i]));
            } else if j < earlier.len() {
                assert(all[j] == earlier[j]);
                assert(earlier.contains(all[j]));
            }
        }
    }
}

/// Targets none of which was seen before, and none of which is listed twice,
/// are all met for the first time.
pub proof fn lemma_fresh_all(targets: Seq<int>, seen: Set<int>)
    requires
        targets.no_duplicates(),
        forall|i: int| 0 <= i < targets.len() ==> !seen.contains(#[trigger] targets[i]),
    ensures
        fresh(targets, seen) == targets,
    decreases targets.len(),
{
    if targets.len() > 0 {
        let shorter = targets.drop_last();
        assert forall|i: int| 0 <= i < shorter.len() implies !seen.contains(
            #[trigger] shorter[i],
        ) by {
            assert(shorter[i] == targets[i]);
        }
        lemma_fresh_all(shorter, seen);
        if shorter.contains(targets.last()) {
            let t = choose|t: int| 0 <= t < shorter.len() && shorter[t] == targets.last();
            assert(targets[t] == targets[targets.len() - 1]);
        }
        assert(targets[targets.len() - 1] == targets.last());
        assert(fresh(targets, seen) =~= targets);
    } else {
        assert(fresh(targets, seen) =~= targets);
    }
}

/// What is met from the first `m + 1` nodes of a row is what is met from
/// the first `m`, followed by what is then met from node `m`.
pub proof fn lemma_found_take(succ: Seq<Seq<int>>, row: Seq<int>, seen: Set<int>, m: int)
    requires
        0 <= m < row.len(),
    ensures
        found(succ, row.take(m + 1), seen) == found(succ, row.take(m), seen) + fresh(
            succ[row[m]],
            seen.union(found(succ, row.take(m), seen).to_set()),
        ),
        found(succ, row.take(0), seen) == Seq::<int>::empty(),
        found(succ, row.take(row.len() as int), seen) == found(succ, row, seen),
{
    assert(row.take(m + 1).drop_last() =~= row.take(m));
    assert(row.take(m + 1).last() == row[m]);
    assert(row.take(row.len() as int) =~= row);
}

/// The nodes of two lists laid end to end are those of the one and those of the other.
pub proof fn lemma_concat_set(a: Seq<int>, b: Seq<int>)
    ensures
        (a + b).to_set() == a.to_set().union(b.to_set()),
{
    let whole = a + b;
    assert forall|v: int| whole.to_set().contains(v) <==> a.to_set().union(b.to_set()).contains(
        v,
    ) by {
        if whole.contains(v) {
            let i = choose|i: int| 0 <= i < whole.len() && whole[i] == v;
            if i < a.len() {
                assert(a[i] == v);
            } else {
                assert(b[i - a.len()] == v);
            }
        }
        if a.contains(v) {
            let i = choose|i: int| 0 <= i < a.len() && a[i] == v;
            assert(whole[i] == v);
        }
        if b.contains(v) {
            let i = choose|i: int| 0 <= i < b.len() && b[i] == v;
            assert(whole[a.len() + i] == v);
        }
    }
    assert(whole.to_set() =~= a.to_set().union(b.to_set()));
}


/// The successors of a node of the graph are nodes of the graph.
pub proof fn lemma_successors_within(n: nat, succ: Seq<Seq<int>>, a: int)
    requires
        walks_within(n, succ),
        0 <= a < n,
    ensures
        forall|i: int| 0 <= i < succ[a].len() ==> 0 <= #[trigger] succ[a][i] < n,
{
}

/// What is met from a row of nodes of the graph are nodes of the graph, none
/// of them seen before, none listed twice.
pub proof fn lemma_found(n: nat, succ: Seq<Seq<int>>, row: Seq<int>, seen: Set<int>)
    requires
        walks_within(n, succ),
        forall|i: int| 0 <= i < row.len() ==> 0 <= #[trigger] row[i] < n,
    ensures
        found(succ, row, seen).no_duplicates(),
        forall|i: int|
            0 <= i < found(succ, row, seen).len() ==> {
                let v = #[trigger] found(succ, row, seen)[i];
                0 <= v < n && !seen.contains(v)
            },
    decreases row.len(),
{
    if row.len() > 0 {
        let earlier = found(succ, row.drop_last(), seen);
        let targets = succ[row.last()];
        let met = seen.union(earlier.to_set());
        let added = fresh(targets, met);
        assert forall|i: int| 0 <= i < row.drop_last().len() implies 0
            <= #[trigger] row.drop_last()[i] < n by {
            assert(row.drop_last()[i] == row[i]);
        }
        assert(row.last() == row[row.len() - 1]);
        lemma_found(n, succ, row.drop_last(), seen);
        lemma_fresh(targets, met);
        lemma_successors_within(n, succ, row.last());
        assert forall|i: int, j: int| 0 <= i < earlier.len() && 0 <= j < added.len() implies earlier[i]
            != added[j] by {
            assert(earlier.contains(earlier[i]));
            assert(!met.contains(added[j]));
        }
        vstd::seq_lib::lemma_no_dup_in_concat(earlier, added);
        assert forall|i: int| 0 <= i < (earlier + added).len() implies {
            let v = #[trigger] (earlier + added)[i];
            0 <= v < n && !seen.contains(v)
        } by {
            if i < earlier.len() {
                assert((earlier + added)[i] == earlier[i]);
            } else {
                let v = added[i - earlier.len()];
                assert(!met.contains(v));
                let t = choose|t: int| 0 <= t < targets.len() && targets[t] == v;
                assert(0 <= targets[t] < n);
            }
        }
    }
}

/// The nodes of the rows of a traversal are nodes of the graph; the nodes
/// of a row are listed once and are in no row before it.
pub proof fn lemma_bfs_within(n: nat, succ: Seq<Seq<int>>, start: int, k: nat)
    requires
        walks_within(n, succ),
        0 <= start < n,
    ensures
        bfs_seen(succ, start, k).subset_of(set_int_range(0, n as int)),
        bfs_seen(succ, start, k).finite(),
        bfs_seen(succ, start, k).len() <= n,
        bfs_row(succ, start, k).no_duplicates(),
        bfs_row(succ, start, k).to_set().subset_of(bfs_seen(succ, start, k)),
        forall|i: int|
            0 <= i < bfs_row(succ, start, k).len() ==> 0 <= #[trigger] bfs_row(succ, start, k)[i]
                < n,
        k >= 1 ==> bfs_seen(succ, start, k) == bfs_seen(succ, start, (k - 1) as nat).union(
            bfs_row(succ, start, k).to_set(),
        ) && forall|i: int|
            0 <= i < bfs_row(succ, start, k).len() ==> !bfs_seen(
                succ,
                start,
                (k - 1) as nat,
            ).contains(#[trigger] bfs_row(succ, start, k)[i]),
    decreases k,
{
    lemma_int_range(0, n as int);
    let range = set_int_range(0, n as int);
    if k == 0 {
        assert(bfs_row(succ, start, 0)[0] == start);
        assert(bfs_seen(succ, start, 0).subset_of(range));
        assert forall|v: int| bfs_row(succ, start, 0).to_set().contains(v) implies bfs_seen(
            succ,
            start,
            0,
        ).contains(v) by {
            let i = choose|i: int|
                0 <= i < bfs_row(succ, start, 0).len() && bfs_row(succ, start, 0)[i] == v;
        }
    } else {
        lemma_bfs_within(n, succ, start, (k - 1) as nat);
        let before = bfs_row(succ, start, (k - 1) as nat);
        let seen = bfs_seen(succ, start, (k - 1) as nat);
        lemma_found(n, succ, before, seen);
        let row = bfs_row(succ, start, k);
        assert forall|v: int| bfs_seen(succ, start, k).contains(v) implies range.contains(v) by {
            if row.contains(v) {
                let i = choose|i: int| 0 <= i < row.len() && row[i] == v;
                assert(0 <= row[i] < n);
            } else {
                assert(seen.contains(v));
            }
        }
    }
    lemma_len_subset(bfs_seen(succ, start, k), range);
}

/// The rows of a traversal that are not empty hold at least one node each, all different.
pub proof fn lemma_bfs_count(n: nat, succ: Seq<Seq<int>>, start: int, k: nat)
    requires
        walks_within(n, succ),
        0 <= start < n,
        forall|t: nat| t <= k ==> (#[trigger] bfs_row(succ, start, t)).len() > 0,
    ensures
        bfs_seen(succ, start, k).len() >= k + 1,
    decreases k,
{
    lemma_bfs_within(n, succ, start, k);
    if k == 0 {
        assert(bfs_seen(succ, start, 0) =~= Set::<int>::empty().insert(start));
    } else {
        lemma_bfs_count(n, succ, start, (k - 1) as nat);
        lemma_bfs_within(n, succ, start, (k - 1) as nat);
        let seen = bfs_seen(succ, start, (k - 1) as nat);
        let row = bfs_row(succ, start, k);
        let first = row[0];
        assert(!seen.contains(first));
        assert(row.to_set().contains(first));
        assert(seen.insert(first).subset_of(bfs_seen(succ, start, k)));
        lemma_len_subset(seen.insert(first), bfs_seen(succ, start, k));
    }
}

/// A set of `count` nodes of a graph of `n` nodes leaves room for a node that
/// it does not hold only where `count` is less than `n`.
pub proof fn lemma_room(core: Set<int>, n: nat, c: int)
    requires
        core.subset_of(set_int_range(0, n as int)),
        !core.contains(c),
        0 <= c < n,
    ensures
        core.len() + 1 <= n,
{
    let range = set_int_range(0, n as int);
    lemma_int_range(0, n as int);
    lemma_len_subset(core, range);
    assert(core.insert(c).subset_of(range));
    lemma_len_subset(core.insert(c), range);
}

/// A node deeper than `k` is in none of the rows `0..=k`.
pub proof fn lemma_not_reached(n: nat, edges: Seq<(int, int)>, root: int, k: nat, c: int)
    requires
        is_forest(n, edges),
        0 <= root < n,
        parent_of(edges, root) is None,
        depth(edges, c) > k,
    ensures
        !reached(edges, root, k).contains(c),
{
    if reached(edges, root, k).contains(c) {
        let t = choose|t: nat| t <= k && #[trigger] rows(edges, root, t).contains(c);
        lemma_rows_facts(n, edges, root, t);
        let i = choose|i: int| 0 <= i < rows(edges, root, t).len() && rows(edges, root, t)[i] == c;
        assert(depth(edges, rows(edges, root, t)[i]) == t);
    }
}

/// The rows up to `k + 1` hold what the rows up to `k` hold, and row `k + 1`.
pub proof fn lemma_reached_step(edges: Seq<(int, int)>, root: int, k: nat)
    ensures
        reached(edges, root, k + 1) == reached(edges, root, k).union(
            rows(edges, root, k + 1).to_set(),
        ),
{
    let next = rows(edges, root, k + 1);
    assert forall|v: int| reached(edges, root, k + 1).contains(v) <==> reached(
        edges,
        root,
        k,
    ).union(next.to_set()).contains(v) by {
        if reached(edges, root, k + 1).contains(v) {
            let t = choose|t: nat| t <= k + 1 && #[trigger] rows(edges, root, t).contains(v);
            if t <= k {
                assert(rows(edges, root, t).contains(v));
            }
        }
        if reached(edges, root, k).contains(v) {
            let t = choose|t: nat| t <= k && #[trigger] rows(edges, root, t).contains(v);
            assert(rows(edges, root, t).contains(v));
        }
        if next.contains(v) {
            assert(rows(edges, root, (k + 1) as nat).contains(v));
        }
    }
    assert(reached(edges, root, k + 1) =~= reached(edges, root, k).union(next.to_set()));
}

/// In a tree, every child of the first `m` nodes of a row is met for the first time.
proof fn lemma_found_in_tree(
    n: nat,
    edges: Seq<(int, int)>,
    succ: Seq<Seq<int>>,
    root: int,
    k: nat,
    m: int,
)
    requires
        is_forest(n, edges),
        forall|a: int| 0 <= a < n ==> #[trigger] succ[a] == out_neighbors(edges, a),
        0 <= root < n,
        parent_of(edges, root) is None,
        0 <= m <= rows(edges, root, k).len(),
    ensures
        found(succ, rows(edges, root, k).take(m), reached(edges, root, k)) == expand(
            edges,
            rows(edges, root, k).take(m),
        ),
    decreases m,
{
    let cur = rows(edges, root, k);
    let seen = reached(edges, root, k);
    if m == 0 {
        assert(cur.take(0) =~= Seq::<int>::empty());
    } else {
        lemma_found_in_tree(n, edges, succ, root, k, m - 1);
        lemma_rows_facts(n, edges, root, k);
        let node = cur[m - 1];
        assert(succ[node] == out_neighbors(edges, node));
        let children = out_neighbors(edges, node);
        let ahead = expand(edges, cur.take(m - 1));
        lemma_out_no_duplicates(n, edges, node);
        assert forall|i: int| 0 <= i < children.len() implies !seen.union(ahead.to_set()).contains(
            #[trigger] children[i],
        ) by {
            let c = children[i];
            assert(children.contains(c));
            lemma_child_parent(n, edges, node, c);
            lemma_not_reached(n, edges, root, k, c);
            if ahead.contains(c) {
                lemma_expand_member(edges, cur.take(m - 1), c);
                let t = choose|t: int|
                    0 <= t < cur.take(m - 1).len() && out_neighbors(
                        edges,
                        #[trigger] cur.take(m - 1)[t],
                    ).contains(c);
                lemma_child_parent(n, edges, cur.take(m - 1)[t], c);
                assert(cur[t] == cur[m - 1]);
            }
        }
        lemma_fresh_all(children, seen.union(ahead.to_set()));
        assert(cur.take(m).drop_last() =~= cur.take(m - 1));
        assert(cur.take(m).last() == node);
    }
}

/// The traversal of a tree of a forest from its root hands out the rows of
/// the tree, where the graph's walks follow the edges of the forest.
pub proof fn lemma_bfs_in_tree(
    n: nat,
    edges: Seq<(int, int)>,
    succ: Seq<Seq<int>>,
    root: int,
    k: nat,
)
    requires
        is_forest(n, edges),
        forall|a: int| 0 <= a < n ==> #[trigger] succ[a] == out_neighbors(edges, a),
        0 <= root < n,
        parent_of(edges, root) is None,
    ensures
        bfs_row(succ, root, k) == rows(edges, root, k),
        bfs_seen(succ, root, k) == reached(edges, root, k),
    decreases k,
{
    if k == 0 {
        assert forall|v: int| reached(edges, root, 0).contains(v) <==> v == root by {
            if reached(edges, root, 0).contains(v) {
                let t = choose|t: nat| t <= 0 && #[trigger] rows(edges, root, t).contains(v);
                let i = choose|i: int|
                    0 <= i < rows(edges, root, 0).len() && rows(edges, root, 0)[i] == v;
            }
            if v == root {
                assert(rows(edges, root, 0)[0] == v);
                assert(rows(edges, root, 0).contains(v));
            }
        }
        assert(bfs_seen(succ, root, 0) =~= reached(edges, root, 0));
    } else {
        let j = (k - 1) as nat;
        lemma_bfs_in_tree(n, edges, succ, root, j);
        let cur = rows(edges, root, j);
        lemma_found_in_tree(n, edges, succ, root, j, cur.len() as int);
        assert(cur.take(cur.len() as int) =~= cur);
        lemma_reached_step(edges, root, j);
    }
}

/// Row-wise breadth-first traversal of a graph from one of its nodes.
pub struct BfsRows {
    stack: VecDeque<(usize, usize)>,
    discovered: FixedBitSet,
    row: usize,
    start: Ghost<int>,
}

impl BfsRows {
    /// The node that the traversal started from.
    pub closed spec fn start(&self) -> int {
        self.start@
    }

    /// The number of the row that the next call hands out.
    pub closed spec fn row(&self) -> nat {
        self.row as nat
    }

    /// The traversal is consistent with `graph`: the queue holds the row to
    /// hand out next, followed by what is queued ahead, and exactly the nodes
    /// of the rows so far, with what is queued ahead, are marked as discovered.
    pub closed spec fn wf(&self, graph: &DiGraph<usize, ()>) -> bool {
        let succ = graph_successors(*graph);
        let n = graph_nodes(*graph).len();
        let start = self.start@;
        let k = self.row as nat;
        &&& walks_within(n, succ)
        &&& n <= usize::MAX
        &&& 0 <= start < n
        &&& bitset_capacity(self.discovered) == n
        &&& forall|t: nat| t < k ==> (#[trigger] bfs_row(succ, start, t)).len() > 0
        &&& self.stack@ == at_level(bfs_row(succ, start, k), k) + at_level(
            queued_ahead(succ, start, k),
            k + 1,
        )
        &&& bitset_members(self.discovered) == bfs_seen(succ, start, k).union(
            queued_ahead(succ, start, k).to_set(),
        )
    }

    /// Starts a traversal at the node `start` of `graph`.
    pub fn new(graph: &DiGraph<usize, ()>, start: usize) -> (r: BfsRows)
        requires
            start < graph_nodes(*graph).len(),
        ensures
            r.wf(graph),
            r.start() == start,
            r.row() == 0,
    {
        let row: usize = 0;
        let _ = graph_node_bound(graph);
        let mut stack: VecDeque<(usize, usize)> = VecDeque::new();
        let mut discovered = graph_visit_map(graph);
        let _ = bitset_visit(&mut discovered, start);
        stack.push_front((start, row));
        let r = BfsRows { stack, discovered, row, start: Ghost(start as int) };
        proof {
            let succ = graph_successors(*graph);
            assert(r.stack@ =~= at_level(bfs_row(succ, start as int, 0), 0) + at_level(
                queued_ahead(succ, start as int, 0),
                1,
            ));
            assert(bitset_members(r.discovered) =~= bfs_seen(succ, start as int, 0).union(
                queued_ahead(succ, start as int, 0).to_set(),
            ));
        }
        r
    }

    /// Starts a traversal at `start` where that is a node of `graph`.
    pub fn try_new(graph: &DiGraph<usize, ()>, start: usize) -> (r: Option<BfsRows>)
        ensures
            r is Some <==> start < graph_nodes(*graph).len(),
            r is Some ==> r.unwrap().wf(graph) && r.unwrap().start() == start && r.unwrap().row()
                == 0,
    {
        if start < graph_node_bound(graph) {
            Some(BfsRows::new(graph, start))
        } else {
            None
        }
    }

    /// Hands out the next row: the nodes first met from those of the row
    /// before, in the order in which they were met. `None` once no node is left.
    pub fn next(&mut self, graph: &DiGraph<usize, ()>) -> (r: Option<Vec<usize>>)
        requires
            old(self).wf(graph),
        ensures
            final(self).wf(graph),
            final(self).start() == old(self).start(),
            ({
                let row = bfs_row(graph_successors(*graph), old(self).start(), old(self).row());
                match r {
                    Some(nodes) => {
                        &&& row.len() > 0
                        &&& nodes@.len() == row.len()
                        &&& forall|i: int| 0 <= i < row.len() ==> #[trigger] nodes@[i] == row[i]
                        &&& final(self).row() == old(self).row() + 1
                    },
                    None => row.len() == 0 && final(self).row() == old(self).row(),
                }
            }),
    {
        let ghost succ = graph_successors(*graph);
        let ghost n = graph_nodes(*graph).len();
        let ghost start = self.start@;
        let ghost k = self.row as nat;
        let ghost cur = bfs_row(succ, start, k);
        let ghost seen = bfs_seen(succ, start, k);
        let ghost below = bfs_row(succ, start, k + 1);
        let ghost e: int = if k >= 1 && cur.len() > 0 {
            1
        } else {
            0
        };
        let ghost mut i: int = 0;
        let ghost mut m: int = e;
        let mut row: Vec<usize> = Vec::new();
        proof {
            assert(cur.subrange(0, cur.len() as int) =~= cur);
            if e == 1 {
                lemma_found_take(succ, cur, seen, 0);
                assert(seen.union(Seq::<int>::empty().to_set()) =~= seen);
                assert(found(succ, cur.take(1), seen) =~= queued_ahead(succ, start, k));
            } else {
                assert(cur.take(0) =~= Seq::<int>::empty());
            }
        }
        loop
            invariant_except_break
                n == graph_nodes(*graph).len(),
                succ == graph_successors(*graph),
                walks_within(n, succ),
                n <= usize::MAX,
                0 <= start < n,
                cur == bfs_row(succ, start, k),
                seen == bfs_seen(succ, start, k),
                below == bfs_row(succ, start, k + 1),
                forall|t: nat| t < k ==> (#[trigger] bfs_row(succ, start, t)).len() > 0,
                e == if k >= 1 && cur.len() > 0 {
                    1int
                } else {
                    0int
                },
                0 <= i <= cur.len(),
                m == if i >= e {
                    i
                } else {
                    e
                },
                row@.len() == i,
                forall|t: int| 0 <= t < i ==> #[trigger] row@[t] == cur[t],
                self.row == k,
                self.start@ == start,
                bitset_capacity(self.discovered) == n,
                self.stack@ == at_level(cur.subrange(i, cur.len() as int), k) + at_level(
                    found(succ, cur.take(m), seen),
                    k + 1,
                ),
                bitset_members(self.discovered) == seen.union(
                    found(succ, cur.take(m), seen).to_set(),
                ),
            ensures
                row@.len() == cur.len(),
                forall|t: int| 0 <= t < cur.len() ==> #[trigger] row@[t] == cur[t],
                self.row == k,
                self.start@ == start,
                bitset_capacity(self.discovered) == n,
                self.stack@ == at_level(below, k + 1) + at_level(
                    queued_ahead(succ, start, k + 1),
                    k + 2,
                ),
                bitset_members(self.discovered) == seen.union(below.to_set()).union(
                    queued_ahead(succ, start, k + 1).to_set(),
                ),
            decreases cur.len() - i,
        {
            let ghost queue = self.stack@;
            let ghost marked = bitset_members(self.discovered);
            let ghost pending = cur.subrange(i, cur.len() as int);
            let ghost ahead = found(succ, cur.take(m), seen);
            proof {
                lemma_bfs_within(n, succ, start, k);
                lemma_bfs_within(n, succ, start, k + 1);
                if i == cur.len() {
                    if cur.len() > 0 {
                        lemma_found_take(succ, cur, seen, 0);
                    } else {
                        assert(cur.take(0) =~= cur);
                    }
                    assert(ahead == below);
                }
            }
            let front = self.stack.pop_front();
            match front {
                None => {
                    proof {
                        assert(pending.len() == 0 && ahead.len() == 0);
                        assert(below.len() == 0);
                        assert(self.stack@ =~= at_level(below, k + 1) + at_level(
                            queued_ahead(succ, start, k + 1),
                            k + 2,
                        ));
                        assert(marked =~= seen.union(below.to_set()).union(
                            queued_ahead(succ, start, k + 1).to_set(),
                        ));
                    }
                    break ;
                },
                Some((node, level)) => {
                    let ghost core: Set<int>;
                    proof {
                        if i < cur.len() {
                            assert(queue[0] == at_level(pending, k)[0]);
                            assert(pending[0] == cur[i]);
                            assert(node == cur[i] && level == k);
                            assert(self.stack@ =~= at_level(
                                cur.subrange(i + 1, cur.len() as int),
                                k,
                            ) + at_level(ahead, k + 1));
                            assert forall|t: nat| t <= k implies (#[trigger] bfs_row(
                                succ,
                                start,
                                t,
                            )).len() > 0 by {}
                            lemma_bfs_count(n, succ, start, k);
                            core = seen;
                        } else {
                            assert(pending.len() == 0);
                            assert(queue =~= at_level(below, k + 1));
                            assert(queue[0] == at_level(below, k + 1)[0]);
                            assert(0 <= below[0] < n);
                            if cur.len() == 0 {
                                assert(cur.take(0) =~= cur);
                            }
                            assert forall|t: nat| t <= k + 1 implies (#[trigger] bfs_row(
                                succ,
                                start,
                                t,
                            )).len() > 0 by {
                                if t == k {
                                    assert(found(succ, cur, seen).len() > 0);
                                }
                            }
                            lemma_bfs_count(n, succ, start, k + 1);
                            assert(node == below[0] && level == k + 1);
                            assert(self.stack@ =~= at_level(
                                below.subrange(1, below.len() as int),
                                k + 1,
                            ));
                            core = bfs_seen(succ, start, k + 1);
                            lemma_concat_set(Seq::<int>::empty(), below);
                            assert(marked =~= core);
                        }
                    }
                    self.queue_successors(graph, node, level, Ghost(core));
                    if level == self.row {
                        row.push(node);
                        proof {
                            let children = succ[node as int];
                            if i >= m {
                                lemma_found_take(succ, cur, seen, i);
                                lemma_concat_set(ahead, fresh(children, marked));
                            } else {
                                lemma_found_take(succ, cur, seen, 0);
                                assert(seen.union(Seq::<int>::empty().to_set()) =~= seen);
                                lemma_fresh(children, seen);
                                lemma_fresh(children, marked);
                                if fresh(children, marked).len() > 0 {
                                    let c = fresh(children, marked)[0];
                                    let t = choose|t: int|
                                        0 <= t < children.len() && children[t] == c;
                                    assert(seen.contains(children[t]) || fresh(
                                        children,
                                        seen,
                                    ).contains(children[t]));
                                    assert(false);
                                }
                                assert(fresh(children, marked) =~= Seq::<int>::empty());
                            }
                            i = i + 1;
                            m = if i >= e {
                                i
                            } else {
                                e
                            };
                            assert(self.stack@ =~= at_level(
                                cur.subrange(i, cur.len() as int),
                                k,
                            ) + at_level(found(succ, cur.take(m), seen), k + 1));
                            assert(bitset_members(self.discovered) =~= seen.union(
                                found(succ, cur.take(m), seen).to_set(),
                            ));
                        }
                    } else {
                        self.stack.push_front((node, level));
                        proof {
                            assert(self.stack@ =~= at_level(below, k + 1) + at_level(
                                queued_ahead(succ, start, k + 1),
                                k + 2,
                            ));
                        }
                        break ;
                    }
                },
            }
        }
        if row.len() == 0 {
            proof {
                assert(below.len() == 0) by {
                    assert(below == found(succ, cur, seen));
                }
                assert(self.stack@ =~= at_level(cur, k) + at_level(
                    queued_ahead(succ, start, k),
                    k + 1,
                ));
                assert(bitset_members(self.discovered) =~= seen.union(
                    queued_ahead(succ, start, k).to_set(),
                ));
            }
            None
        } else {
            proof {
                assert forall|t: nat| t <= k implies (#[trigger] bfs_row(succ, start, t)).len()
                    > 0 by {}
                lemma_bfs_count(n, succ, start, k);
                lemma_bfs_within(n, succ, start, k);
            }
            self.row += 1;
            Some(row)
        }
    }

    /// Looks at the successors of `node` and queues, one level below it,
    /// those that are met for the first time. `core` is a set of nodes that
    /// were discovered before, one for each level down to that of `node`.
    fn queue_successors(
        &mut self,
        graph: &DiGraph<usize, ()>,
        node: usize,
        level: usize,
        Ghost(core): Ghost<Set<int>>,
    )
        requires
            walks_within(graph_nodes(*graph).len(), graph_successors(*graph)),
            node < graph_nodes(*graph).len(),
            graph_nodes(*graph).len() <= usize::MAX,
            bitset_capacity(old(self).discovered) == graph_nodes(*graph).len(),
            core.subset_of(bitset_members(old(self).discovered)),
            core.subset_of(set_int_range(0, graph_nodes(*graph).len() as int)),
            core.len() >= level + 1,
        ensures
            final(self).row == old(self).row,
            final(self).start == old(self).start,
            bitset_capacity(final(self).discovered) == bitset_capacity(old(self).discovered),
            final(self).stack@ == old(self).stack@ + at_level(
                fresh(
                    graph_successors(*graph)[node as int],
                    bitset_members(old(self).discovered),
                ),
                (level + 1) as nat,
            ),
            bitset_members(final(self).discovered) == bitset_members(old(self).discovered).union(
                fresh(
                    graph_successors(*graph)[node as int],
                    bitset_members(old(self).discovered),
                ).to_set(),
            ),
    {
        let ghost succ = graph_successors(*graph);
        let ghost n = graph_nodes(*graph).len();
        let ghost children = succ[node as int];
        let ghost before = bitset_members(self.discovered);
        let targets = graph_neighbors(graph, node);
        proof {
            lemma_successors_within(n, succ, node as int);
            assert(children.take(0) =~= Seq::<int>::empty());
            assert(self.stack@ =~= old(self).stack@ + at_level(
                fresh(children.take(0), before),
                (level + 1) as nat,
            ));
            assert(bitset_members(self.discovered) =~= before.union(
                fresh(children.take(0), before).to_set(),
            ));
        }
        let mut s: usize = 0;
        while s < targets.len()
            invariant
                s <= targets.len(),
                targets.len() == children.len(),
                forall|i: int| 0 <= i < targets.len() ==> #[trigger] targets[i] == children[i],
                forall|i: int| 0 <= i < children.len() ==> 0 <= #[trigger] children[i] < n,
                children == succ[node as int],
                n <= usize::MAX,
                self.row == old(self).row,
                self.start == old(self).start,
                bitset_capacity(self.discovered) == n,
                before == bitset_members(old(self).discovered),
                core.subset_of(before),
                core.subset_of(set_int_range(0, n as int)),
                core.len() >= level + 1,
                self.stack@ == old(self).stack@ + at_level(
                    fresh(children.take(s as int), before),
                    (level + 1) as nat,
                ),
                bitset_members(self.discovered) == before.union(
                    fresh(children.take(s as int), before).to_set(),
                ),
            decreases targets.len() - s,
        {
            let succ = targets[s];
            let ghost shorter = children.take(s as int);
            let ghost longer = children.take(s + 1);
            let ghost met = fresh(shorter, before);
            proof {
                assert(children[s as int] == succ);
                assert(longer.drop_last() =~= shorter);
                assert(longer.last() == succ);
            }
            if bitset_visit(&mut self.discovered, succ) {
                proof {
                    assert(!before.contains(succ as int));
                    lemma_room(core, n, succ as int);
                }
                self.stack.push_back((succ, level + 1));
                proof {
                    assert(!met.contains(succ as int)) by {
                        if met.contains(succ as int) {
                            assert(met.to_set().contains(succ as int));
                        }
                    }
                    assert(fresh(longer, before) == met.push(succ as int));
                    assert(self.stack@ =~= old(self).stack@ + at_level(
                        fresh(longer, before),
                        (level + 1) as nat,
                    ));
                    lemma_concat_set(met, seq![succ as int]);
                    assert(met.push(succ as int) =~= met + seq![succ as int]);
                    assert forall|v: int| seq![succ as int].to_set().contains(v) <==> v
                        == succ by {
                        if v == succ {
                            assert(seq![succ as int][0] == v);
                        }
                    }
                    assert(bitset_members(self.discovered) =~= before.union(
                        fresh(longer, before).to_set(),
                    ));
                }
            } else {
                proof {
                    assert(before.contains(succ as int) || met.contains(succ as int));
                    assert(fresh(longer, before) == met);
                    assert(bitset_members(self.discovered) =~= before.union(met.to_set()));
                }
            }
            s += 1;
        }
        proof {
            assert(children.take(children.len() as int) =~= children);
        }
    }
}

} // verus!
