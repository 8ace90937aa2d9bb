//! The scheduler: a dependency forest over a batch of transactions, its
//! partition into independent trees, and their execution row by row.

use crate::dependency::{dependency_edges, lemma_dependency_forest, nearest_conflict, refs_of};
use crate::forest::{
    depth, follows_edges, in_neighbors, is_forest, is_root_list, lemma_follows_edge,
    lemma_in_some, lemma_listing_ends, lemma_parent_edge, lemma_root_of, lemma_rows_complete,
    lemma_rows_facts, lemma_rows_stay_empty, listing, parent_of, root_of, rows,
};
use crate::graph::{
    graph_add_edge, graph_add_node, graph_edge_list, graph_edges, graph_incoming, graph_new,
    graph_node_bound, graph_nodes, graph_predecessors, graph_successors, merged_labels,
    unionfind_into_labeling, unionfind_labels, unionfind_new, unionfind_union,
};
use crate::outcome::{
    accumulated, batch_results, contributions, covers_once, diff_of, fold_row, folded,
    has_result, lemma_accumulated_agree, lemma_with_results, outcomes, ran, seen_by, tree_results,
    with_results, DiffModel,
};
use crate::primitives::Transaction;
use crate::refs::TransactionRefs;
use crate::rows::{lemma_bfs_in_tree, BfsRows};
use crate::state::{Overlayed, State, StateDiff};
use petgraph::graph::DiGraph;
use vstd::prelude::*;

verus! {

/// The distinct values of `labels`, in ascending order.
fn sorted_unique(labels: &Vec<usize>, bound: usize) -> (out: Vec<usize>)
    requires
        forall|i: int| 0 <= i < labels.len() ==> (#[trigger] labels[i]) < bound,
    ensures
        forall|i: int, j: int| 0 <= i < j < out.len() ==> out[i] < out[j],
        forall|x: usize| out@.contains(x) <==> labels@.contains(x),
{
    let mut present: Vec<bool> = Vec::new();
    let mut i: usize = 0;
    while i < bound
        invariant
            i <= bound,
            present.len() == i,
            forall|k: int| 0 <= k < i ==> !(#[trigger] present[k]),
        decreases bound - i,
    {
        present.push(false);
        i += 1;
    }
    let mut i: usize = 0;
    while i < labels.len()
        invariant
            i <= labels.len(),
            present.len() == bound,
            forall|k: int| 0 <= k < labels.len() ==> (#[trigger] labels[k]) < bound,
            forall|x: int|
                0 <= x < bound ==> (#[trigger] present[x] <==> exists|k: int|
                    0 <= k < i && labels[k] == x),
        decreases labels.len() - i,
    {
        let label = labels[i];
        present.set(label, true);
        i += 1;
    }
    let mut out: Vec<usize> = Vec::new();
    let mut x: usize = 0;
    while x < bound
        invariant
            x <= bound,
            present.len() == bound,
            forall|i: int, j: int| 0 <= i < j < out.len() ==> out[i] < out[j],
            forall|i: int| 0 <= i < out.len() ==> (#[trigger] out[i]) < x,
            forall|y: usize| out@.contains(y) <==> y < x && present[y as int],
        decreases bound - x,
    {
        if present[x] {
            let ghost before = out@;
            out.push(x);
            assert forall|y: usize| out@.contains(y) <==> y < x + 1 && present[y as int] by {
                if y == x {
                    assert(out@[out.len() - 1] == y);
                } else if before.contains(y) {
                    let k = choose|k: int| 0 <= k < before.len() && before[k] == y;
                    assert(out@[k] == y);
                } else if out@.contains(y) {
                    let k = choose|k: int| 0 <= k < out.len() && out@[k] == y;
                    assert(before[k] == y);
                }
            }
        }
        x += 1;
    }
    assert forall|y: usize| out@.contains(y) <==> labels@.contains(y) by {
        if labels@.contains(y) {
            let k = choose|k: int| 0 <= k < labels.len() && labels[k] == y;
            assert(labels[k] < bound);
        }
    }
    out
}

/// What the disjoint-set labels satisfy once the first `t` edges are joined:
/// every label is the label of itself and lies in the tree of what it labels,
/// and the ends of each joined edge carry one label.
spec fn labels_fit(n: nat, edges: Seq<(int, int)>, labels: Seq<int>, t: int) -> bool {
    &&& labels.len() == n
    &&& forall|i: int|
        0 <= i < n ==> 0 <= #[trigger] labels[i] < n && labels[labels[i]] == labels[i] && root_of(
            edges,
            labels[i],
        ) == root_of(edges, i)
    &&& forall|e: int| 0 <= e < t ==> labels[(#[trigger] edges[e]).0] == labels[edges[e].1]
}

proof fn lemma_union_step(
    n: nat,
    edges: Seq<(int, int)>,
    before: Seq<int>,
    after: Seq<int>,
    t: int,
)
    requires
        is_forest(n, edges),
        labels_fit(n, edges, before, t),
        0 <= t < edges.len(),
        ({
            let a = before[edges[t].0];
            let b = before[edges[t].1];
            after == merged_labels(before, a, b, a) || after == merged_labels(before, a, b, b)
        }),
    ensures
        labels_fit(n, edges, after, t + 1),
{
    let x = edges[t].0;
    let y = edges[t].1;
    let a = before[x];
    let b = before[y];
    lemma_in_some(n, edges, y, t);
    assert(root_of(edges, y) == root_of(edges, x));
    assert(root_of(edges, a) == root_of(edges, b));
    let root = if after == merged_labels(before, a, b, a) {
        a
    } else {
        b
    };
    assert(before[a] == a);
    assert(before[b] == b);
    assert forall|i: int| 0 <= i < n implies 0 <= #[trigger] after[i] < n && after[after[i]]
        == after[i] && root_of(edges, after[i]) == root_of(edges, i) by {
        let l = before[i];
        assert(before[l] == l);
        if l == a || l == b {
            assert(after[i] == root);
            assert(after[root] == root);
        } else {
            assert(after[i] == l);
            assert(after[l] == l);
        }
    }
    assert forall|e: int| 0 <= e < t + 1 implies after[(#[trigger] edges[e]).0]
        == after[edges[e].1] by {
        if e < t {
            assert(before[edges[e].0] == before[edges[e].1]);
        }
    }
}

proof fn lemma_label_of_root(n: nat, edges: Seq<(int, int)>, labels: Seq<int>, v: int)
    requires
        is_forest(n, edges),
        labels_fit(n, edges, labels, edges.len() as int),
        0 <= v < n,
    ensures
        labels[v] == labels[root_of(edges, v)],
    decreases v,
{
    if parent_of(edges, v) is Some {
        let i = lemma_parent_edge(edges, v);
        lemma_in_some(n, edges, v, i);
        lemma_label_of_root(n, edges, labels, edges[i].0);
    }
}

/// The graph is as one that was made by adding its edges in turn: its walks
/// take the edges of each node in the reverse of the order of the edge list.
pub open spec fn walks_follow(graph: DiGraph<usize, ()>) -> bool {
    follows_edges(
        graph_nodes(graph).len(),
        graph_edges(graph),
        graph_successors(graph),
        graph_predecessors(graph),
    )
}

/// Follows the edges that enter `from` upwards until a node is reached that none enters.
fn climb(graph: &DiGraph<usize, ()>, from: usize) -> (top: usize)
    requires
        is_forest(graph_nodes(*graph).len(), graph_edges(*graph)),
        walks_follow(*graph),
        from < graph_nodes(*graph).len(),
    ensures
        top == root_of(graph_edges(*graph), from as int),
{
    let ghost edges = graph_edges(*graph);
    let ghost n = graph_nodes(*graph).len();
    let mut index = from;
    loop
        invariant
            is_forest(n, edges),
            walks_follow(*graph),
            n == graph_nodes(*graph).len(),
            edges == graph_edges(*graph),
            index < n,
            root_of(edges, index as int) == root_of(edges, from as int),
        ensures
            index == root_of(edges, from as int),
        decreases index,
    {
        let sources = graph_incoming(graph, index);
        assert(graph_predecessors(*graph)[index as int] == in_neighbors(edges, index as int));
        if sources.len() == 0 {
            break ;
        }
        let up = sources[sources.len() - 1];
        proof {
            let i = lemma_parent_edge(edges, index as int);
            lemma_in_some(n, edges, index as int, i);
            assert(in_neighbors(edges, index as int).last() == up);
        }
        index = up;
    }
    index
}

/// Finds the root of every tree of a dependency forest: the edges are joined
/// in a disjoint-set structure, and from one node of each set the edges are
/// followed upwards.
fn find_roots(graph: &DiGraph<usize, ()>) -> (roots: Vec<usize>)
    requires
        is_forest(graph_nodes(*graph).len(), graph_edges(*graph)),
        walks_follow(*graph),
    ensures
        is_root_list(graph_nodes(*graph).len(), graph_edges(*graph), roots@),
{
    let ghost edges = graph_edges(*graph);
    let n = graph_node_bound(graph);
    let mut sets = unionfind_new(n);
    let edge_list = graph_edge_list(graph);
    let mut t: usize = 0;
    while t < edge_list.len()
        invariant
            t <= edge_list.len(),
            edge_list.len() == edges.len(),
            forall|i: int|
                0 <= i < edge_list.len() ==> (#[trigger] edge_list[i]).0 == edges[i].0
                    && edge_list[i].1 == edges[i].1,
            is_forest(n as nat, edges),
            labels_fit(n as nat, edges, unionfind_labels(sets), t as int),
        decreases edge_list.len() - t,
    {
        let a = edge_list[t].0;
        let b = edge_list[t].1;
        let ghost before = unionfind_labels(sets);
        assert(edges[t as int].0 == a && edges[t as int].1 == b);
        let _ = unionfind_union(&mut sets, a, b);
        proof {
            lemma_union_step(n as nat, edges, before, unionfind_labels(sets), t as int);
        }
        t += 1;
    }
    let ghost fitted = unionfind_labels(sets);
    let labels = unionfind_into_labeling(sets);
    assert forall|i: int| 0 <= i < labels.len() implies (#[trigger] labels[i]) < n by {
        assert(labels[i] == fitted[i]);
    }
    let distinct = sorted_unique(&labels, n);
    let mut roots: Vec<usize> = Vec::with_capacity(distinct.len());
    let mut d: usize = 0;
    while d < distinct.len()
        invariant
            d <= distinct.len(),
            roots.len() == d,
            n == graph_nodes(*graph).len(),
            edges == graph_edges(*graph),
            is_forest(n as nat, edges),
            walks_follow(*graph),
            forall|x: usize| distinct@.contains(x) <==> labels@.contains(x),
            forall|i: int| 0 <= i < labels.len() ==> (#[trigger] labels[i]) < n,
            forall|q: int| 0 <= q < d ==> #[trigger] roots[q] == root_of(edges, distinct[q] as int),
        decreases distinct.len() - d,
    {
        let label = distinct[d];
        proof {
            assert(distinct@.contains(label));
            let i = choose|i: int| 0 <= i < labels.len() && labels[i] == label;
            assert(labels[i] < n);
        }
        let top = climb(graph, label);
        roots.push(top);
        d += 1;
    }
    proof {
        assert forall|q: int| 0 <= q < distinct.len() implies 0 <= #[trigger] distinct[q] < n
            && fitted[distinct[q] as int] == distinct[q] by {
            assert(distinct@.contains(distinct[q]));
            let i = choose|i: int| 0 <= i < labels.len() && labels[i] == distinct[q];
            assert(labels[i] == fitted[i]);
        }
        assert forall|p: int, q: int| 0 <= p < roots.len() && 0 <= q < roots.len() && p != q implies roots[p]
            != roots[q] by {
            if roots[p] == roots[q] {
                lemma_label_of_root(n as nat, edges, fitted, distinct[p] as int);
                lemma_label_of_root(n as nat, edges, fitted, distinct[q] as int);
                if p < q {
                    assert(distinct[p] < distinct[q]);
                } else {
                    assert(distinct[q] < distinct[p]);
                }
            }
        }
        assert forall|v: usize| #[trigger]
            roots@.contains(v) <==> v < n && parent_of(edges, v as int) is None by {
            if roots@.contains(v) {
                let q = choose|q: int| 0 <= q < roots.len() && roots[q] == v;
                lemma_root_of(n as nat, edges, distinct[q] as int);
            }
            if v < n && parent_of(edges, v as int) is None {
                let l = labels[v as int];
                assert(l == fitted[v as int]);
                assert(labels@.contains(l));
                assert(distinct@.contains(l));
                let q = choose|q: int| 0 <= q < distinct.len() && distinct[q] == l;
                assert(roots[q] == v);
            }
        }
    }
    roots
}

/// A batch of transactions laid out for execution: the dependency forest over
/// them, the root of each of its trees, and the transactions not yet taken out
/// for execution.
pub struct Schedule {
    graph: DiGraph<usize, ()>,
    roots: Vec<usize>,
    slots: Vec<Option<Transaction>>,
}

impl Schedule {
    /// The dependency graph that the schedule holds.
    pub closed spec fn dependency_graph(&self) -> DiGraph<usize, ()> {
        self.graph
    }

    /// The dependency edges, as pairs of positions in the batch.
    pub closed spec fn edges(&self) -> Seq<(int, int)> {
        graph_edges(self.graph)
    }

    /// For each position of the batch, the transaction if it still awaits execution.
    pub closed spec fn slots(&self) -> Seq<Option<Transaction>> {
        self.slots@
    }

    /// The roots of the forest's trees.
    pub closed spec fn roots(&self) -> Seq<usize> {
        self.roots@
    }

    /// The number of transactions in the batch.
    pub open spec fn size(&self) -> nat {
        self.slots().len()
    }

    /// The schedule is consistent: the edges form a forest over the batch,
    /// the graph walks them in the reverse of the order in which they were
    /// added, and the roots are the parentless nodes, each named once.
    pub closed spec fn wf(&self) -> bool {
        &&& graph_nodes(self.graph).len() == self.slots@.len()
        &&& self.slots@.len() <= u32::MAX
        &&& forall|i: int|
            0 <= i < self.slots@.len() ==> #[trigger] graph_nodes(self.graph)[i] == i
        &&& is_forest(self.slots@.len(), graph_edges(self.graph))
        &&& walks_follow(self.graph)
        &&& is_root_list(self.slots@.len(), graph_edges(self.graph), self.roots@)
    }

    /// What `wf` says, for callers outside this module.
    pub proof fn lemma_wf(&self)
        requires
            self.wf(),
        ensures
            is_forest(self.size(), self.edges()),
            is_root_list(self.size(), self.edges(), self.roots()),
            self.size() <= u32::MAX,
    {
    }

    /// The dependency graph.
    pub fn graph(&self) -> (g: &DiGraph<usize, ()>)
        requires
            self.wf(),
        ensures
            *g == self.dependency_graph(),
            graph_edges(*g) == self.edges(),
            graph_nodes(*g).len() == self.size(),
            graph_nodes(*g).len() <= u32::MAX,
            is_forest(graph_nodes(*g).len(), graph_edges(*g)),
            walks_follow(*g),
    {
        &self.graph
    }

    /// The dependency edges as pairs of positions in the batch, the edge
    /// that enters the last transaction first.
    pub fn edge_list(&self) -> (r: Vec<(usize, usize)>)
        ensures
            r@.len() == self.edges().len(),
            forall|i: int|
                0 <= i < r@.len() ==> (#[trigger] r@[i]).0 == self.edges()[i].0 && r@[i].1
                    == self.edges()[i].1,
    {
        graph_edge_list(&self.graph)
    }

    /// The root of each tree: the transactions that depend on none before them.
    pub fn root_list(&self) -> (r: &Vec<usize>)
        requires
            self.wf(),
        ensures
            r@ == self.roots(),
            is_root_list(self.size(), self.edges(), r@),
    {
        &self.roots
    }

    /// Whether the transaction at position `v` has been taken out for execution.
    pub fn is_taken(&self, v: usize) -> (b: bool)
        requires
            v < self.size(),
        ensures
            b == (self.slots()[v as int] is None),
    {
        self.slots[v].is_none()
    }

    /// Takes the transaction at position `v` out for execution; `None` where
    /// it was taken before or the batch has no such position.
    pub fn take(&mut self, v: usize) -> (tx: Option<Transaction>)
        requires
            old(self).wf(),
        ensures
            final(self).wf(),
            final(self).dependency_graph() == old(self).dependency_graph(),
            final(self).edges() == old(self).edges(),
            final(self).roots() == old(self).roots(),
            tx == if v < old(self).size() {
                old(self).slots()[v as int]
            } else {
                None
            },
            final(self).slots() == if v < old(self).size() {
                old(self).slots().update(v as int, None)
            } else {
                old(self).slots()
            },
    {
        if v < self.slots.len() {
            let tx = self.slots[v].take();
            assert(self.slots@ =~= old(self).slots@.update(v as int, None));
            tx
        } else {
            None
        }
    }

    /// Lays out a batch: analyses the references of each transaction against
    /// `state` and links each transaction to the nearest earlier one it depends on.
    pub fn new<S: State>(state: &S, txs: Vec<Transaction>) -> (r: Schedule)
        requires
            txs.len() <= u32::MAX,
        ensures
            r.wf(),
            r.edges() == dependency_edges(refs_of(txs@, state.model()), 0),
            r.slots() == txs@.map_values(|tx: Transaction| Some(tx)),
    {
        let ghost batch = txs@;
        let ghost all = refs_of(batch, state.model());
        let mut graph = graph_new();
        let mut refs: Vec<TransactionRefs> = Vec::new();
        let mut slots: Vec<Option<Transaction>> = Vec::new();
        let n = txs.len();
        for tx in it: txs.into_iter()
            invariant
                it.seq() == batch,
                n == batch.len(),
                n <= u32::MAX,
                all == refs_of(batch, state.model()),
                refs.len() == it.index(),
                slots.len() == it.index(),
                graph_nodes(graph).len() == it.index(),
                graph_edges(graph) == Seq::<(int, int)>::empty(),
                walks_follow(graph),
                forall|i: int| 0 <= i < it.index() ==> #[trigger] graph_nodes(graph)[i] == i,
                forall|i: int| 0 <= i < it.index() ==> #[trigger] slots[i] == Some(batch[i]),
                forall|i: int| 0 <= i < it.index() ==> (#[trigger] refs[i])@ == all[i],
        {
            let ix = refs.len();
            let found = TransactionRefs::new(&tx, state);
            assert(found@ == all[ix as int]);
            refs.push(found);
            let _ = graph_add_node(&mut graph, ix);
            slots.push(Some(tx));
        }
        assert(slots@ =~= batch.map_values(|tx: Transaction| Some(tx)));

        let mut j: usize = n;
        while j > 0
            invariant
                j <= n,
                n == refs.len(),
                n == all.len(),
                n <= u32::MAX,
                graph_nodes(graph).len() == n,
                walks_follow(graph),
                forall|i: int| 0 <= i < n ==> #[trigger] graph_nodes(graph)[i] == i,
                forall|i: int| 0 <= i < n ==> (#[trigger] refs[i])@ == all[i],
                graph_edges(graph) == dependency_edges(all, j as int),
            decreases j,
        {
            let target = j - 1;
            let mut below: usize = target;
            let mut linked = false;
            proof {
                lemma_dependency_forest(all, j as int);
            }
            while below > 0 && !linked
                invariant
                    below <= target < n,
                    j == target + 1,
                    n == refs.len(),
                    n == all.len(),
                    n <= u32::MAX,
                    graph_nodes(graph).len() == n,
                    walks_follow(graph),
                    forall|i: int| 0 <= i < n ==> #[trigger] graph_nodes(graph)[i] == i,
                    forall|i: int| 0 <= i < n ==> (#[trigger] refs[i])@ == all[i],
                    dependency_edges(all, j as int).len() <= n - j,
                    !linked ==> graph_edges(graph) == dependency_edges(all, j as int)
                        && nearest_conflict(all, target as int, target as int) == nearest_conflict(
                        all,
                        target as int,
                        below as int,
                    ),
                    linked ==> graph_edges(graph) == dependency_edges(all, target as int),
                decreases
                        below + if linked {
                            0int
                        } else {
                            1int
                        },
            {
                assert(refs[target as int]@ == all[target as int]);
                assert(refs[below - 1]@ == all[below - 1]);
                if refs[target].depends_on(&refs[below - 1]) {
                    proof {
                        lemma_follows_edge(
                            n as nat,
                            graph_edges(graph),
                            graph_successors(graph),
                            graph_predecessors(graph),
                            below - 1,
                            target as int,
                        );
                    }
                    graph_add_edge(&mut graph, below - 1, target);
                    linked = true;
                } else {
                    below -= 1;
                }
            }
            j -= 1;
        }
        proof {
            lemma_dependency_forest(all, 0);
        }
        let roots = find_roots(&graph);
        Schedule { graph, roots, slots }
    }
}

/// Takes the transactions of one row out of the schedule and runs each against
/// `state` with the mutations accumulated so far laid over it.
fn run_row<S: State, C, E, F: Fn(Transaction, &Overlayed<S>, &C) -> Result<StateDiff, E>>(
    schedule: &mut Schedule,
    row: &Vec<usize>,
    state: &S,
    cache: &C,
    execute: &F,
    acc: &StateDiff,
) -> (results: Vec<(Result<StateDiff, E>, usize)>)
    requires
        old(schedule).wf(),
        row@.no_duplicates(),
        forall|t: int|
            0 <= t < row.len() ==> (#[trigger] row[t]) < old(schedule).slots@.len() && old(
                schedule,
            ).slots@[row[t] as int] is Some,
        forall|tx: Transaction, view: &Overlayed<S>, c: &C| #[trigger] execute.requires((tx, view, c)),
    ensures
        final(schedule).wf(),
        final(schedule).graph == old(schedule).graph,
        final(schedule).roots == old(schedule).roots,
        final(schedule).slots@.len() == old(schedule).slots@.len(),
        forall|v: int|
            0 <= v < old(schedule).slots@.len() ==> #[trigger] final(schedule).slots@[v] == if row@.contains(
                v as usize,
            ) {
                None
            } else {
                old(schedule).slots@[v]
            },
        results.len() == row.len(),
        forall|t: int|
            0 <= t < row.len() ==> (#[trigger] results[t]).1 == row[t] && ran(
                execute,
                old(schedule).slots@[row[t] as int].unwrap(),
                state,
                cache,
                acc@,
                results[t].0,
            ),
{
    let mut results: Vec<(Result<StateDiff, E>, usize)> = Vec::new();
    let mut t: usize = 0;
    while t < row.len()
        invariant
            t <= row.len(),
            schedule.wf(),
            row@.no_duplicates(),
            schedule.graph == old(schedule).graph,
            schedule.roots == old(schedule).roots,
            schedule.slots@.len() == old(schedule).slots@.len(),
            forall|i: int|
                0 <= i < row.len() ==> (#[trigger] row[i]) < old(schedule).slots@.len() && old(
                    schedule,
                ).slots@[row[i] as int] is Some,
            forall|v: int|
                0 <= v < old(schedule).slots@.len() ==> #[trigger] schedule.slots@[v] == if row@.take(
                    t as int,
                ).contains(v as usize) {
                    None
                } else {
                    old(schedule).slots@[v]
                },
            forall|tx: Transaction, view: &Overlayed<S>, c: &C| #[trigger]
                execute.requires((tx, view, c)),
            results.len() == t,
            forall|i: int|
                0 <= i < t ==> (#[trigger] results[i]).1 == row[i] && ran(
                    execute,
                    old(schedule).slots@[row[i] as int].unwrap(),
                    state,
                    cache,
                    acc@,
                    results[i].0,
                ),
        decreases row.len() - t,
    {
        let node = row[t];
        proof {
            let earlier = row@.take(t as int);
            if earlier.contains(node) {
                let i = choose|i: int| 0 <= i < earlier.len() && earlier[i] == node;
                assert(row@[i] == row@[t as int]);
            }
        }
        let tx = schedule.slots[node].take().unwrap();
        let view = Overlayed::new(state, acc);
        let result = execute(tx, &view, cache);
        proof {
            assert(acc@ == acc@ && execute.ensures(
                (tx, &Overlayed { base: state, diff: acc }, cache),
                result,
            ));
        }
        results.push((result, node));
        proof {
            let earlier = row@.take(t as int);
            let longer = row@.take(t + 1);
            assert forall|v: int| 0 <= v < old(schedule).slots@.len() implies #[trigger] schedule.slots@[v]
                == if longer.contains(v as usize) {
                None
            } else {
                old(schedule).slots@[v]
            } by {
                if earlier.contains(v as usize) {
                    let i = choose|i: int| 0 <= i < earlier.len() && earlier[i] == v as usize;
                    assert(longer[i] == v as usize);
                }
                if v == node {
                    assert(longer[t as int] == node);
                }
                if longer.contains(v as usize) && v != node {
                    let i = choose|i: int| 0 <= i < longer.len() && longer[i] == v as usize;
                    assert(earlier[i] == v as usize);
                }
            }
        }
        t += 1;
    }
    proof {
        assert(row@.take(row.len() as int) =~= row@);
    }
    results
}

/// What holds of the results listed once the rows above row `k` have run.
spec fn listed<S, C, E, F: Fn(Transaction, &Overlayed<S>, &C) -> Result<StateDiff, E>>(
    edges: Seq<(int, int)>,
    before: Seq<Option<Transaction>>,
    root: int,
    execute: &F,
    state: &S,
    cache: &C,
    out: Seq<(Result<StateDiff, E>, usize)>,
    diffs: Seq<Option<DiffModel>>,
    k: nat,
) -> bool {
    &&& diffs.len() == before.len()
    &&& out.len() == listing(edges, root, k).len()
    &&& forall|t: int|
        0 <= t < out.len() ==> {
            let v = (#[trigger] out[t]).1 as int;
            &&& v == listing(edges, root, k)[t]
            &&& 0 <= v < before.len()
            &&& root_of(edges, v) == root
            &&& depth(edges, v) < k
            &&& diffs[v] == diff_of(out[t].0)
            &&& ran(
                execute,
                before[v].unwrap(),
                state,
                cache,
                accumulated(edges, root, depth(edges, v), diffs),
                out[t].0,
            )
        }
    &&& forall|s: int, t: int|
        0 <= s < t < out.len() ==> (#[trigger] out[s]).1 != (#[trigger] out[t]).1 && depth(
            edges,
            out[s].1 as int,
        ) <= depth(edges, out[t].1 as int)
    &&& forall|v: int|
        0 <= v < before.len() && root_of(edges, v) == root && depth(edges, v) < k ==> exists|
            t: int,
        |
            0 <= t < out.len() && (#[trigger] out[t]).1 == v
}

proof fn lemma_listed_grows<
    S,
    C,
    E,
    F: Fn(Transaction, &Overlayed<S>, &C) -> Result<StateDiff, E>,
>(
    edges: Seq<(int, int)>,
    before: Seq<Option<Transaction>>,
    root: int,
    execute: &F,
    state: &S,
    cache: &C,
    earlier: Seq<(Result<StateDiff, E>, usize)>,
    batch: Seq<(Result<StateDiff, E>, usize)>,
    known: Seq<Option<DiffModel>>,
    diffs: Seq<Option<DiffModel>>,
    k: nat,
)
    requires
        is_forest(before.len(), edges),
        0 <= root < before.len(),
        parent_of(edges, root) is None,
        listed(edges, before, root, execute, state, cache, earlier, known, k),
        batch.len() == rows(edges, root, k).len(),
        forall|i: int|
            0 <= i < batch.len() ==> (#[trigger] batch[i]).1 == rows(edges, root, k)[i] && ran(
                execute,
                before[batch[i].1 as int].unwrap(),
                state,
                cache,
                accumulated(edges, root, k, known),
                batch[i].0,
            ),
        diffs == with_results(known, batch, batch.len() as int),
    ensures
        listed(edges, before, root, execute, state, cache, earlier + batch, diffs, k + 1),
{
    let n = before.len();
    let level = rows(edges, root, k);
    let out = earlier + batch;
    lemma_rows_facts(n, edges, root, k);
    assert forall|i: int, j: int| 0 <= i < j < batch.len() implies (#[trigger] batch[i]).1 != (
    #[trigger] batch[j]).1 by {
        assert(level[i] != level[j]);
    }
    assert forall|i: int| 0 <= i < batch.len() implies (#[trigger] batch[i]).1 < known.len() by {
        assert(0 <= level[i] < n);
    }
    lemma_with_results(known, batch, batch.len() as int);
    assert forall|v: int|
        0 <= v < n && root_of(edges, v) == root && depth(edges, v) < k implies #[trigger] known[v]
        == diffs[v] by {
        assert forall|i: int| 0 <= i < batch.len() implies (#[trigger] batch[i]).1 != v by {
            assert(depth(edges, level[i]) == k);
        }
    }
    assert(listing(edges, root, k + 1) == listing(edges, root, k) + level);
    assert forall|t: int| 0 <= t < out.len() implies {
        let v = (#[trigger] out[t]).1 as int;
        &&& v == listing(edges, root, k + 1)[t]
        &&& 0 <= v < before.len()
        &&& root_of(edges, v) == root
        &&& depth(edges, v) < k + 1
        &&& diffs[v] == diff_of(out[t].0)
        &&& ran(
            execute,
            before[v].unwrap(),
            state,
            cache,
            accumulated(edges, root, depth(edges, v), diffs),
            out[t].0,
        )
    } by {
        let v = out[t].1 as int;
        if t < earlier.len() {
            assert(out[t] == earlier[t]);
            lemma_accumulated_agree(n, edges, root, depth(edges, v), known, diffs);
        } else {
            let i = t - earlier.len();
            assert(out[t] == batch[i]);
            assert(v == level[i]);
            lemma_accumulated_agree(n, edges, root, k, known, diffs);
        }
    }
    assert forall|s: int, t: int| 0 <= s < t < out.len() implies (#[trigger] out[s]).1 != (
    #[trigger] out[t]).1 && depth(edges, out[s].1 as int) <= depth(edges, out[t].1 as int) by {
        if t < earlier.len() {
            assert(out[s] == earlier[s] && out[t] == earlier[t]);
        } else if s < earlier.len() {
            assert(out[s] == earlier[s] && out[t] == batch[t - earlier.len()]);
            assert(out[t].1 == level[t - earlier.len()]);
        } else {
            assert(out[s] == batch[s - earlier.len()] && out[t] == batch[t - earlier.len()]);
            assert(out[s].1 == level[s - earlier.len()]);
            assert(out[t].1 == level[t - earlier.len()]);
        }
    }
    assert forall|v: int|
        0 <= v < before.len() && root_of(edges, v) == root && depth(edges, v) < k + 1 implies exists|
        t: int,
    |
        0 <= t < out.len() && (#[trigger] out[t]).1 == v by {
        if depth(edges, v) < k {
            let t = choose|t: int| 0 <= t < earlier.len() && (#[trigger] earlier[t]).1 == v;
            assert(out[t] == earlier[t]);
        } else {
            lemma_rows_complete(n, edges, v);
            let i = choose|i: int| 0 <= i < level.len() && level[i] == v;
            assert(out[earlier.len() + i] == batch[i]);
        }
    }
}

proof fn lemma_listed_is_tree_results<
    S,
    C,
    E,
    F: Fn(Transaction, &Overlayed<S>, &C) -> Result<StateDiff, E>,
>(
    edges: Seq<(int, int)>,
    before: Seq<Option<Transaction>>,
    root: int,
    execute: &F,
    state: &S,
    cache: &C,
    out: Seq<(Result<StateDiff, E>, usize)>,
    diffs: Seq<Option<DiffModel>>,
    k: nat,
)
    requires
        is_forest(before.len(), edges),
        0 <= root < before.len(),
        parent_of(edges, root) is None,
        listed(edges, before, root, execute, state, cache, out, diffs, k),
        forall|v: int|
            0 <= v < before.len() && root_of(edges, v) == root ==> depth(edges, v) < k,
        k <= before.len(),
        rows(edges, root, k).len() == 0,
    ensures
        tree_results(edges, before, root, execute, state, cache, out),
{
    let n = before.len();
    let given = outcomes(out, n);
    lemma_listing_ends(edges, root, k, n);
    assert forall|v: int| 0 <= v < n && root_of(edges, v) == root implies #[trigger] diffs[v]
        == given[v] by {
        let t = choose|t: int| 0 <= t < out.len() && (#[trigger] out[t]).1 == v;
        let u = choose|u: int| 0 <= u < out.len() && (#[trigger] out[u]).1 == v;
        assert(out[t].1 == out[u].1);
    }
    assert forall|t: int| 0 <= t < out.len() implies {
        let v = (#[trigger] out[t]).1 as int;
        &&& v == listing(edges, root, n)[t]
        &&& 0 <= v < before.len()
        &&& root_of(edges, v) == root
        &&& ran(execute, before[v].unwrap(), state, cache, seen_by(edges, given, v), out[t].0)
    } by {
        let v = out[t].1 as int;
        lemma_accumulated_agree(n, edges, root, depth(edges, v), diffs, given);
    }
}

/// Folding the results of a row is folding the row over their contributions.
proof fn lemma_folded_row<E>(
    acc: DiffModel,
    results: Seq<(Result<StateDiff, E>, usize)>,
    row: Seq<int>,
    diffs: Seq<Option<DiffModel>>,
    n: int,
)
    requires
        0 <= n <= results.len(),
        results.len() == row.len(),
        forall|i: int|
            0 <= i < results.len() ==> (#[trigger] results[i]).1 == row[i] && diffs[row[i]]
                == diff_of(results[i].0),
    ensures
        folded(acc, results, n) == fold_row(acc, row.take(n), diffs),
    decreases n,
{
    if n > 0 {
        lemma_folded_row(acc, results, row, diffs, n - 1);
        assert(row.take(n).drop_last() =~= row.take(n - 1));
        assert(row.take(n).last() == row[n - 1]);
        assert(results[n - 1].1 == row[n - 1]);
    } else {
        assert(row.take(0) =~= Seq::<int>::empty());
    }
}

/// Accumulates the state changes of one row: the diff of each result that
/// is a success is laid over `acc`, in the order of the results.
pub fn fold_results<E>(acc: &mut StateDiff, results: &Vec<(Result<StateDiff, E>, usize)>)
    ensures
        final(acc)@ == folded(old(acc)@, results@, results.len() as int),
{
    let mut i: usize = 0;
    while i < results.len()
        invariant
            i <= results.len(),
            acc@ == folded(old(acc)@, results@, i as int),
        decreases results.len() - i,
    {
        match &results[i].0 {
            Ok(diff) => {
                acc.apply(diff);
            },
            Err(_) => {},
        }
        i += 1;
    }
}

/// One tree of a schedule, named by its root.
#[derive(Debug)]
pub struct Tree {
    root: usize,
}

impl Tree {
    /// The position in the batch of the transaction at the root.
    pub closed spec fn root(&self) -> int {
        self.root as int
    }

    /// Runs the transactions of this tree row by row. The transactions of a
    /// row all run against `state` with the same mutations laid over it: the
    /// diffs of the successful transactions of the rows above, in the order in
    /// which they ran. A failed transaction contributes nothing; the rows
    /// below it still run. Each result comes with the position of its
    /// transaction in the batch, and the results are listed row after row.
    pub fn run<S: State, C, E, F: Fn(Transaction, &Overlayed<S>, &C) -> Result<StateDiff, E>>(
        self,
        schedule: &mut Schedule,
        state: &S,
        cache: &C,
        execute: &F,
    ) -> (out: Vec<(Result<StateDiff, E>, usize)>)
        requires
            old(schedule).wf(),
            old(schedule).roots().contains(self.root() as usize),
            forall|v: int|
                0 <= v < old(schedule).size() && root_of(old(schedule).edges(), v) == self.root()
                    ==> #[trigger] old(schedule).slots()[v] is Some,
            forall|tx: Transaction, view: &Overlayed<S>, c: &C| #[trigger]
                execute.requires((tx, view, c)),
        ensures
            final(schedule).wf(),
            final(schedule).dependency_graph() == old(schedule).dependency_graph(),
            final(schedule).edges() == old(schedule).edges(),
            final(schedule).roots() == old(schedule).roots(),
            final(schedule).size() == old(schedule).size(),
            forall|v: int|
                0 <= v < old(schedule).size() ==> #[trigger] final(schedule).slots()[v] == if root_of(
                    old(schedule).edges(),
                    v,
                ) == self.root() {
                    None
                } else {
                    old(schedule).slots()[v]
                },
            tree_results(
                old(schedule).edges(),
                old(schedule).slots(),
                self.root(),
                execute,
                state,
                cache,
                out@,
            ),
    {
        let ghost edges = graph_edges(schedule.graph);
        let ghost n = schedule.slots@.len();
        let ghost root = self.root as int;
        let ghost before = schedule.slots@;
        let ghost mut diffs: Seq<Option<DiffModel>> = Seq::new(n, |v: int| None);
        let mut out: Vec<(Result<StateDiff, E>, usize)> = Vec::new();
        let mut acc = StateDiff::new();
        proof {
            assert(schedule.roots@.contains(self.root));
            assert forall|v: int| 0 <= v < n && root_of(edges, v) == root implies #[trigger] before[v] is Some by {
                assert(old(schedule).slots()[v] is Some);
            }
        }
        let mut iter = BfsRows::new(&schedule.graph, self.root);
        loop
            invariant_except_break
                schedule.wf(),
                schedule.graph == old(schedule).graph,
                schedule.roots == old(schedule).roots,
                schedule.slots@.len() == n,
                edges == graph_edges(schedule.graph),
                before == old(schedule).slots@,
                n == before.len(),
                is_forest(n, edges),
                0 <= root < n,
                parent_of(edges, root) is None,
                forall|v: int|
                    0 <= v < n && root_of(edges, v) == root ==> #[trigger] before[v] is Some,
                forall|tx: Transaction, view: &Overlayed<S>, c: &C| #[trigger]
                    execute.requires((tx, view, c)),
                iter.wf(&schedule.graph),
                iter.start() == root,
                iter.row() <= n,
                forall|v: int|
                    0 <= v < n ==> #[trigger] schedule.slots@[v] == if root_of(edges, v) == root
                        && depth(edges, v) < iter.row() {
                        None
                    } else {
                        before[v]
                    },
                acc@ == accumulated(edges, root, iter.row(), diffs),
                listed(edges, before, root, execute, state, cache, out@, diffs, iter.row()),
            ensures
                schedule.wf(),
                schedule.graph == old(schedule).graph,
                schedule.roots == old(schedule).roots,
                schedule.slots@.len() == n,
                forall|v: int|
                    0 <= v < n ==> #[trigger] schedule.slots@[v] == if root_of(edges, v) == root {
                        None
                    } else {
                        before[v]
                    },
                iter.row() <= n,
                rows(edges, root, iter.row()).len() == 0,
                listed(edges, before, root, execute, state, cache, out@, diffs, iter.row()),
                forall|v: int|
                    0 <= v < n && root_of(edges, v) == root ==> depth(edges, v) < iter.row(),
            decreases n - iter.row(),
        {
            let ghost k = iter.row();
            let ghost level = rows(edges, root, k);
            proof {
                lemma_rows_facts(n, edges, root, k);
                lemma_bfs_in_tree(n, edges, graph_successors(schedule.graph), root, k);
            }
            match iter.next(&schedule.graph) {
                None => {
                    proof {
                        assert forall|v: int| 0 <= v < n && root_of(edges, v) == root implies depth(
                            edges,
                            v,
                        ) < k by {
                            lemma_rows_complete(n, edges, v);
                            if depth(edges, v) >= k {
                                lemma_rows_stay_empty(edges, root, k, depth(edges, v));
                            }
                        }
                    }
                    break ;
                },
                Some(row) => {
                    let ghost earlier = out@;
                    let ghost known = diffs;
                    proof {
                        lemma_root_of(n, edges, level[0]);
                        assert forall|i: int, j: int|
                            0 <= i < row.len() && 0 <= j < row.len() && i != j implies row@[i]
                            != row@[j] by {
                            assert(level[i] != level[j]);
                        }
                        assert forall|t: int| 0 <= t < row.len() implies (#[trigger] row[t])
                            < schedule.slots@.len() && schedule.slots@[row[t] as int] is Some by {
                            assert(row@[t] == level[t]);
                        }
                    }
                    let ghost held = schedule.slots@;
                    let mut results = run_row(schedule, &row, state, cache, execute, &acc);
                    let ghost batch = results@;
                    proof {
                        assert forall|i: int, j: int| 0 <= i < j < batch.len() implies (
                        #[trigger] batch[i]).1 != (#[trigger] batch[j]).1 by {
                            assert(row@[i] != row@[j]);
                        }
                        lemma_with_results(known, batch, batch.len() as int);
                        diffs = with_results(known, batch, batch.len() as int);
                        assert forall|v: int|
                            0 <= v < n && root_of(edges, v) == root && depth(edges, v)
                                < k implies #[trigger] known[v] == diffs[v] by {
                            assert forall|i: int| 0 <= i < batch.len() implies (
                            #[trigger] batch[i]).1 != v by {
                                assert(batch[i].1 == level[i]);
                            }
                        }
                        lemma_accumulated_agree(n, edges, root, k, known, diffs);
                    }
                    let ghost rested = acc@;
                    fold_results(&mut acc, &results);
                    out.append(&mut results);
                    proof {
                        assert forall|i: int| 0 <= i < batch.len() implies (#[trigger] batch[i]).1
                            == level[i] && diffs[level[i]] == diff_of(batch[i].0) by {
                            assert(batch[i].1 == row@[i]);
                        }
                        lemma_folded_row(rested, batch, level, diffs, batch.len() as int);
                        assert(level.take(level.len() as int) =~= level);
                        lemma_listed_grows(
                            edges,
                            before,
                            root,
                            execute,
                            state,
                            cache,
                            earlier,
                            batch,
                            known,
                            diffs,
                            k,
                        );
                        assert forall|v: int| 0 <= v < n implies #[trigger] schedule.slots@[v]
                            == if root_of(edges, v) == root && depth(edges, v) < k + 1 {
                            None
                        } else {
                            before[v]
                        } by {
                            if row@.contains(v as usize) {
                                let i = choose|i: int| 0 <= i < row.len() && row@[i] == v as usize;
                                assert(level[i] == v);
                            }
                            if root_of(edges, v) == root && depth(edges, v) == k {
                                lemma_rows_complete(n, edges, v);
                                let i = choose|i: int| 0 <= i < level.len() && level[i] == v;
                                assert(row@[i] == v as usize);
                            }
                        }
                    }
                },
            }
        }
        proof {
            lemma_listed_is_tree_results(
                edges,
                before,
                root,
                execute,
                state,
                cache,
                out@,
                diffs,
                iter.row(),
            );
        }
        out
    }
}

/// Whether `v` stands in the tree of one of the first `d` roots.
pub open spec fn in_first_trees(edges: Seq<(int, int)>, roots: Seq<usize>, d: int, v: int) -> bool {
    exists|i: int| 0 <= i < d && #[trigger] roots[i] == root_of(edges, v)
}

/// What holds of the results gathered once the trees of the first `d` roots have run.
spec fn gathered_fit<S, C, E, F: Fn(Transaction, &Overlayed<S>, &C) -> Result<StateDiff, E>>(
    edges: Seq<(int, int)>,
    before: Seq<Option<Transaction>>,
    roots: Seq<usize>,
    execute: &F,
    state: &S,
    cache: &C,
    gathered: Seq<(Result<StateDiff, E>, usize)>,
    diffs: Seq<Option<DiffModel>>,
    d: int,
) -> bool {
    &&& diffs.len() == before.len()
    &&& forall|t: int|
        0 <= t < gathered.len() ==> {
            let v = (#[trigger] gathered[t]).1 as int;
            &&& 0 <= v < before.len()
            &&& in_first_trees(edges, roots, d, v)
            &&& diffs[v] == diff_of(gathered[t].0)
            &&& ran(
                execute,
                before[v].unwrap(),
                state,
                cache,
                seen_by(edges, diffs, v),
                gathered[t].0,
            )
        }
    &&& forall|s: int, t: int|
        0 <= s < t < gathered.len() ==> (#[trigger] gathered[s]).1 != (#[trigger] gathered[t]).1
    &&& forall|v: int|
        0 <= v < before.len() && #[trigger] in_first_trees(edges, roots, d, v) ==> exists|t: int|
            0 <= t < gathered.len() && (#[trigger] gathered[t]).1 == v
}

proof fn lemma_gathered_grows<
    S,
    C,
    E,
    F: Fn(Transaction, &Overlayed<S>, &C) -> Result<StateDiff, E>,
>(
    edges: Seq<(int, int)>,
    before: Seq<Option<Transaction>>,
    roots: Seq<usize>,
    execute: &F,
    state: &S,
    cache: &C,
    gathered: Seq<(Result<StateDiff, E>, usize)>,
    piece: Seq<(Result<StateDiff, E>, usize)>,
    known: Seq<Option<DiffModel>>,
    diffs: Seq<Option<DiffModel>>,
    d: int,
)
    requires
        is_forest(before.len(), edges),
        is_root_list(before.len(), edges, roots),
        0 <= d < roots.len(),
        gathered_fit(edges, before, roots, execute, state, cache, gathered, known, d),
        tree_results(edges, before, roots[d] as int, execute, state, cache, piece),
        diffs == with_results(known, piece, piece.len() as int),
    ensures
        gathered_fit(edges, before, roots, execute, state, cache, gathered + piece, diffs, d + 1),
{
    let n = before.len();
    let root = roots[d] as int;
    let all = gathered + piece;
    let given = outcomes(piece, n);
    assert(roots.contains(roots[d]));
    lemma_with_results(known, piece, piece.len() as int);
    assert forall|v: int| 0 <= v < n && root_of(edges, v) != root implies #[trigger] diffs[v]
        == known[v] by {
        assert forall|i: int| 0 <= i < piece.len() implies (#[trigger] piece[i]).1 != v by {}
    }
    assert forall|v: int| 0 <= v < n && root_of(edges, v) == root implies #[trigger] diffs[v]
        == given[v] by {
        let t = choose|t: int| 0 <= t < piece.len() && (#[trigger] piece[t]).1 == v;
        let u = choose|u: int| 0 <= u < piece.len() && (#[trigger] piece[u]).1 == v;
        assert(piece[t].1 == piece[u].1);
    }
    assert forall|t: int| 0 <= t < all.len() implies {
        let v = (#[trigger] all[t]).1 as int;
        &&& 0 <= v < before.len()
        &&& in_first_trees(edges, roots, d + 1, v)
        &&& diffs[v] == diff_of(all[t].0)
        &&& ran(execute, before[v].unwrap(), state, cache, seen_by(edges, diffs, v), all[t].0)
    } by {
        let v = all[t].1 as int;
        if t < gathered.len() {
            assert(all[t] == gathered[t]);
            let i = choose|i: int| 0 <= i < d && #[trigger] roots[i] == root_of(edges, v);
            assert(roots[i] == root_of(edges, v));
            assert(in_first_trees(edges, roots, d + 1, v));
            lemma_root_of(n, edges, v);
            assert(roots.contains(roots[i]));
            lemma_accumulated_agree(
                n,
                edges,
                root_of(edges, v),
                depth(edges, v),
                known,
                diffs,
            );
        } else {
            assert(all[t] == piece[t - gathered.len()]);
            assert(roots[d] == root_of(edges, v));
            lemma_accumulated_agree(n, edges, root, depth(edges, v), given, diffs);
        }
    }
    assert forall|s: int, t: int| 0 <= s < t < all.len() implies (#[trigger] all[s]).1 != (
    #[trigger] all[t]).1 by {
        if t < gathered.len() {
            assert(all[s] == gathered[s] && all[t] == gathered[t]);
        } else if s < gathered.len() {
            assert(all[s] == gathered[s] && all[t] == piece[t - gathered.len()]);
            let i = choose|i: int|
                0 <= i < d && #[trigger] roots[i] == root_of(edges, all[s].1 as int);
        } else {
            assert(all[s] == piece[s - gathered.len()] && all[t] == piece[t - gathered.len()]);
        }
    }
    assert forall|v: int|
        0 <= v < before.len() && #[trigger] in_first_trees(
            edges,
            roots,
            d + 1,
            v,
        ) implies exists|t: int| 0 <= t < all.len() && (#[trigger] all[t]).1 == v by {
        let i = choose|i: int| 0 <= i < d + 1 && #[trigger] roots[i] == root_of(edges, v);
        if i < d {
            assert(in_first_trees(edges, roots, d, v));
            let t = choose|t: int| 0 <= t < gathered.len() && (#[trigger] gathered[t]).1 == v;
            assert(all[t] == gathered[t]);
        } else {
            let t = choose|t: int| 0 <= t < piece.len() && (#[trigger] piece[t]).1 == v;
            assert(all[gathered.len() + t] == piece[t]);
        }
    }
}

impl Schedule {
    /// The independent trees of the schedule, one per root.
    pub fn trees(&self) -> (r: Vec<Tree>)
        ensures
            r.len() == self.roots().len(),
            forall|i: int| 0 <= i < r.len() ==> (#[trigger] r[i]).root() == self.roots()[i],
    {
        let mut out: Vec<Tree> = Vec::new();
        let mut i: usize = 0;
        while i < self.roots.len()
            invariant
                i <= self.roots.len(),
                out.len() == i,
                forall|k: int| 0 <= k < i ==> (#[trigger] out[k]).root == self.roots[k],
            decreases self.roots.len() - i,
        {
            out.push(Tree { root: self.roots[i] });
            i += 1;
        }
        out
    }

    /// Runs every tree of the schedule and hands the results back in the
    /// order of the batch.
    pub fn run<S: State, C, E, F: Fn(Transaction, &Overlayed<S>, &C) -> Result<StateDiff, E>>(
        self,
        state: &S,
        cache: &C,
        execute: &F,
    ) -> (out: Vec<Result<StateDiff, E>>)
        requires
            self.wf(),
            forall|v: int| 0 <= v < self.size() ==> #[trigger] self.slots()[v] is Some,
            forall|tx: Transaction, view: &Overlayed<S>, c: &C| #[trigger]
                execute.requires((tx, view, c)),
        ensures
            batch_results(
                self.edges(),
                self.slots().map_values(|slot: Option<Transaction>| slot.unwrap()),
                execute,
                state,
                cache,
                out@,
            ),
    {
        let ghost edges = graph_edges(self.graph);
        let ghost before = self.slots@;
        let ghost roots = self.roots@;
        let n = self.slots.len();
        let trees = self.trees();
        let ghost planned = trees@;
        proof {
            assert forall|v: int| 0 <= v < n implies #[trigger] before[v] is Some by {
                assert(self.slots()[v] is Some);
            }
        }
        let mut schedule = self;
        let mut gathered: Vec<(Result<StateDiff, E>, usize)> = Vec::new();
        let ghost mut diffs: Seq<Option<DiffModel>> = Seq::new(n as nat, |v: int| None);
        for tree in it: trees.into_iter()
            invariant
                it.seq() == planned,
                planned.len() == roots.len(),
                forall|i: int| 0 <= i < planned.len() ==> (#[trigger] planned[i]).root() == roots[i],
                schedule.wf(),
                schedule.edges() == edges,
                schedule.roots() == roots,
                schedule.slots@.len() == n,
                before.len() == n,
                is_forest(n as nat, edges),
                is_root_list(n as nat, edges, roots),
                forall|v: int| 0 <= v < n ==> #[trigger] before[v] is Some,
                forall|tx: Transaction, view: &Overlayed<S>, c: &C| #[trigger]
                    execute.requires((tx, view, c)),
                forall|v: int|
                    0 <= v < n ==> #[trigger] schedule.slots@[v] == if in_first_trees(
                        edges,
                        roots,
                        it.index() as int,
                        v,
                    ) {
                        None
                    } else {
                        before[v]
                    },
                gathered_fit(
                    edges,
                    before,
                    roots,
                    execute,
                    state,
                    cache,
                    gathered@,
                    diffs,
                    it.index() as int,
                ),
        {
            let ghost d = it.index() as int;
            let ghost held = schedule.slots@;
            let ghost earlier = gathered@;
            let ghost known = diffs;
            proof {
                assert(tree.root() == roots[d]);
                assert(roots.contains(roots[d]));
                assert forall|v: int|
                    0 <= v < n && root_of(edges, v) == tree.root() implies #[trigger] held[v] is Some by {
                    if in_first_trees(edges, roots, d, v) {
                        let i = choose|i: int|
                            0 <= i < d && #[trigger] roots[i] == root_of(edges, v);
                        assert(roots[i] == roots[d]);
                    }
                    assert(before[v] is Some);
                }
            }
            let mut piece = tree.run(&mut schedule, state, cache, execute);
            proof {
                assert forall|t: int| 0 <= t < piece.len() implies ran(
                    execute,
                    before[(#[trigger] piece[t]).1 as int].unwrap(),
                    state,
                    cache,
                    seen_by(edges, outcomes(piece@, n as nat), piece[t].1 as int),
                    piece[t].0,
                ) by {
                    let v = piece[t].1 as int;
                    assert(held[v] == before[v]) by {
                        if in_first_trees(edges, roots, d, v) {
                            let i = choose|i: int|
                                0 <= i < d && #[trigger] roots[i] == root_of(edges, v);
                            assert(roots[i] == roots[d]);
                        }
                    }
                }
                assert(tree_results(edges, before, roots[d] as int, execute, state, cache, piece@));
                diffs = with_results(known, piece@, piece.len() as int);
                lemma_gathered_grows(
                    edges,
                    before,
                    roots,
                    execute,
                    state,
                    cache,
                    earlier,
                    piece@,
                    known,
                    diffs,
                    d,
                );
                assert forall|v: int| 0 <= v < n implies #[trigger] schedule.slots@[v]
                    == if in_first_trees(edges, roots, d + 1, v) {
                    None
                } else {
                    before[v]
                } by {
                    if root_of(edges, v) == roots[d] {
                        assert(roots[d] == root_of(edges, v));
                    } else if in_first_trees(edges, roots, d + 1, v) {
                        let i = choose|i: int|
                            0 <= i < d + 1 && #[trigger] roots[i] == root_of(edges, v);
                        assert(roots[i] == root_of(edges, v));
                        assert(in_first_trees(edges, roots, d, v));
                    } else if in_first_trees(edges, roots, d, v) {
                        let i = choose|i: int|
                            0 <= i < d && #[trigger] roots[i] == root_of(edges, v);
                        assert(roots[i] == root_of(edges, v));
                    }
                }
            }
            gathered.append(&mut piece);
        }
        proof {
            assert forall|v: int| 0 <= v < n implies #[trigger] has_result(gathered@, v) by {
                lemma_root_of(n as nat, edges, v);
                let top = root_of(edges, v) as usize;
                assert(roots.contains(top));
                let i = choose|i: int| 0 <= i < roots.len() && roots[i] == top;
                assert(roots[i] == root_of(edges, v));
                assert(in_first_trees(edges, roots, roots.len() as int, v));
            }
        }
        let ghost pairs = gathered@;
        let out = restore_order(gathered, n).unwrap();
        proof {
            let txs = before.map_values(|slot: Option<Transaction>| slot.unwrap());
            assert forall|v: int| 0 <= v < n implies #[trigger] contributions(out@)[v]
                == diffs[v] by {
                assert(has_result(pairs, v));
                let t = choose|t: int| 0 <= t < pairs.len() && (#[trigger] pairs[t]).1 == v;
                assert(out@[pairs[t].1 as int] == pairs[t].0);
            }
            assert(contributions(out@) =~= diffs);
            assert forall|j: int| 0 <= j < txs.len() implies ran(
                execute,
                #[trigger] txs[j],
                state,
                cache,
                seen_by(edges, contributions(out@), j),
                out@[j],
            ) by {
                assert(has_result(pairs, j));
                let t = choose|t: int| 0 <= t < pairs.len() && (#[trigger] pairs[t]).1 == j;
                assert(out@[pairs[t].1 as int] == pairs[t].0);
            }
        }
        out
    }
}

/// Puts each result at the position of its transaction in a batch of `n`.
/// `None` unless the results are one for each position.
pub fn restore_order<E>(gathered: Vec<(Result<StateDiff, E>, usize)>, n: usize) -> (r: Option<
    Vec<Result<StateDiff, E>>,
>)
    ensures
        r is Some <==> covers_once(gathered@, n as nat),
        r is Some ==> r.unwrap().len() == n && forall|t: int|
            0 <= t < gathered.len() ==> r.unwrap()@[(#[trigger] gathered[t]).1 as int]
                == gathered[t].0,
{
    let ghost pairs = gathered@;
    let mut placed: Vec<Option<Result<StateDiff, E>>> = Vec::new();
    let mut i: usize = 0;
    while i < n
        invariant
            i <= n,
            placed.len() == i,
            forall|v: int| 0 <= v < i ==> #[trigger] placed[v] is None,
        decreases n - i,
    {
        placed.push(None);
        i += 1;
    }
    for pair in it: gathered.into_iter()
        invariant
            it.seq() == pairs,
            placed.len() == n,
            forall|t: int| 0 <= t < it.index() ==> (#[trigger] pairs[t]).1 < n,
            forall|s: int, t: int|
                0 <= s < t < it.index() ==> (#[trigger] pairs[s]).1 != (#[trigger] pairs[t]).1,
            forall|t: int|
                0 <= t < it.index() ==> placed[(#[trigger] pairs[t]).1 as int] == Some(pairs[t].0),
            forall|v: int|
                0 <= v < n && #[trigger] placed[v] is Some ==> exists|t: int|
                    0 <= t < it.index() && (#[trigger] pairs[t]).1 == v,
    {
        let ghost t = it.index() as int;
        let ghost earlier = placed@;
        if pair.1 >= n {
            assert(!(pairs[t].1 < n));
            return None;
        }
        if placed[pair.1].is_some() {
            proof {
                let s = choose|s: int| 0 <= s < t && (#[trigger] pairs[s]).1 == pair.1;
                assert(pairs[s].1 == pairs[t].1);
            }
            return None;
        }
        placed.set(pair.1, Some(pair.0));
        proof {
            assert forall|s: int| 0 <= s < t + 1 implies placed[(#[trigger] pairs[s]).1 as int]
                == Some(pairs[s].0) by {
                if s < t {
                    assert(earlier[pairs[s].1 as int] == Some(pairs[s].0));
                }
            }
            assert forall|v: int| 0 <= v < n && #[trigger] placed[v] is Some implies exists|
                u: int,
            |
                0 <= u < t + 1 && (#[trigger] pairs[u]).1 == v by {
                if v == pair.1 {
                    assert(pairs[t].1 == v);
                } else {
                    assert(earlier[v] is Some);
                    let u = choose|u: int| 0 <= u < t && (#[trigger] pairs[u]).1 == v;
                    assert(pairs[u].1 == v);
                }
            }
        }
    }
    let mut out: Vec<Result<StateDiff, E>> = Vec::new();
    let ghost filled = placed@;
    let mut j: usize = 0;
    while j < n
        invariant
            j <= n,
            placed.len() == n,
            out.len() == j,
            filled.len() == n,
            pairs == gathered@,
            forall|v: int| j <= v < n ==> #[trigger] placed[v] == filled[v],
            forall|v: int| 0 <= v < j ==> #[trigger] filled[v] is Some,
            forall|v: int| 0 <= v < j ==> #[trigger] out[v] == filled[v].unwrap(),
            forall|t: int| 0 <= t < pairs.len() ==> (#[trigger] pairs[t]).1 < n,
            forall|s: int, t: int|
                0 <= s < t < pairs.len() ==> (#[trigger] pairs[s]).1 != (#[trigger] pairs[t]).1,
            forall|t: int|
                0 <= t < pairs.len() ==> filled[(#[trigger] pairs[t]).1 as int] == Some(pairs[t].0),
            forall|v: int|
                0 <= v < n && #[trigger] filled[v] is Some ==> has_result(pairs, v),
        decreases n - j,
    {
        assert(placed[j as int] == filled[j as int]);
        let taken = placed[j].take();
        match taken {
            Some(result) => {
                out.push(result);
            },
            None => {
                proof {
                    if has_result(pairs, j as int) {
                        let t = choose|t: int| 0 <= t < pairs.len() && (#[trigger] pairs[t]).1 == j;
                        assert(filled[pairs[t].1 as int] == Some(pairs[t].0));
                    }
                    assert(!covers_once(pairs, n as nat));
                }
                return None;
            },
        }
        j += 1;
    }
    proof {
        assert forall|t: int| 0 <= t < pairs.len() implies out@[(#[trigger] pairs[t]).1 as int]
            == pairs[t].0 by {
            assert(filled[pairs[t].1 as int] == Some(pairs[t].0));
        }
        assert forall|v: int| 0 <= v < n implies #[trigger] has_result(pairs, v) by {
            assert(filled[v] is Some);
        }
        assert(covers_once(pairs, n as nat));
    }
    Some(out)
}

/// Runs a batch of transactions in dependency order and hands back one result
/// per transaction, in the order of the batch: the diff of a transaction that
/// succeeded, the error of one that failed. Transactions are laid out as a
/// forest in which each is linked to the nearest earlier one it depends on;

/// each runs against `state` overlaid with the diffs of the successful
/// transactions of the rows above it in its tree.
pub fn execute_many<S: State, C, E, F: Fn(Transaction, &Overlayed<S>, &C) -> Result<StateDiff, E>>(
    state: &S,
    cache: &C,
    txs: Vec<Transaction>,
    execute: F,
) -> (out: Vec<Result<StateDiff, E>>)
    requires
        txs.len() <= u32::MAX,
        forall|tx: Transaction, view: &Overlayed<S>, c: &C| #[trigger] execute.requires((tx, view, c)),
    ensures
        out@.len() == txs@.len(),
        batch_results(
            dependency_edges(refs_of(txs@, state.model()), 0),
            txs@,
            &execute,
            state,
            cache,
            out@,
        ),
{
    let schedule = Schedule::new(state, txs);
    proof {
        assert(schedule.slots().map_values(|slot: Option<Transaction>| slot.unwrap()) =~= txs@);
    }
    schedule.run(state, cache, &execute)
}

} // verus!

