//! The graph, disjoint-set and bit-set collections of `petgraph` and `fixedbitset`
//! as the scheduler uses them. Nothing in this file is proved: each contract says
//! what the collection's own source shows, and holds of every value of the
//! collection, however it was made.

use fixedbitset::FixedBitSet;
use petgraph::graph::DiGraph;
use petgraph::graph::NodeIndex;
use petgraph::unionfind::UnionFind;
use petgraph::visit::EdgeRef;
use petgraph::visit::NodeIndexable;
use petgraph::visit::VisitMap;
use petgraph::visit::Visitable;
use petgraph::Direction;
use vstd::prelude::*;

verus! {

/// `petgraph::graph::Graph`, carried as an opaque value.
#[verifier::external_type_specification]
#[verifier::external_body]
#[verifier::reject_recursive_types(N)]
#[verifier::reject_recursive_types(E)]
#[verifier::reject_recursive_types(Ty)]
#[verifier::reject_recursive_types(Ix)]
pub struct ExGraph<N, E, Ty, Ix>(petgraph::graph::Graph<N, E, Ty, Ix>);

/// `petgraph::Directed`, the marker of graphs with directed edges.
#[verifier::external_type_specification]
#[verifier::external_body]
pub struct ExDirected(petgraph::Directed);

/// `petgraph::unionfind::UnionFind`, carried as an opaque value.
#[verifier::external_type_specification]
#[verifier::external_body]
#[verifier::reject_recursive_types(K)]
pub struct ExUnionFind<K>(petgraph::unionfind::UnionFind<K>);

/// `fixedbitset::FixedBitSet`, the visit map of a graph, carried as an opaque value.
#[verifier::external_type_specification]
#[verifier::external_body]
pub struct ExFixedBitSet(fixedbitset::FixedBitSet);

/// The weights of a graph's nodes, in the order of their indices.
pub uninterp spec fn graph_nodes(g: DiGraph<usize, ()>) -> Seq<usize>;

/// The list of a graph's edges as (source, target) index pairs, in the order of their indices.
pub uninterp spec fn graph_edges(g: DiGraph<usize, ()>) -> Seq<(int, int)>;

/// For each node of a graph, the targets of the edges that leave it, in the
/// order in which the graph walks them.
pub uninterp spec fn graph_successors(g: DiGraph<usize, ()>) -> Seq<Seq<int>>;

/// For each node of a graph, the sources of the edges that enter it, in the
/// order in which the graph walks them.
pub uninterp spec fn graph_predecessors(g: DiGraph<usize, ()>) -> Seq<Seq<int>>;

/// The bits that are set in a bit set.
pub uninterp spec fn bitset_members(b: FixedBitSet) -> Set<int>;

/// The number of bits a bit set was made with.
pub uninterp spec fn bitset_capacity(b: FixedBitSet) -> nat;

/// For each element of a disjoint-set structure, the representative of its set.
pub uninterp spec fn unionfind_labels(u: UnionFind<usize>) -> Seq<int>;

/// Labels in which every element labelled `a` or `b` is relabelled `root`.
pub open spec fn merged_labels(labels: Seq<int>, a: int, b: int, root: int) -> Seq<int> {
    Seq::new(
        labels.len(),
        |i: int|
            if labels[i] == a || labels[i] == b {
                root
            } else {
                labels[i]
            },
    )
}

/// `DiGraph::new`: a graph without nodes or edges.
#[verifier::external_body]
pub(crate) fn graph_new() -> (g: DiGraph<usize, ()>)
    ensures
        graph_nodes(g) == Seq::<usize>::empty(),
        graph_edges(g) == Seq::<(int, int)>::empty(),
        graph_successors(g) == Seq::<Seq<int>>::empty(),
        graph_predecessors(g) == Seq::<Seq<int>>::empty(),
{
    DiGraph::new()
}

/// `Graph::add_node`: appends a node with the given weight and returns its index,
/// which is the number of nodes before the call. No edge leaves or enters the
/// new node. The graph indexes by `u32` and refuses a node once that many exist.
#[verifier::external_body]
pub(crate) fn graph_add_node(g: &mut DiGraph<usize, ()>, weight: usize) -> (ix: usize)
    requires
        graph_nodes(*old(g)).len() < u32::MAX,
    ensures
        graph_nodes(*final(g)) == graph_nodes(*old(g)).push(weight),
        graph_edges(*final(g)) == graph_edges(*old(g)),
        graph_successors(*final(g)) == graph_successors(*old(g)).push(Seq::empty()),
        graph_predecessors(*final(g)) == graph_predecessors(*old(g)).push(Seq::empty()),
        ix == graph_nodes(*old(g)).len(),
{
    g.add_node(weight).index()
}

/// `Graph::add_edge`: appends an edge from `a` to `b` to the list of edges, and
/// puts it first among the edges that leave `a` and first among those that
/// enter `b`. Both must be nodes of the graph, and fewer than `u32::MAX` edges
/// may exist.
#[verifier::external_body]
pub(crate) fn graph_add_edge(g: &mut DiGraph<usize, ()>, a: usize, b: usize)
    requires
        a < graph_nodes(*old(g)).len(),
        b < graph_nodes(*old(g)).len(),
        graph_edges(*old(g)).len() < u32::MAX,
    ensures
        graph_nodes(*final(g)) == graph_nodes(*old(g)),
        graph_edges(*final(g)) == graph_edges(*old(g)).push((a as int, b as int)),
        graph_successors(*final(g)) == graph_successors(*old(g)).update(
            a as int,
            seq![b as int] + graph_successors(*old(g))[a as int],
        ),
        graph_predecessors(*final(g)) == graph_predecessors(*old(g)).update(
            b as int,
            seq![a as int] + graph_predecessors(*old(g))[b as int],
        ),
{
    g.add_edge(NodeIndex::new(a), NodeIndex::new(b), ());
}

/// `walks` holds one walk for each of the nodes `0..n`, and each walk leads to such nodes only.
pub open spec fn walks_within(n: nat, walks: Seq<Seq<int>>) -> bool {
    &&& walks.len() == n
    &&& forall|a: int, i: int|
        0 <= a < n && 0 <= i < walks[a].len() ==> 0 <= #[trigger] walks[a][i] < n
}

/// `NodeIndexable::node_bound`: for this graph type, the number of nodes. The
/// edges that leave a node of a graph lead to nodes of the graph.
#[verifier::external_body]
pub(crate) fn graph_node_bound(g: &DiGraph<usize, ()>) -> (n: usize)
    ensures
        n == graph_nodes(*g).len(),
        walks_within(n as nat, graph_successors(*g)),
{
    g.node_bound()
}

/// `Graph::edge_references`: every edge of the list of edges, in the order of
/// the list, each handed out as its source and target index.
#[verifier::external_body]
pub(crate) fn graph_edge_list(g: &DiGraph<usize, ()>) -> (edges: Vec<(usize, usize)>)
    ensures
        edges@.len() == graph_edges(*g).len(),
        forall|i: int|
            0 <= i < edges@.len() ==> (#[trigger] edges@[i]).0 == graph_edges(*g)[i].0
                && edges@[i].1 == graph_edges(*g)[i].1,
{
    g.edge_references().map(|e| (e.source().index(), e.target().index())).collect()
}

/// `Graph::neighbors`: the targets of the edges that leave `a`, in the order
/// in which the graph walks them.
#[verifier::external_body]
pub(crate) fn graph_neighbors(g: &DiGraph<usize, ()>, a: usize) -> (targets: Vec<usize>)
    requires
        a < graph_nodes(*g).len(),
    ensures
        targets@.len() == graph_successors(*g)[a as int].len(),
        forall|i: int|
            0 <= i < targets@.len() ==> #[trigger] targets@[i] == graph_successors(*g)[a as int][i],
{
    g.neighbors(NodeIndex::new(a)).map(|n| n.index()).collect()
}

/// `Graph::edges_directed` with `Direction::Incoming`: the sources of the edges
/// that enter `a`, in the order in which the graph walks them.
#[verifier::external_body]
pub(crate) fn graph_incoming(g: &DiGraph<usize, ()>, a: usize) -> (sources: Vec<usize>)
    requires
        a < graph_nodes(*g).len(),
    ensures
        sources@.len() == graph_predecessors(*g)[a as int].len(),
        forall|i: int|
            0 <= i < sources@.len() ==> #[trigger] sources@[i] == graph_predecessors(
                *g,
            )[a as int][i],
{
    g.edges_directed(NodeIndex::new(a), Direction::Incoming).map(|e| e.source().index()).collect()
}

/// `Visitable::visit_map`: a bit set with one clear bit per node of the graph.
#[verifier::external_body]
pub(crate) fn graph_visit_map(g: &DiGraph<usize, ()>) -> (b: FixedBitSet)
    ensures
        bitset_members(b) == Set::<int>::empty(),
        bitset_capacity(b) == graph_nodes(*g).len(),
{
    g.visit_map()
}

/// `VisitMap::visit` on a bit set: sets bit `x` and says whether it was clear
/// before. The bit must lie within the set's capacity.
#[verifier::external_body]
pub(crate) fn bitset_visit(b: &mut FixedBitSet, x: usize) -> (first: bool)
    requires
        x < bitset_capacity(*old(b)),
    ensures
        bitset_members(*final(b)) == bitset_members(*old(b)).insert(x as int),
        bitset_capacity(*final(b)) == bitset_capacity(*old(b)),
        first == !bitset_members(*old(b)).contains(x as int),
{
    b.visit(x)
}

/// `UnionFind::new`: `n` elements, each alone in its set and its own representative.
#[verifier::external_body]
pub(crate) fn unionfind_new(n: usize) -> (u: UnionFind<usize>)
    ensures
        unionfind_labels(u) == Seq::new(n as nat, |i: int| i),
{
    UnionFind::new(n)
}

/// `UnionFind::union`: joins the sets of `x` and `y`. The representative of the
/// joined set is one of the two earlier representatives; every other set keeps
/// its own. Returns whether the two were in different sets.
#[verifier::external_body]
pub(crate) fn unionfind_union(u: &mut UnionFind<usize>, x: usize, y: usize) -> (joined: bool)
    requires
        x < unionfind_labels(*old(u)).len(),
        y < unionfind_labels(*old(u)).len(),
    ensures
        joined == (unionfind_labels(*old(u))[x as int] != unionfind_labels(*old(u))[y as int]),
        ({
            let before = unionfind_labels(*old(u));
            let a = before[x as int];
            let b = before[y as int];
            unionfind_labels(*final(u)) == merged_labels(before, a, b, a) || unionfind_labels(
                *final(u),
            ) == merged_labels(before, a, b, b)
        }),
{
    u.union(x, y)
}

/// `UnionFind::into_labeling`: the representative of each element's set, by element.
#[verifier::external_body]
pub(crate) fn unionfind_into_labeling(u: UnionFind<usize>) -> (labels: Vec<usize>)
    ensures
        labels@.len() == unionfind_labels(u).len(),
        forall|i: int| 0 <= i < labels@.len() ==> #[trigger] labels@[i] == unionfind_labels(u)[i],
{
    u.into_labeling()
}

} // verus!
