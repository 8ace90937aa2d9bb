//! Dependency forests: the shape of the graph that the scheduler builds, and
//! what follows from it for parents, depths and breadth-first rows.

use vstd::prelude::*;

verus! {

/// The targets of the edges that leave `a`, the edge added last first.
pub open spec fn out_neighbors(edges: Seq<(int, int)>, a: int) -> Seq<int>
    decreases edges.len(),
{
    if edges.len() == 0 {
        Seq::empty()
    } else if edges.last().0 == a {
        seq![edges.last().1] + out_neighbors(edges.drop_last(), a)
    } else {
        out_neighbors(edges.drop_last(), a)
    }
}

/// The sources of the edges that enter `a`, the edge added last first.
pub open spec fn in_neighbors(edges: Seq<(int, int)>, a: int) -> Seq<int>
    decreases edges.len(),
{
    if edges.len() == 0 {
        Seq::empty()
    } else if edges.last().1 == a {
        seq![edges.last().0] + in_neighbors(edges.drop_last(), a)
    } else {
        in_neighbors(edges.drop_last(), a)
    }
}

/// The walks of a graph are those of a graph that was made by adding the
/// edges `edges` in turn to `n` nodes: the successors of each node are the
/// targets of the edges that leave it, the edge added last first, and
/// likewise its predecessors.
pub open spec fn follows_edges(
    n: nat,
    edges: Seq<(int, int)>,
    successors: Seq<Seq<int>>,
    predecessors: Seq<Seq<int>>,
) -> bool {
    &&& successors.len() == n
    &&& predecessors.len() == n
    &&& forall|a: int| 0 <= a < n ==> #[trigger] successors[a] == out_neighbors(edges, a)
    &&& forall|a: int| 0 <= a < n ==> #[trigger] predecessors[a] == in_neighbors(edges, a)
}

/// Adding an edge to a graph whose walks follow its edges gives such a graph again.
pub proof fn lemma_follows_edge(
    n: nat,
    edges: Seq<(int, int)>,
    successors: Seq<Seq<int>>,
    predecessors: Seq<Seq<int>>,
    a: int,
    b: int,
)
    requires
        follows_edges(n, edges, successors, predecessors),
        0 <= a < n,
        0 <= b < n,
    ensures
        follows_edges(
            n,
            edges.push((a, b)),
            successors.update(a, seq![b] + successors[a]),
            predecessors.update(b, seq![a] + predecessors[b]),
        ),
{
    let longer = edges.push((a, b));
    assert(longer.drop_last() =~= edges);
    assert(longer.last() == (a, b));
}

/// Edges over nodes `0..n` form a dependency forest: every edge leads from a
/// lower to a higher node, and the targets strictly decrease along the list, so
/// that no node is entered twice.
pub open spec fn is_forest(n: nat, edges: Seq<(int, int)>) -> bool {
    &&& forall|i: int| 0 <= i < edges.len() ==> 0 <= (#[trigger] edges[i]).0 < edges[i].1 < n
    &&& forall|i: int, j: int|
        0 <= i < j < edges.len() ==> (#[trigger] edges[i]).1 > (#[trigger] edges[j]).1
}

/// The node from which `v` is entered, if any.
pub open spec fn parent_of(edges: Seq<(int, int)>, v: int) -> Option<int> {
    let sources = in_neighbors(edges, v);
    if sources.len() == 0 {
        None
    } else {
        Some(sources.last())
    }
}

/// The number of edges between `v` and the root of its tree.
pub open spec fn depth(edges: Seq<(int, int)>, v: int) -> nat
    decreases v,
{
    match parent_of(edges, v) {
        Some(p) => if 0 <= p < v {
            depth(edges, p) + 1
        } else {
            0
        },
        None => 0,
    }
}

/// The root of the tree that holds `v`.
pub open spec fn root_of(edges: Seq<(int, int)>, v: int) -> int
    decreases v,
{
    match parent_of(edges, v) {
        Some(p) => if 0 <= p < v {
            root_of(edges, p)
        } else {
            v
        },
        None => v,
    }
}

/// The children of each node of `row` in turn, one list after the other.
pub open spec fn expand(edges: Seq<(int, int)>, row: Seq<int>) -> Seq<int>
    decreases row.len(),
{
    if row.len() == 0 {
        Seq::empty()
    } else {
        expand(edges, row.drop_last()) + out_neighbors(edges, row.last())
    }
}

/// The nodes `k` edges below `root`, in breadth-first order.
pub open spec fn rows(edges: Seq<(int, int)>, root: int, k: nat) -> Seq<int>
    decreases k,
{
    if k == 0 {
        seq![root]
    } else {
        expand(edges, rows(edges, root, (k - 1) as nat))
    }
}

pub proof fn lemma_forest_drop_last(n: nat, edges: Seq<(int, int)>)
    requires
        is_forest(n, edges),
        edges.len() > 0,
    ensures
        is_forest(n, edges.drop_last()),
{
    let shorter = edges.drop_last();
    assert forall|i: int| 0 <= i < shorter.len() implies 0 <= (#[trigger] shorter[i]).0
        < shorter[i].1 < n by {
        assert(shorter[i] == edges[i]);
    }
    assert forall|i: int, j: int| 0 <= i < j < shorter.len() implies (#[trigger] shorter[i]).1 > (
    #[trigger] shorter[j]).1 by {
        assert(shorter[i] == edges[i]);
        assert(shorter[j] == edges[j]);
    }
}

/// A node that no edge enters has no parent.
pub proof fn lemma_in_none(edges: Seq<(int, int)>, v: int)
    requires
        forall|i: int| 0 <= i < edges.len() ==> (#[trigger] edges[i]).1 != v,
    ensures
        in_neighbors(edges, v).len() == 0,
    decreases edges.len(),
{
    if edges.len() > 0 {
        let shorter = edges.drop_last();
        assert forall|i: int| 0 <= i < shorter.len() implies (#[trigger] shorter[i]).1 != v by {
            assert(shorter[i] == edges[i]);
        }
        lemma_in_none(shorter, v);
    }
}

/// In a forest, the one edge that enters a node gives its parent.
pub proof fn lemma_in_some(n: nat, edges: Seq<(int, int)>, v: int, i: int)
    requires
        is_forest(n, edges),
        0 <= i < edges.len(),
        edges[i].1 == v,
    ensures
        in_neighbors(edges, v) == seq![edges[i].0],
        parent_of(edges, v) == Some(edges[i].0),
    decreases edges.len(),
{
    let shorter = edges.drop_last();
    if i == edges.len() - 1 {
        assert forall|j: int| 0 <= j < shorter.len() implies (#[trigger] shorter[j]).1 != v by {
            assert(shorter[j] == edges[j]);
        }
        lemma_in_none(shorter, v);
        assert(in_neighbors(edges, v) =~= seq![edges[i].0]);
    } else {
        lemma_forest_drop_last(n, edges);
        assert(shorter[i] == edges[i]);
        lemma_in_some(n, shorter, v, i);
        assert(edges.last() == edges[edges.len() - 1]);
    }
}

/// A node's parent, where it has one, is joined to it by an edge.
pub proof fn lemma_parent_edge(edges: Seq<(int, int)>, v: int) -> (i: int)
    requires
        in_neighbors(edges, v).len() > 0,
    ensures
        0 <= i < edges.len(),
        edges[i].1 == v,
    decreases edges.len(),
{
    if edges.last().1 == v {
        edges.len() - 1
    } else {
        let i = lemma_parent_edge(edges.drop_last(), v);
        assert(edges.drop_last()[i] == edges[i]);
        i
    }
}

/// The children of `a` are exactly the targets of the edges that leave it.
pub proof fn lemma_out_member(edges: Seq<(int, int)>, a: int, c: int)
    ensures
        out_neighbors(edges, a).contains(c) <==> exists|i: int|
            0 <= i < edges.len() && #[trigger] edges[i] == (a, c),
    decreases edges.len(),
{
    if edges.len() > 0 {
        let shorter = edges.drop_last();
        lemma_out_member(shorter, a, c);
        let rest = out_neighbors(shorter, a);
        if out_neighbors(edges, a).contains(c) {
            let k = choose|k: int|
                0 <= k < out_neighbors(edges, a).len() && out_neighbors(edges, a)[k] == c;
            if edges.last().0 == a && k == 0 {
                assert(edges[edges.len() - 1] == (a, c));
            } else {
                if edges.last().0 == a {
                    assert(rest[k - 1] == c);
                } else {
                    assert(rest[k] == c);
                }
                assert(rest.contains(c));
                let i = choose|i: int| 0 <= i < shorter.len() && #[trigger] shorter[i] == (a, c);
                assert(edges[i] == (a, c));
            }
        }
        if exists|i: int| 0 <= i < edges.len() && #[trigger] edges[i] == (a, c) {
            let i = choose|i: int| 0 <= i < edges.len() && #[trigger] edges[i] == (a, c);
            if i == edges.len() - 1 {
                assert(out_neighbors(edges, a)[0] == c);
            } else {
                assert(shorter[i] == (a, c));
                assert(rest.contains(c));
                let k = choose|k: int| 0 <= k < rest.len() && rest[k] == c;
                if edges.last().0 == a {
                    assert(out_neighbors(edges, a)[k + 1] == c);
                } else {
                    assert(out_neighbors(edges, a)[k] == c);
                }
            }
        }
    }
}

/// In a forest no node is listed twice among the children of another.
pub proof fn lemma_out_no_duplicates(n: nat, edges: Seq<(int, int)>, a: int)
    requires
        is_forest(n, edges),
    ensures
        out_neighbors(edges, a).no_duplicates(),
    decreases edges.len(),
{
    if edges.len() > 0 {
        let shorter = edges.drop_last();
        lemma_forest_drop_last(n, edges);
        lemma_out_no_duplicates(n, shorter, a);
        if edges.last().0 == a {
            let c = edges.last().1;
            lemma_out_member(shorter, a, c);
            if out_neighbors(shorter, a).contains(c) {
                let i = choose|i: int| 0 <= i < shorter.len() && #[trigger] shorter[i] == (a, c);
                assert(edges[i] == (a, c));
                assert(edges[edges.len() - 1].1 == c);
                assert(false);
            }
            let rest = out_neighbors(shorter, a);
            let all = out_neighbors(edges, a);
            assert forall|i: int, j: int| 0 <= i < all.len() && 0 <= j < all.len() && i != j implies all[i]
                != all[j] by {
                if i > 0 {
                    assert(all[i] == rest[i - 1]);
                    assert(rest.contains(all[i]));
                }
                if j > 0 {
                    assert(all[j] == rest[j - 1]);
                    assert(rest.contains(all[j]));
                }
            }
        }
    }
}

/// In a forest, `c` is a child of `a` exactly when `a` is the parent of `c`;
/// a child lies one edge deeper than its parent, in the same tree.
pub proof fn lemma_child_parent(n: nat, edges: Seq<(int, int)>, a: int, c: int)
    requires
        is_forest(n, edges),
    ensures
        out_neighbors(edges, a).contains(c) <==> parent_of(edges, c) == Some(a),
        out_neighbors(edges, a).contains(c) ==> 0 <= a < c < n && depth(edges, c) == depth(edges, a)
            + 1 && root_of(edges, c) == root_of(edges, a),
{
    lemma_out_member(edges, a, c);
    if out_neighbors(edges, a).contains(c) {
        let i = choose|i: int| 0 <= i < edges.len() && #[trigger] edges[i] == (a, c);
        lemma_in_some(n, edges, c, i);
    }
    if parent_of(edges, c) == Some(a) {
        let i = lemma_parent_edge(edges, c);
        lemma_in_some(n, edges, c, i);
        assert(edges[i] == (a, c));
    }
}

/// A node is among the children of a row exactly when it is a child of one of the row's nodes.
pub proof fn lemma_expand_member(edges: Seq<(int, int)>, row: Seq<int>, c: int)
    ensures
        expand(edges, row).contains(c) <==> exists|t: int|
            0 <= t < row.len() && out_neighbors(edges, #[trigger] row[t]).contains(c),
    decreases row.len(),
{
    if row.len() > 0 {
        let shorter = row.drop_last();
        let head = expand(edges, shorter);
        let tail = out_neighbors(edges, row.last());
        lemma_expand_member(edges, shorter, c);
        if (head + tail).contains(c) {
            let k = choose|k: int| 0 <= k < (head + tail).len() && (head + tail)[k] == c;
            if k < head.len() {
                assert(head[k] == c);
                assert(head.contains(c));
                let t = choose|t: int|
                    0 <= t < shorter.len() && out_neighbors(edges, #[trigger] shorter[t]).contains(
                        c,
                    );
                assert(shorter[t] == row[t]);
            } else {
                assert(tail[k - head.len()] == c);
                assert(tail.contains(c));
                assert(row[row.len() - 1] == row.last());
            }
        }
        if exists|t: int|
            0 <= t < row.len() && out_neighbors(edges, #[trigger] row[t]).contains(c) {
            let t = choose|t: int|
                0 <= t < row.len() && out_neighbors(edges, #[trigger] row[t]).contains(c);
            if t == row.len() - 1 {
                let k = choose|k: int| 0 <= k < tail.len() && tail[k] == c;
                assert((head + tail)[head.len() + k] == c);
            } else {
                assert(shorter[t] == row[t]);
                let k = choose|k: int| 0 <= k < head.len() && head[k] == c;
                assert((head + tail)[k] == c);
            }
        }
    }
}

/// The children of a duplicate-free row of depth `d` in the tree of `r` are
/// duplicate-free, of depth `d + 1`, and in the same tree.
pub proof fn lemma_expand_facts(n: nat, edges: Seq<(int, int)>, row: Seq<int>, d: nat, r: int)
    requires
        is_forest(n, edges),
        row.no_duplicates(),
        forall|t: int|
            0 <= t < row.len() ==> depth(edges, #[trigger] row[t]) == d && root_of(edges, row[t])
                == r,
    ensures
        expand(edges, row).no_duplicates(),
        forall|t: int|
            0 <= t < expand(edges, row).len() ==> {
                let c = #[trigger] expand(edges, row)[t];
                0 <= c < n && depth(edges, c) == d + 1 && root_of(edges, c) == r
            },
    decreases row.len(),
{
    if row.len() > 0 {
        let shorter = row.drop_last();
        let head = expand(edges, shorter);
        let tail = out_neighbors(edges, row.last());
        assert forall|t: int| 0 <= t < shorter.len() implies depth(edges, #[trigger] shorter[t])
            == d && root_of(edges, shorter[t]) == r by {
            assert(shorter[t] == row[t]);
        }
        lemma_expand_facts(n, edges, shorter, d, r);
        lemma_out_no_duplicates(n, edges, row.last());
        assert(row[row.len() - 1] == row.last());
        assert forall|i: int, j: int| 0 <= i < head.len() && 0 <= j < tail.len() implies head[i]
            != tail[j] by {
            if head[i] == tail[j] {
                let c = head[i];
                assert(head.contains(c));
                assert(tail.contains(c));
                lemma_expand_member(edges, shorter, c);
                let t = choose|t: int|
                    0 <= t < shorter.len() && out_neighbors(edges, #[trigger] shorter[t]).contains(
                        c,
                    );
                lemma_child_parent(n, edges, shorter[t], c);
                lemma_child_parent(n, edges, row.last(), c);
                assert(shorter[t] == row[t]);
            }
        }
        vstd::seq_lib::lemma_no_dup_in_concat(head, tail);
        assert forall|t: int| 0 <= t < (head + tail).len() implies {
            let c = #[trigger] (head + tail)[t];
            0 <= c < n && depth(edges, c) == d + 1 && root_of(edges, c) == r
        } by {
            if t < head.len() {
                assert((head + tail)[t] == head[t]);
            } else {
                let c = tail[t - head.len()];
                assert(tail.contains(c));
                lemma_child_parent(n, edges, row.last(), c);
            }
        }
    }
}

/// Row `k` below a root holds no node twice, and each of its nodes lies at
/// depth `k` in the root's tree.
pub proof fn lemma_rows_facts(n: nat, edges: Seq<(int, int)>, root: int, k: nat)
    requires
        is_forest(n, edges),
        0 <= root < n,
        parent_of(edges, root) is None,
    ensures
        rows(edges, root, k).no_duplicates(),
        forall|t: int|
            0 <= t < rows(edges, root, k).len() ==> {
                let v = #[trigger] rows(edges, root, k)[t];
                0 <= v < n && depth(edges, v) == k && root_of(edges, v) == root
            },
    decreases k,
{
    if k > 0 {
        lemma_rows_facts(n, edges, root, (k - 1) as nat);
        lemma_expand_facts(n, edges, rows(edges, root, (k - 1) as nat), (k - 1) as nat, root);
    }
}

/// The root of a node's tree has no parent and does not come after the node;
/// the node's depth is no more than its index.
pub proof fn lemma_root_of(n: nat, edges: Seq<(int, int)>, v: int)
    requires
        is_forest(n, edges),
        0 <= v < n,
    ensures
        0 <= root_of(edges, v) <= v,
        parent_of(edges, root_of(edges, v)) is None,
        depth(edges, v) <= v,
    decreases v,
{
    if parent_of(edges, v) is Some {
        let i = lemma_parent_edge(edges, v);
        lemma_in_some(n, edges, v, i);
        lemma_root_of(n, edges, edges[i].0);
    }
}

/// Every node stands in the row of its depth below the root of its tree.
pub proof fn lemma_rows_complete(n: nat, edges: Seq<(int, int)>, v: int)
    requires
        is_forest(n, edges),
        0 <= v < n,
    ensures
        rows(edges, root_of(edges, v), depth(edges, v)).contains(v),
    decreases v,
{
    let root = root_of(edges, v);
    if parent_of(edges, v) is Some {
        let i = lemma_parent_edge(edges, v);
        lemma_in_some(n, edges, v, i);
        let p = edges[i].0;
        lemma_rows_complete(n, edges, p);
        let above = rows(edges, root, depth(edges, p));
        let t = choose|t: int| 0 <= t < above.len() && above[t] == p;
        lemma_child_parent(n, edges, p, v);
        lemma_expand_member(edges, above, v);
        assert(out_neighbors(edges, above[t]).contains(v));
    } else {
        assert(rows(edges, root, 0)[0] == v);
    }
}

/// Once a row is empty, so is every later one.
pub proof fn lemma_rows_stay_empty(edges: Seq<(int, int)>, root: int, k: nat, later: nat)
    requires
        rows(edges, root, k).len() == 0,
        k <= later,
    ensures
        rows(edges, root, later).len() == 0,
    decreases later,
{
    if later > k {
        lemma_rows_stay_empty(edges, root, k, (later - 1) as nat);
    }
}

/// `roots` names each node that no edge enters, once.
pub open spec fn is_root_list(n: nat, edges: Seq<(int, int)>, roots: Seq<usize>) -> bool {
    &&& roots.no_duplicates()
    &&& forall|v: usize| #[trigger]
        roots.contains(v) <==> v < n && parent_of(edges, v as int) is None
}

/// Every transaction of a batch stands in exactly one row of exactly one
/// tree, and there once: in the row of its depth below the root of its tree.
pub proof fn lemma_exactly_one_row(n: nat, edges: Seq<(int, int)>, roots: Seq<usize>, v: int)
    requires
        is_forest(n, edges),
        is_root_list(n, edges, roots),
        0 <= v < n <= usize::MAX,
    ensures
        roots.contains(root_of(edges, v) as usize),
        rows(edges, root_of(edges, v), depth(edges, v)).contains(v),
        forall|root: usize, k: nat|
            roots.contains(root) && #[trigger] rows(edges, root as int, k).contains(v) ==> root
                == root_of(edges, v) && k == depth(edges, v),
        forall|root: usize, k: nat|
            roots.contains(root) ==> (#[trigger] rows(edges, root as int, k)).no_duplicates(),
{
    lemma_root_of(n, edges, v);
    lemma_rows_complete(n, edges, v);
    assert(roots.contains(root_of(edges, v) as usize));
    assert forall|root: usize, k: nat|
        roots.contains(root) && #[trigger] rows(edges, root as int, k).contains(v) implies root
        == root_of(edges, v) && k == depth(edges, v) by {
        lemma_rows_facts(n, edges, root as int, k);
        let row = rows(edges, root as int, k);
        let t = choose|t: int| 0 <= t < row.len() && row[t] == v;
        assert(depth(edges, row[t]) == k);
    }
    assert forall|root: usize, k: nat| roots.contains(root) implies (#[trigger] rows(
        edges,
        root as int,
        k,
    )).no_duplicates() by {
        lemma_rows_facts(n, edges, root as int, k);
    }
}

/// The transactions of the first `k` rows of the tree of `root`, row after row.
pub open spec fn listing(edges: Seq<(int, int)>, root: int, k: nat) -> Seq<int>
    decreases k,
{
    if k == 0 {
        Seq::empty()
    } else {
        listing(edges, root, (k - 1) as nat) + rows(edges, root, (k - 1) as nat)
    }
}

/// Rows from an empty one on add nothing to the listing of a tree.
pub proof fn lemma_listing_ends(edges: Seq<(int, int)>, root: int, k: nat, later: nat)
    requires
        rows(edges, root, k).len() == 0,
        k <= later,
    ensures
        listing(edges, root, later) == listing(edges, root, k),
    decreases later,
{
    if later > k {
        lemma_listing_ends(edges, root, k, (later - 1) as nat);
        lemma_rows_stay_empty(edges, root, k, (later - 1) as nat);
        assert(listing(edges, root, later) =~= listing(edges, root, (later - 1) as nat));
    }
}

} // verus!
