//! What running a schedule amounts to: the mutations that each transaction
//! sees when it runs, and the results that a tree and a batch give.

use crate::dependency::{
    dependency_edges, lemma_dependency_forest, lemma_dependency_parent, lemma_independent_batch,
    lemma_nearest_conflict, nearest_conflict,
};
use crate::forest::{
    depth, is_forest, lemma_in_some, lemma_parent_edge, lemma_root_of, lemma_rows_complete,
    lemma_rows_facts, listing, parent_of, root_of, rows,
};
use crate::primitives::{AccountModel, AddressModel, Transaction};
use crate::refs::{depends, RefsModel};
use crate::state::{Overlayed, StateDiff};
use vstd::prelude::*;

verus! {

/// Mathematical value of a [`StateDiff`].
pub type DiffModel = Map<AddressModel, Option<AccountModel>>;

/// The diff that an execution contributed: that of a success, none for a failure.
pub open spec fn diff_of<E>(result: Result<StateDiff, E>) -> Option<DiffModel> {
    match result {
        Ok(diff) => Some(diff@),
        Err(_) => None,
    }
}

/// `acc` with the diffs of the row's transactions laid over it in row order.
/// `diffs` gives, by position in the batch, what each execution contributed.
pub open spec fn fold_row(acc: DiffModel, row: Seq<int>, diffs: Seq<Option<DiffModel>>) -> DiffModel
    decreases row.len(),
{
    if row.len() == 0 {
        acc
    } else {
        let before = fold_row(acc, row.drop_last(), diffs);
        match diffs[row.last()] {
            Some(diff) => before.union_prefer_right(diff),
            None => before,
        }
    }
}

/// What the rows above row `k` of the tree of `root` have accumulated.
pub open spec fn accumulated(
    edges: Seq<(int, int)>,
    root: int,
    k: nat,
    diffs: Seq<Option<DiffModel>>,
) -> DiffModel
    decreases k,
{
    if k == 0 {
        Map::empty()
    } else {
        fold_row(
            accumulated(edges, root, (k - 1) as nat, diffs),
            rows(edges, root, (k - 1) as nat),
            diffs,
        )
    }
}

/// The mutations that transaction `j` sees laid over the base state when it
/// runs: those accumulated by the rows above it in its tree.
pub open spec fn seen_by(edges: Seq<(int, int)>, diffs: Seq<Option<DiffModel>>, j: int) -> DiffModel {
    accumulated(edges, root_of(edges, j), depth(edges, j), diffs)
}

/// `result` is what `execute` returned for `tx`, run against `state` with the
/// mutations `seen` laid over it.
pub open spec fn ran<S, C, E, F: Fn(Transaction, &Overlayed<S>, &C) -> Result<StateDiff, E>>(
    execute: &F,
    tx: Transaction,
    state: &S,
    cache: &C,
    seen: DiffModel,
    result: Result<StateDiff, E>,
) -> bool {
    exists|acc: StateDiff| #[trigger]
        acc@ == seen && execute.ensures((tx, &Overlayed { base: state, diff: &acc }, cache), result)
}

/// A fold reads only the contributions of the row's own transactions.
pub proof fn lemma_fold_agree(
    acc: DiffModel,
    row: Seq<int>,
    d1: Seq<Option<DiffModel>>,
    d2: Seq<Option<DiffModel>>,
)
    requires
        forall|t: int| 0 <= t < row.len() ==> d1[#[trigger] row[t]] == d2[row[t]],
    ensures
        fold_row(acc, row, d1) == fold_row(acc, row, d2),
    decreases row.len(),
{
    if row.len() > 0 {
        assert forall|t: int| 0 <= t < row.drop_last().len() implies d1[#[trigger] row.drop_last()[t]]
            == d2[row.drop_last()[t]] by {
            assert(row.drop_last()[t] == row[t]);
        }
        lemma_fold_agree(acc, row.drop_last(), d1, d2);
        assert(row.last() == row[row.len() - 1]);
    }
}

/// What a transaction sees depends only on the transactions above it in its
/// own tree: contributions that agree there accumulate to the same mutations,
/// whatever the transactions of its own and lower rows, and of other trees, contribute.
pub proof fn lemma_accumulated_agree(
    n: nat,
    edges: Seq<(int, int)>,
    root: int,
    k: nat,
    d1: Seq<Option<DiffModel>>,
    d2: Seq<Option<DiffModel>>,
)
    requires
        is_forest(n, edges),
        0 <= root < n,
        parent_of(edges, root) is None,
        forall|v: int|
            0 <= v < n && root_of(edges, v) == root && depth(edges, v) < k ==> #[trigger] d1[v]
                == d2[v],
    ensures
        accumulated(edges, root, k, d1) == accumulated(edges, root, k, d2),
    decreases k,
{
    if k > 0 {
        lemma_accumulated_agree(n, edges, root, (k - 1) as nat, d1, d2);
        lemma_rows_facts(n, edges, root, (k - 1) as nat);
        lemma_fold_agree(
            accumulated(edges, root, (k - 1) as nat, d1),
            rows(edges, root, (k - 1) as nat),
            d1,
            d2,
        );
    }
}

/// `diffs` with the contributions of the first `t` of `results` written at their positions.
pub open spec fn with_results<E>(
    diffs: Seq<Option<DiffModel>>,
    results: Seq<(Result<StateDiff, E>, usize)>,
    t: int,
) -> Seq<Option<DiffModel>>
    decreases t,
{
    if t <= 0 {
        diffs
    } else {
        with_results(diffs, results, t - 1).update(
            results[t - 1].1 as int,
            diff_of(results[t - 1].0),
        )
    }
}

pub proof fn lemma_with_results<E>(
    diffs: Seq<Option<DiffModel>>,
    results: Seq<(Result<StateDiff, E>, usize)>,
    t: int,
)
    requires
        0 <= t <= results.len(),
        forall|i: int| 0 <= i < results.len() ==> (#[trigger] results[i]).1 < diffs.len(),
        forall|i: int, j: int|
            0 <= i < j < results.len() ==> (#[trigger] results[i]).1 != (#[trigger] results[j]).1,
    ensures
        with_results(diffs, results, t).len() == diffs.len(),
        forall|i: int|
            0 <= i < t ==> with_results(diffs, results, t)[(#[trigger] results[i]).1 as int]
                == diff_of(results[i].0),
        forall|v: int|
            0 <= v < diffs.len() && (forall|i: int| 0 <= i < t ==> (#[trigger] results[i]).1 != v)
                ==> #[trigger] with_results(diffs, results, t)[v] == diffs[v],
    decreases t,
{
    if t > 0 {
        lemma_with_results(diffs, results, t - 1);
        let last = results[t - 1];
        assert forall|i: int| 0 <= i < t implies with_results(diffs, results, t)[(
        #[trigger] results[i]).1 as int] == diff_of(results[i].0) by {
            if i < t - 1 {
                assert(results[i].1 != results[t - 1].1);
            }
        }
    }
}

/// `acc` holds the mutations of `diff`, laid over some mutations and overlaid by others.
pub open spec fn includes(acc: DiffModel, diff: DiffModel) -> bool {
    exists|under: DiffModel, over: DiffModel| #[trigger]
        under.union_prefer_right(diff).union_prefer_right(over) == acc
}

/// A fold over a row includes the diff of each transaction of the row that succeeded.
pub proof fn lemma_fold_includes(
    acc: DiffModel,
    row: Seq<int>,
    diffs: Seq<Option<DiffModel>>,
    t: int,
    diff: DiffModel,
)
    requires
        0 <= t < row.len(),
        diffs[row[t]] == Some(diff),
    ensures
        includes(fold_row(acc, row, diffs), diff),
    decreases row.len(),
{
    let before = fold_row(acc, row.drop_last(), diffs);
    let empty = Map::<AddressModel, Option<AccountModel>>::empty();
    if t == row.len() - 1 {
        assert(before.union_prefer_right(diff).union_prefer_right(empty) =~= fold_row(
            acc,
            row,
            diffs,
        ));
    } else {
        assert(row.drop_last()[t] == row[t]);
        lemma_fold_includes(acc, row.drop_last(), diffs, t, diff);
        let (under, over) = choose|under: DiffModel, over: DiffModel| #[trigger]
            under.union_prefer_right(diff).union_prefer_right(over) == before;
        match diffs[row.last()] {
            Some(later) => {
                assert(under.union_prefer_right(diff).union_prefer_right(
                    over.union_prefer_right(later),
                ) =~= fold_row(acc, row, diffs));
            },
            None => {},
        }
    }
}

/// A transaction sees the diff of the nearest earlier transaction it depends
/// on, where that one succeeded: the mutations it runs against include that
/// diff, overlaid at most by the diffs of transactions that ran after it.
pub proof fn lemma_sees_nearest_dependency(
    refs: Seq<RefsModel>,
    diffs: Seq<Option<DiffModel>>,
    i: int,
    j: int,
    diff: DiffModel,
)
    requires
        0 <= j < refs.len(),
        nearest_conflict(refs, j, j) == Some(i),
        diffs[i] == Some(diff),
    ensures
        0 <= i < j,
        depends(refs[j], refs[i]),
        includes(seen_by(dependency_edges(refs, 0), diffs, j), diff),
{
    let n = refs.len();
    let edges = dependency_edges(refs, 0);
    lemma_nearest_conflict(refs, j, j);
    lemma_dependency_forest(refs, 0);
    lemma_dependency_parent(refs, 0, j);
    lemma_rows_complete(n, edges, i);
    let root = root_of(edges, i);
    let above = rows(edges, root, depth(edges, i));
    let t = choose|t: int| 0 <= t < above.len() && above[t] == i;
    lemma_fold_includes(accumulated(edges, root, depth(edges, i), diffs), above, diffs, t, diff);
}

/// A transaction that depends on none before it runs against the base state
/// with nothing laid over it, whatever the others contribute.
pub proof fn lemma_root_sees_nothing(edges: Seq<(int, int)>, diffs: Seq<Option<DiffModel>>, j: int)
    requires
        parent_of(edges, j) is None,
    ensures
        seen_by(edges, diffs, j) == Map::<AddressModel, Option<AccountModel>>::empty(),
{
}

/// A transaction linked to one that depends on none before it sees the diff
/// of that one where it succeeded, and nothing where it failed; it sees the
/// diff of no other transaction.
pub proof fn lemma_child_of_root_sees_root(
    n: nat,
    edges: Seq<(int, int)>,
    diffs: Seq<Option<DiffModel>>,
    r: int,
    j: int,
)
    requires
        is_forest(n, edges),
        0 <= j < n,
        parent_of(edges, j) == Some(r),
        parent_of(edges, r) is None,
    ensures
        seen_by(edges, diffs, j) == match diffs[r] {
            Some(diff) => diff,
            None => Map::<AddressModel, Option<AccountModel>>::empty(),
        },
{
    let i = lemma_parent_edge(edges, j);
    lemma_in_some(n, edges, j, i);
    assert(depth(edges, r) == 0 && root_of(edges, r) == r);
    assert(depth(edges, j) == 1 && root_of(edges, j) == r);
    let first = rows(edges, r, 0);
    assert(first =~= seq![r]);
    assert(first.drop_last() =~= Seq::<int>::empty());
    assert(first.last() == r);
    let empty = Map::<AddressModel, Option<AccountModel>>::empty();
    assert(accumulated(edges, r, 0, diffs) == empty);
    assert(fold_row(empty, first.drop_last(), diffs) == empty);
    assert(accumulated(edges, r, 1, diffs) == fold_row(empty, first, diffs));
    match diffs[r] {
        Some(diff) => {
            assert(empty.union_prefer_right(diff) =~= diff);
        },
        None => {},
    }
}

/// In a batch in which no transaction depends on an earlier one, every
/// transaction runs against the base state with nothing laid over it.
pub proof fn lemma_independent_sees_nothing(
    refs: Seq<RefsModel>,
    diffs: Seq<Option<DiffModel>>,
    j: int,
)
    requires
        forall|a: int, b: int|
            0 <= a < b < refs.len() ==> !depends(#[trigger] refs[b], #[trigger] refs[a]),
    ensures
        dependency_edges(refs, 0) == Seq::<(int, int)>::empty(),
        seen_by(dependency_edges(refs, 0), diffs, j) == Map::<
            AddressModel,
            Option<AccountModel>,
        >::empty(),
{
    lemma_independent_batch(refs, 0);
}

/// Three transactions of which the first writes `a`, the second writes `b`
/// and the third reads `a` and writes `c`: the third is linked to the first
/// and the second stands alone. The first two run against the base state; the
/// third sees the diff of the first where that succeeded, and never that of
/// the second.
pub proof fn lemma_reader_follows_writer(
    refs: Seq<RefsModel>,
    diffs: Seq<Option<DiffModel>>,
    a: AddressModel,
    b: AddressModel,
    c: AddressModel,
)
    requires
        a != b,
        b != c,
        a != c,
        refs.len() == 3,
        refs[0] == (RefsModel { reads: Set::empty(), writes: set![a] }),
        refs[1] == (RefsModel { reads: Set::empty(), writes: set![b] }),
        refs[2] == (RefsModel { reads: set![a], writes: set![c] }),
    ensures
        dependency_edges(refs, 0) == seq![(0int, 2int)],
        seen_by(dependency_edges(refs, 0), diffs, 0) == Map::<
            AddressModel,
            Option<AccountModel>,
        >::empty(),
        seen_by(dependency_edges(refs, 0), diffs, 1) == Map::<
            AddressModel,
            Option<AccountModel>,
        >::empty(),
        seen_by(dependency_edges(refs, 0), diffs, 2) == match diffs[0] {
            Some(diff) => diff,
            None => Map::<AddressModel, Option<AccountModel>>::empty(),
        },
{
    let edges = dependency_edges(refs, 0);
    assert(!depends(refs[1], refs[0]));
    assert(!depends(refs[2], refs[1]));
    assert(depends(refs[2], refs[0])) by {
        assert(refs[0].writes.contains(a) && refs[2].reads.contains(a));
    }
    lemma_nearest_conflict(refs, 0, 0);
    lemma_nearest_conflict(refs, 1, 1);
    lemma_nearest_conflict(refs, 2, 2);
    assert(nearest_conflict(refs, 2, 2) == Some(0int)) by {
        assert(nearest_conflict(refs, 2, 2) == nearest_conflict(refs, 2, 1));
    }
    assert(nearest_conflict(refs, 1, 1) is None);
    assert(nearest_conflict(refs, 0, 0) is None);
    lemma_dependency_forest(refs, 0);
    lemma_dependency_parent(refs, 0, 0);
    lemma_dependency_parent(refs, 0, 1);
    lemma_dependency_parent(refs, 0, 2);
    assert(dependency_edges(refs, 3) =~= Seq::<(int, int)>::empty());
    assert(dependency_edges(refs, 2) =~= seq![(0int, 2int)]);
    assert(dependency_edges(refs, 1) == dependency_edges(refs, 2));
    assert(edges == dependency_edges(refs, 1));
    lemma_child_of_root_sees_root(3, edges, diffs, 0, 2);
}

/// What a transaction sees depends only on the transactions of higher rows
/// of its own tree. Transactions of its own row, of lower rows and of other
/// trees may run before it, after it or at the same time: it sees the same.
pub proof fn lemma_seen_by_ignores_others(
    n: nat,
    edges: Seq<(int, int)>,
    d1: Seq<Option<DiffModel>>,
    d2: Seq<Option<DiffModel>>,
    j: int,
)
    requires
        is_forest(n, edges),
        0 <= j < n,
        forall|v: int|
            0 <= v < n && root_of(edges, v) == root_of(edges, j) && depth(edges, v) < depth(
                edges,
                j,
            ) ==> #[trigger] d1[v] == d2[v],
    ensures
        seen_by(edges, d1, j) == seen_by(edges, d2, j),
{
    lemma_root_of(n, edges, j);
    lemma_accumulated_agree(n, edges, root_of(edges, j), depth(edges, j), d1, d2);
}

/// The contribution of each position of the batch that `out` holds a result
/// for; none for the positions it holds no result for.
pub open spec fn outcomes<E>(out: Seq<(Result<StateDiff, E>, usize)>, n: nat) -> Seq<
    Option<DiffModel>,
> {
    Seq::new(
        n,
        |v: int|
            if exists|t: int| 0 <= t < out.len() && (#[trigger] out[t]).1 == v {
                diff_of(out[choose|t: int| 0 <= t < out.len() && (#[trigger] out[t]).1 == v].0)
            } else {
                None
            },
    )
}

/// `out` is the outcome of running the tree of `root`: it holds one result
/// for each transaction of the tree and for no other, row after row, and each
/// result is what `execute` returned for that transaction against `state`
/// overlaid with what the rows above it accumulated. `before` holds the
/// transactions by position.
pub open spec fn tree_results<
    S,
    C,
    E,
    F: Fn(Transaction, &Overlayed<S>, &C) -> Result<StateDiff, E>,
>(
    edges: Seq<(int, int)>,
    before: Seq<Option<Transaction>>,
    root: int,
    execute: &F,
    state: &S,
    cache: &C,
    out: Seq<(Result<StateDiff, E>, usize)>,
) -> bool {
    &&& out.len() == listing(edges, root, before.len()).len()
    &&& forall|t: int|
        0 <= t < out.len() ==> {
            let v = (#[trigger] out[t]).1 as int;
            &&& v == listing(edges, root, before.len())[t]
            &&& 0 <= v < before.len()
            &&& root_of(edges, v) == root
            &&& ran(
                execute,
                before[v].unwrap(),
                state,
                cache,
                seen_by(edges, outcomes(out, before.len()), v),
                out[t].0,
            )
        }
    &&& forall|s: int, t: int|
        0 <= s < t < out.len() ==> (#[trigger] out[s]).1 != (#[trigger] out[t]).1 && depth(
            edges,
            out[s].1 as int,
        ) <= depth(edges, out[t].1 as int)
    &&& forall|v: int|
        0 <= v < before.len() && root_of(edges, v) == root ==> exists|t: int|
            0 <= t < out.len() && (#[trigger] out[t]).1 == v
}

/// `acc` with the diffs of the first `n` of `results` laid over it in turn,
/// those of the failures left out.
pub open spec fn folded<E>(
    acc: DiffModel,
    results: Seq<(Result<StateDiff, E>, usize)>,
    n: int,
) -> DiffModel
    decreases n,
{
    if n <= 0 {
        acc
    } else {
        match diff_of(results[n - 1].0) {
            Some(diff) => folded(acc, results, n - 1).union_prefer_right(diff),
            None => folded(acc, results, n - 1),
        }
    }
}

/// The contribution of each transaction of a batch, from the results by position.
pub open spec fn contributions<E>(out: Seq<Result<StateDiff, E>>) -> Seq<Option<DiffModel>> {
    Seq::new(out.len(), |j: int| diff_of(out[j]))
}

/// `out` is the outcome of running a batch laid out with the dependency
/// edges `edges`: one result per transaction, in the order of the batch, each
/// being what `execute` returned for that transaction against `state` overlaid
/// with the diffs of the successful transactions of the rows above it in its tree.
pub open spec fn batch_results<
    S,
    C,
    E,
    F: Fn(Transaction, &Overlayed<S>, &C) -> Result<StateDiff, E>,
>(
    edges: Seq<(int, int)>,
    txs: Seq<Transaction>,
    execute: &F,
    state: &S,
    cache: &C,
    out: Seq<Result<StateDiff, E>>,
) -> bool {
    &&& out.len() == txs.len()
    &&& forall|j: int|
        0 <= j < txs.len() ==> ran(
            execute,
            #[trigger] txs[j],
            state,
            cache,
            seen_by(edges, contributions(out), j),
            out[j],
        )
}

/// Whether `out` holds a result for the transaction at position `v`.
pub open spec fn has_result<E>(out: Seq<(Result<StateDiff, E>, usize)>, v: int) -> bool {
    exists|t: int| 0 <= t < out.len() && (#[trigger] out[t]).1 == v
}

/// `gathered` holds exactly one result for each of the positions `0..n`.
pub open spec fn covers_once<E>(gathered: Seq<(Result<StateDiff, E>, usize)>, n: nat) -> bool {
    &&& forall|t: int| 0 <= t < gathered.len() ==> (#[trigger] gathered[t]).1 < n
    &&& forall|s: int, t: int|
        0 <= s < t < gathered.len() ==> (#[trigger] gathered[s]).1 != (#[trigger] gathered[t]).1
    &&& forall|v: int| 0 <= v < n ==> #[trigger] has_result(gathered, v)
}

} // verus!
