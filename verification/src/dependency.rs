//! The dependencies among the transactions of a batch: which transaction
//! each is linked to, and the forest that the links form.

use crate::forest::{is_forest, lemma_in_none, lemma_in_some, parent_of};
use crate::primitives::{AccountModel, AddressModel, Transaction};
use crate::refs::{depends, reads_of, writes_of, RefsModel};
use vstd::prelude::*;

verus! {

/// The references of each transaction of a batch, read against `state`.
pub open spec fn refs_of(txs: Seq<Transaction>, state: Map<AddressModel, AccountModel>) -> Seq<
    RefsModel,
> {
    Seq::new(
        txs.len(),
        |i: int| RefsModel { reads: reads_of(txs[i], state), writes: writes_of(txs[i]) },
    )
}

/// The nearest transaction before `below` on which transaction `j` depends.
pub open spec fn nearest_conflict(refs: Seq<RefsModel>, j: int, below: int) -> Option<int>
    decreases below,
{
    if below <= 0 {
        None
    } else if depends(refs[j], refs[below - 1]) {
        Some(below - 1)
    } else {
        nearest_conflict(refs, j, below - 1)
    }
}

/// The dependency edges that enter the transactions from `from` on: for each
/// of them that depends on an earlier one, a single edge from the nearest such
/// transaction. They are listed by target, the last transaction first.
pub open spec fn dependency_edges(refs: Seq<RefsModel>, from: int) -> Seq<(int, int)>
    decreases refs.len() - from,
{
    if from >= refs.len() {
        Seq::empty()
    } else {
        match nearest_conflict(refs, from, from) {
            Some(k) => dependency_edges(refs, from + 1).push((k, from)),
            None => dependency_edges(refs, from + 1),
        }
    }
}

/// The nearest conflict of a transaction, if any, comes before it.
pub proof fn lemma_nearest_conflict(refs: Seq<RefsModel>, j: int, below: int)
    ensures
        match nearest_conflict(refs, j, below) {
            Some(k) => 0 <= k < below && depends(refs[j], refs[k]) && forall|m: int|
                k < m < below ==> !depends(refs[j], #[trigger] refs[m]),
            None => forall|m: int| 0 <= m < below ==> !depends(refs[j], #[trigger] refs[m]),
        },
    decreases below,
{
    if below > 0 && !depends(refs[j], refs[below - 1]) {
        lemma_nearest_conflict(refs, j, below - 1);
    }
}

/// The dependency edges of a batch form a forest.
pub proof fn lemma_dependency_forest(refs: Seq<RefsModel>, from: int)
    requires
        0 <= from,
    ensures
        is_forest(refs.len(), dependency_edges(refs, from)),
        dependency_edges(refs, from).len() <= refs.len() - from || from >= refs.len(),
        forall|i: int|
            0 <= i < dependency_edges(refs, from).len() ==> from <= (#[trigger] dependency_edges(
                refs,
                from,
            )[i]).1,
    decreases refs.len() - from,
{
    if from < refs.len() {
        lemma_dependency_forest(refs, from + 1);
        lemma_nearest_conflict(refs, from, from);
    }
}

/// A node's parent in the dependency forest is the nearest transaction it depends on.
pub proof fn lemma_dependency_parent(refs: Seq<RefsModel>, from: int, j: int)
    requires
        0 <= from <= j < refs.len(),
    ensures
        parent_of(dependency_edges(refs, from), j) == nearest_conflict(refs, j, j),
    decreases refs.len() - from,
{
    let edges = dependency_edges(refs, from);
    lemma_dependency_forest(refs, from);
    lemma_dependency_forest(refs, from + 1);
    let later = dependency_edges(refs, from + 1);
    if from == j {
        assert forall|i: int| 0 <= i < later.len() implies (#[trigger] later[i]).1 != j by {}
        match nearest_conflict(refs, from, from) {
            Some(k) => {
                lemma_in_some(refs.len(), edges, j, edges.len() - 1);
            },
            None => {
                lemma_in_none(edges, j);
            },
        }
    } else {
        lemma_dependency_parent(refs, from + 1, j);
        match nearest_conflict(refs, from, from) {
            Some(k) => {
                assert(edges.drop_last() =~= later);
            },
            None => {},
        }
    }
}

/// A batch in which no transaction depends on an earlier one has no dependency edge.
pub proof fn lemma_independent_batch(refs: Seq<RefsModel>, from: int)
    requires
        0 <= from,
        forall|i: int, j: int|
            0 <= i < j < refs.len() ==> !depends(#[trigger] refs[j], #[trigger] refs[i]),
    ensures
        dependency_edges(refs, from) == Seq::<(int, int)>::empty(),
    decreases refs.len() - from,
{
    if from < refs.len() {
        lemma_independent_batch(refs, from + 1);
        lemma_nearest_conflict(refs, from, from);
        if nearest_conflict(refs, from, from) is Some {
            let k = nearest_conflict(refs, from, from).unwrap();
            assert(!depends(refs[from], refs[k]));
        }
    }
}

} // verus!
