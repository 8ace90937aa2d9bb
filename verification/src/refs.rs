//! Reference analysis: the accounts that a transaction writes and reads.

use crate::primitives::{
    ancestors_of, Address, AddressModel, Code, CodeModel, Param, ParamModel, Predicate,
    PredicateModel, Transaction,
};
use crate::primitives::AccountModel;
use crate::state::State;
use vstd::prelude::*;

verus! {

/// The addresses that a list holds.
pub open spec fn address_set(list: Seq<Address>) -> Set<AddressModel> {
    Set::new(|a: AddressModel| exists|i: int| 0 <= i < list.len() && (#[trigger] list[i])@ == a)
}

/// The accounts that the first `k` of `params` refer to.
pub open spec fn params_refs(params: Seq<ParamModel>, k: int) -> Set<AddressModel> {
    Set::new(
        |a: AddressModel|
            exists|t: int| 0 <= t < k && #[trigger] params[t] == ParamModel::AccountRef(a),
    )
}

/// The account that a predicate's code lives in, where it is not inline.
pub open spec fn code_refs(code: CodeModel) -> Set<AddressModel> {
    match code {
        CodeModel::AccountRef(address, _) => set![address],
        CodeModel::Inline(_) => Set::empty(),
    }
}

/// The accounts that a predicate refers to, through its parameters or its code.
pub open spec fn predicate_refs(p: PredicateModel) -> Set<AddressModel> {
    params_refs(p.params, p.params.len() as int).union(code_refs(p.code))
}

/// The accounts that the first `k` of `predicates` refer to.
pub open spec fn predicates_refs(predicates: Seq<PredicateModel>, k: int) -> Set<AddressModel> {
    Set::new(
        |a: AddressModel|
            exists|t: int| 0 <= t < k && predicate_refs(#[trigger] predicates[t]).contains(a),
    )
}

/// The accounts that the predicates of the account at `address` refer to;
/// none where the state holds no such account.
pub open spec fn account_refs(
    state: Map<AddressModel, AccountModel>,
    address: AddressModel,
) -> Set<AddressModel> {
    if state.contains_key(address) {
        predicates_refs(state[address].predicates, state[address].predicates.len() as int)
    } else {
        Set::empty()
    }
}

/// The accounts that the first `k` of `addresses` refer to through their predicates.
pub open spec fn accounts_refs(
    state: Map<AddressModel, AccountModel>,
    addresses: Seq<AddressModel>,
    k: int,
) -> Set<AddressModel> {
    Set::new(
        |a: AddressModel|
            exists|t: int| 0 <= t < k && account_refs(state, #[trigger] addresses[t]).contains(a),
    )
}

/// The accounts consulted when a mutation of `address` is validated: those its
/// own predicates refer to and those the predicates of each ancestor refer to.
/// An account that the state does not hold contributes nothing of its own; its
/// ancestors are consulted all the same.
pub open spec fn proposal_refs(
    state: Map<AddressModel, AccountModel>,
    address: AddressModel,
) -> Set<AddressModel> {
    account_refs(state, address).union(
        accounts_refs(state, ancestors_of(address), ancestors_of(address).len() as int),
    )
}

/// The accounts consulted for the first `k` proposals of a transaction.
pub open spec fn proposals_refs(
    state: Map<AddressModel, AccountModel>,
    tx: Transaction,
    k: int,
) -> Set<AddressModel> {
    Set::new(
        |a: AddressModel|
            exists|t: int|
                0 <= t < k && proposal_refs(state, (#[trigger] tx.proposals[t]).address@).contains(
                    a,
                ),
    )
}

/// The accounts that the expectations of the first `k` intents refer to.
pub open spec fn intents_refs(tx: Transaction, k: int) -> Set<AddressModel> {
    Set::new(
        |a: AddressModel|
            exists|t: int|
                0 <= t < k && predicates_refs(
                    (#[trigger] tx.intents[t]).expectations.deep_view(),
                    tx.intents[t].expectations.len() as int,
                ).contains(a),
    )
}

/// The accounts that the first `k` proposals of a transaction mutate.
pub open spec fn writes_upto(tx: Transaction, k: int) -> Set<AddressModel> {
    Set::new(
        |a: AddressModel| exists|t: int| 0 <= t < k && (#[trigger] tx.proposals[t]).address@ == a,
    )
}

/// The accounts that a transaction mutates.
pub open spec fn writes_of(tx: Transaction) -> Set<AddressModel> {
    writes_upto(tx, tx.proposals.len() as int)
}

/// The accounts that a transaction reads without mutating them.
pub open spec fn reads_of(tx: Transaction, state: Map<AddressModel, AccountModel>) -> Set<
    AddressModel,
> {
    proposals_refs(state, tx, tx.proposals.len() as int).union(
        intents_refs(tx, tx.intents.len() as int),
    ).difference(writes_of(tx))
}

/// Mathematical value of a [`TransactionRefs`].
pub struct RefsModel {
    pub reads: Set<AddressModel>,
    pub writes: Set<AddressModel>,
}

/// Whether a transaction with references `later` must see the effects of one
/// with references `earlier`: it reads or writes an account that the other writes.
pub open spec fn depends(later: RefsModel, earlier: RefsModel) -> bool {
    exists|a: AddressModel| #[trigger]
        earlier.writes.contains(a) && (later.reads.contains(a) || later.writes.contains(a))
}

proof fn lemma_address_set_push(list: Seq<Address>, x: Address)
    ensures
        address_set(list.push(x)) == address_set(list).insert(x@),
{
    let longer = list.push(x);
    assert forall|a: AddressModel| address_set(longer).contains(a) implies address_set(
        list,
    ).insert(x@).contains(a) by {
        let i = choose|i: int| 0 <= i < longer.len() && (#[trigger] longer[i])@ == a;
        if i < list.len() {
            assert(list[i]@ == a);
        }
    }
    assert forall|a: AddressModel| address_set(list).insert(x@).contains(a) implies address_set(
        longer,
    ).contains(a) by {
        if a == x@ {
            assert(longer[list.len() as int]@ == a);
        } else {
            let i = choose|i: int| 0 <= i < list.len() && (#[trigger] list[i])@ == a;
            assert(longer[i]@ == a);
        }
    }
    assert(address_set(longer) =~= address_set(list).insert(x@));
}

/// Whether `list` holds `address`.
pub fn contains_address(list: &Vec<Address>, address: &Address) -> (b: bool)
    ensures
        b == address_set(list@).contains(address@),
{
    let mut i: usize = 0;
    while i < list.len()
        invariant
            i <= list.len(),
            forall|k: int| 0 <= k < i ==> (#[trigger] list[k])@ != address@,
        decreases list.len() - i,
    {
        if list[i].same(address) {
            return true;
        }
        i += 1;
    }
    false
}

/// Whether the two lists have an address in common.
pub fn intersects(xs: &Vec<Address>, ys: &Vec<Address>) -> (b: bool)
    ensures
        b == exists|a: AddressModel| #[trigger]
            address_set(ys@).contains(a) && address_set(xs@).contains(a),
{
    let mut i: usize = 0;
    while i < xs.len()
        invariant
            i <= xs.len(),
            forall|k: int| 0 <= k < i ==> !address_set(ys@).contains((#[trigger] xs[k])@),
        decreases xs.len() - i,
    {
        if contains_address(ys, &xs[i]) {
            assert(address_set(xs@).contains(xs[i as int]@));
            return true;
        }
        i += 1;
    }
    false
}

/// Adds `address` to `reads` unless `writes` holds it.
fn note_read(address: &Address, writes: &Vec<Address>, reads: &mut Vec<Address>)
    ensures
        address_set(final(reads)@) == address_set(old(reads)@).union(
            set![address@].difference(address_set(writes@)),
        ),
{
    if !contains_address(writes, address) && !contains_address(reads, address) {
        proof {
            lemma_address_set_push(reads@, *address);
        }
        let copy = address.clone();
        proof {
            lemma_address_set_push(reads@, copy);
        }
        reads.push(copy);
    }
    assert(address_set(reads@) =~= address_set(old(reads)@).union(
        set![address@].difference(address_set(writes@)),
    ));
}

/// Adds to `reads` every account that `predicates` refer to and `writes` does not hold.
fn note_predicates(predicates: &Vec<Predicate>, writes: &Vec<Address>, reads: &mut Vec<Address>)
    ensures
        address_set(final(reads)@) == address_set(old(reads)@).union(
            predicates_refs(predicates.deep_view(), predicates.len() as int).difference(
                address_set(writes@),
            ),
        ),
{
    let ghost before = address_set(reads@);
    let ghost excluded = address_set(writes@);
    let ghost models = predicates.deep_view();
    let mut i: usize = 0;
    assert(address_set(reads@) =~= before.union(predicates_refs(models, 0).difference(excluded)));
    while i < predicates.len()
        invariant
            i <= predicates.len(),
            models == predicates.deep_view(),
            excluded == address_set(writes@),
            address_set(reads@) == before.union(
                predicates_refs(models, i as int).difference(excluded),
            ),
        decreases predicates.len() - i,
    {
        let predicate = &predicates[i];
        let ghost model = models[i as int];
        assert(model == predicate@);
        let ghost start = address_set(reads@);
        let mut k: usize = 0;
        assert(address_set(reads@) =~= start.union(params_refs(model.params, 0).difference(excluded)));
        while k < predicate.params.len()
            invariant
                k <= predicate.params.len(),
                model == predicate@,
                excluded == address_set(writes@),
                address_set(reads@) == start.union(
                    params_refs(model.params, k as int).difference(excluded),
                ),
            decreases predicate.params.len() - k,
        {
            let ghost prior = address_set(reads@);
            assert(model.params[k as int] == predicate.params[k as int]@);
            match &predicate.params[k] {
                Param::AccountRef(address) => {
                    note_read(address, writes, reads);
                    assert(params_refs(model.params, k + 1) =~= params_refs(
                        model.params,
                        k as int,
                    ).insert(address@)) by {
                        assert(model.params[k as int] == ParamModel::AccountRef(address@));
                    }
                },
                Param::Inline(_) => {
                    assert(params_refs(model.params, k + 1) =~= params_refs(
                        model.params,
                        k as int,
                    ));
                },
            }
            assert(address_set(reads@) =~= start.union(
                params_refs(model.params, k + 1).difference(excluded),
            ));
            k += 1;
        }
        match &predicate.code {
            Code::AccountRef(address, _) => {
                note_read(address, writes, reads);
            },
            Code::Inline(_) => {},
        }
        assert(address_set(reads@) =~= start.union(predicate_refs(model).difference(excluded)));
        assert(predicates_refs(models, i + 1) =~= predicates_refs(models, i as int).union(
            predicate_refs(model),
        )) by {
            assert forall|a: AddressModel| predicates_refs(models, i as int).union(
                predicate_refs(model),
            ).contains(a) implies predicates_refs(models, i + 1).contains(a) by {
                if predicate_refs(model).contains(a) {
                    assert(predicate_refs(models[i as int]).contains(a));
                } else {
                    let t = choose|t: int|
                        0 <= t < i && predicate_refs(#[trigger] models[t]).contains(a);
                    assert(predicate_refs(models[t]).contains(a));
                }
            }
        }
        assert(address_set(reads@) =~= before.union(
            predicates_refs(models, i + 1).difference(excluded),
        ));
        i += 1;
    }
}

/// Adds to `reads` what validating a mutation of `address` consults and `writes` does not hold.
fn note_proposal<S: State>(
    address: &Address,
    state: &S,
    writes: &Vec<Address>,
    reads: &mut Vec<Address>,
)
    ensures
        address_set(final(reads)@) == address_set(old(reads)@).union(
            proposal_refs(state.model(), address@).difference(address_set(writes@)),
        ),
{
    let ghost before = address_set(reads@);
    let ghost excluded = address_set(writes@);
    let ghost held = state.model();
    match state.get(address) {
        Some(account) => {
            note_predicates(&account.predicates, writes, reads);
        },
        None => {},
    }
    assert(address_set(reads@) =~= before.union(
        account_refs(held, address@).difference(excluded),
    ));
    let ghost own = address_set(reads@);
    let ancestors = address.ancestors();
    let ghost chain = ancestors_of(address@);
    let mut k: usize = 0;
    assert(ancestors.deep_view().len() == ancestors.len());
    assert(address_set(reads@) =~= own.union(
        accounts_refs(held, chain, 0).difference(excluded),
    ));
    while k < ancestors.len()
        invariant
            k <= ancestors.len(),
            ancestors.len() == chain.len(),
            ancestors.deep_view() == chain,
            held == state.model(),
            excluded == address_set(writes@),
            address_set(reads@) == own.union(
                accounts_refs(held, chain, k as int).difference(excluded),
            ),
        decreases ancestors.len() - k,
    {
        let ghost prior = address_set(reads@);
        assert(ancestors.deep_view()[k as int] == ancestors[k as int]@);
        match state.get(&ancestors[k]) {
            Some(above) => {
                note_predicates(&above.predicates, writes, reads);
            },
            None => {},
        }
        assert(address_set(reads@) =~= prior.union(
            account_refs(held, chain[k as int]).difference(excluded),
        ));
        assert(accounts_refs(held, chain, k + 1) =~= accounts_refs(
            held,
            chain,
            k as int,
        ).union(account_refs(held, chain[k as int]))) by {
            assert forall|a: AddressModel| accounts_refs(held, chain, k as int).union(
                account_refs(held, chain[k as int]),
            ).contains(a) implies accounts_refs(held, chain, k + 1).contains(a) by {
                if account_refs(held, chain[k as int]).contains(a) {
                } else {
                    let t = choose|t: int|
                        0 <= t < k && account_refs(held, #[trigger] chain[t]).contains(a);
                    assert(account_refs(held, chain[t]).contains(a));
                }
            }
        }
        assert(address_set(reads@) =~= own.union(
            accounts_refs(held, chain, k + 1).difference(excluded),
        ));
        k += 1;
    }
    assert(address_set(reads@) =~= before.union(
        proposal_refs(held, address@).difference(excluded),
    ));
}

/// The accounts that a transaction reads and writes. No account is in both:
/// one that is written counts as written only.
#[derive(Debug)]
pub struct TransactionRefs {
    reads: Vec<Address>,
    writes: Vec<Address>,
}

impl View for TransactionRefs {
    type V = RefsModel;

    closed spec fn view(&self) -> RefsModel {
        RefsModel { reads: address_set(self.reads@), writes: address_set(self.writes@) }
    }
}

impl TransactionRefs {
    /// Whether this transaction must see the effects of `other`: it reads or
    /// writes an account that `other` writes. Two transactions that only read a
    /// common account do not depend on each other.
    pub fn depends_on(&self, other: &Self) -> (b: bool)
        ensures
            b == depends(self@, other@),
    {
        let through_reads = intersects(&self.reads, &other.writes);
        let through_writes = intersects(&self.writes, &other.writes);
        proof {
            if through_reads {
                let a = choose|a: AddressModel| #[trigger]
                    address_set(other.writes@).contains(a) && address_set(self.reads@).contains(a);
                assert(other@.writes.contains(a) && self@.reads.contains(a));
            }
            if through_writes {
                let a = choose|a: AddressModel| #[trigger]
                    address_set(other.writes@).contains(a) && address_set(self.writes@).contains(
                        a,
                    );
                assert(other@.writes.contains(a) && self@.writes.contains(a));
            }
            if depends(self@, other@) {
                let a = choose|a: AddressModel| #[trigger]
                    other@.writes.contains(a) && (self@.reads.contains(a)
                        || self@.writes.contains(a));
                assert(address_set(other.writes@).contains(a));
            }
        }
        through_reads || through_writes
    }

    /// Finds the accounts that `tx` writes (those it proposes to mutate) and
    /// reads (those referred to by the predicates of each mutated account, by
    /// the predicates of each of its ancestors, whether or not `state` holds
    /// the mutated account itself, and by the expectations of the intents),
    /// the written ones left out of the reads.
    pub fn new<S: State>(tx: &Transaction, state: &S) -> (r: Self)
        ensures
            r@.writes == writes_of(*tx),
            r@.reads == reads_of(*tx, state.model()),
            r@.reads.disjoint(r@.writes),
    {
        let mut reads: Vec<Address> = Vec::new();
        let mut writes: Vec<Address> = Vec::new();
        let ghost held = state.model();

        let mut i: usize = 0;
        assert(address_set(writes@) =~= writes_upto(*tx, 0));
        while i < tx.proposals.len()
            invariant
                i <= tx.proposals.len(),
                address_set(writes@) == writes_upto(*tx, i as int),
            decreases tx.proposals.len() - i,
        {
            let copy = tx.proposals[i].address.clone();
            proof {
                lemma_address_set_push(writes@, copy);
                assert(writes_upto(*tx, i + 1) =~= writes_upto(*tx, i as int).insert(copy@)) by {
                    assert forall|a: AddressModel| writes_upto(*tx, i as int).insert(
                        copy@,
                    ).contains(a) implies writes_upto(*tx, i + 1).contains(a) by {
                        if a == copy@ {
                            assert(tx.proposals[i as int].address@ == a);
                        } else {
                            let t = choose|t: int|
                                0 <= t < i && (#[trigger] tx.proposals[t]).address@ == a;
                            assert(tx.proposals[t].address@ == a);
                        }
                    }
                }
            }
            writes.push(copy);
            i += 1;
        }
        let ghost excluded = address_set(writes@);

        let mut i: usize = 0;
        assert(address_set(reads@) =~= proposals_refs(held, *tx, 0).difference(excluded));
        while i < tx.proposals.len()
            invariant
                i <= tx.proposals.len(),
                held == state.model(),
                excluded == address_set(writes@),
                address_set(reads@) == proposals_refs(held, *tx, i as int).difference(excluded),
            decreases tx.proposals.len() - i,
        {
            let ghost prior = address_set(reads@);
            note_proposal(&tx.proposals[i].address, state, &writes, &mut reads);
            proof {
                let added = proposal_refs(held, tx.proposals[i as int].address@);
                assert(proposals_refs(held, *tx, i + 1) =~= proposals_refs(
                    held,
                    *tx,
                    i as int,
                ).union(added)) by {
                    assert forall|a: AddressModel| proposals_refs(held, *tx, i as int).union(
                        added,
                    ).contains(a) implies proposals_refs(held, *tx, i + 1).contains(a) by {
                        if added.contains(a) {
                            assert(proposal_refs(held, tx.proposals[i as int].address@).contains(
                                a,
                            ));
                        } else {
                            let t = choose|t: int|
                                0 <= t < i && proposal_refs(
                                    held,
                                    (#[trigger] tx.proposals[t]).address@,
                                ).contains(a);
                            assert(proposal_refs(held, tx.proposals[t].address@).contains(a));
                        }
                    }
                }
                assert(address_set(reads@) =~= proposals_refs(held, *tx, i + 1).difference(
                    excluded,
                ));
            }
            i += 1;
        }
        let ghost consulted = proposals_refs(held, *tx, tx.proposals.len() as int);

        let mut j: usize = 0;
        assert(address_set(reads@) =~= consulted.union(intents_refs(*tx, 0)).difference(excluded));
        while j < tx.intents.len()
            invariant
                j <= tx.intents.len(),
                excluded == address_set(writes@),
                address_set(reads@) == consulted.union(intents_refs(*tx, j as int)).difference(
                    excluded,
                ),
            decreases tx.intents.len() - j,
        {
            note_predicates(&tx.intents[j].expectations, &writes, &mut reads);
            proof {
                let expectations = tx.intents[j as int].expectations;
                let added = predicates_refs(expectations.deep_view(), expectations.len() as int);
                assert(intents_refs(*tx, j + 1) =~= intents_refs(*tx, j as int).union(added)) by {
                    assert forall|a: AddressModel| intents_refs(*tx, j as int).union(
                        added,
                    ).contains(a) implies intents_refs(*tx, j + 1).contains(a) by {
                        if added.contains(a) {
                            assert(predicates_refs(
                                tx.intents[j as int].expectations.deep_view(),
                                tx.intents[j as int].expectations.len() as int,
                            ).contains(a));
                        } else {
                            let t = choose|t: int|
                                0 <= t < j && predicates_refs(
                                    (#[trigger] tx.intents[t]).expectations.deep_view(),
                                    tx.intents[t].expectations.len() as int,
                                ).contains(a);
                            assert(predicates_refs(
                                tx.intents[t].expectations.deep_view(),
                                tx.intents[t].expectations.len() as int,
                            ).contains(a));
                        }
                    }
                }
                assert(address_set(reads@) =~= consulted.union(intents_refs(*tx, j + 1)).difference(
                    excluded,
                ));
            }
            j += 1;
        }
        TransactionRefs { reads, writes }
    }

    /// The accounts read, each once.
    pub fn reads(&self) -> (r: &Vec<Address>)
        ensures
            address_set(r@) == self@.reads,
    {
        &self.reads
    }

    /// The accounts written.
    pub fn writes(&self) -> (r: &Vec<Address>)
        ensures
            address_set(r@) == self@.writes,
    {
        &self.writes
    }
}

} // verus!
