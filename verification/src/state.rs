//! Account state as the scheduler reads it: a store, a diff of account
//! mutations, and a store seen through a diff.

use crate::primitives::{Account, AccountModel, Address, AddressModel};
use vstd::prelude::*;

verus! {

/// A readable account store.
pub trait State {
    /// The accounts held, by address.
    spec fn model(&self) -> Map<AddressModel, AccountModel>;

    /// The account stored at `address`, if there is one.
    fn get(&self, address: &Address) -> (r: Option<Account>)
        ensures
            r.is_some() == self.model().contains_key(address@),
            r.is_some() ==> r.unwrap()@ == self.model()[address@],
    ;
}

/// Mathematical value of one recorded mutation: the new account, or `None` for a deletion.
pub open spec fn change_model(change: Option<Account>) -> Option<AccountModel> {
    match change {
        Some(account) => Some(account@),
        None => None,
    }
}

/// The mutations that a log of writes amounts to: for each address the last one recorded.
pub open spec fn log_model(log: Seq<(Address, Option<Account>)>) -> Map<
    AddressModel,
    Option<AccountModel>,
>
    decreases log.len(),
{
    if log.len() == 0 {
        Map::empty()
    } else {
        log_model(log.drop_last()).insert(log.last().0@, change_model(log.last().1))
    }
}

/// What a store holds once the mutations of `diff` are laid over `base`.
pub open spec fn overlay(
    base: Map<AddressModel, AccountModel>,
    diff: Map<AddressModel, Option<AccountModel>>,
) -> Map<AddressModel, AccountModel> {
    Map::new(
        |a: AddressModel|
            if diff.contains_key(a) {
                diff[a].is_some()
            } else {
                base.contains_key(a)
            },
        |a: AddressModel|
            if diff.contains_key(a) {
                diff[a].unwrap()
            } else {
                base[a]
            },
    )
}

/// A log that ends with `entry` maps its address to its change and is otherwise as before.
pub proof fn lemma_log_push(log: Seq<(Address, Option<Account>)>, entry: (Address, Option<Account>))
    ensures
        log_model(log.push(entry)) == log_model(log).insert(entry.0@, change_model(entry.1)),
{
    assert(log.push(entry).drop_last() =~= log);
}

/// An address that no entry of the log names is not in its model; one that an
/// entry names, with no later entry naming it, has that entry's change.
pub proof fn lemma_log_lookup(log: Seq<(Address, Option<Account>)>, a: AddressModel, from: int)
    requires
        0 <= from <= log.len(),
        forall|k: int| from <= k < log.len() ==> (#[trigger] log[k]).0@ != a,
    ensures
        from == 0 ==> !log_model(log).contains_key(a),
        from > 0 && log[from - 1].0@ == a ==> log_model(log).contains_key(a) && log_model(log)[a]
            == change_model(log[from - 1].1),
    decreases log.len(),
{
    if log.len() > 0 {
        if from == log.len() {
            if from > 0 && log[from - 1].0@ == a {
            }
        } else {
            lemma_log_lookup(log.drop_last(), a, from);
        }
        if from == 0 {
            lemma_log_lookup(log.drop_last(), a, 0);
        }
    }
}

/// An accumulable set of account mutations. A later mutation of an address replaces an earlier one.
#[derive(Debug)]
pub struct StateDiff {
    log: Vec<(Address, Option<Account>)>,
}

impl View for StateDiff {
    type V = Map<AddressModel, Option<AccountModel>>;

    closed spec fn view(&self) -> Map<AddressModel, Option<AccountModel>> {
        log_model(self.log@)
    }
}

impl StateDiff {
    /// The diff that changes nothing.
    pub fn new() -> (r: StateDiff)
        ensures
            r@ == Map::<AddressModel, Option<AccountModel>>::empty(),
    {
        StateDiff { log: Vec::new() }
    }

    /// Records that `address` now holds `account`.
    pub fn set(&mut self, address: Address, account: Account)
        ensures
            final(self)@ == old(self)@.insert(address@, Some(account@)),
    {
        proof {
            lemma_log_push(self.log@, (address, Some(account)));
        }
        self.log.push((address, Some(account)));
    }

    /// Records that the account at `address` is deleted.
    pub fn remove(&mut self, address: Address)
        ensures
            final(self)@ == old(self)@.insert(address@, None),
    {
        proof {
            lemma_log_push(self.log@, (address, None));
        }
        self.log.push((address, None));
    }

    /// The mutation recorded for `address`: `None` where the diff leaves it alone,
    /// `Some(None)` where it deletes the account, `Some(Some(_))` where it sets it.
    pub fn change(&self, address: &Address) -> (r: Option<Option<Account>>)
        ensures
            r.is_some() == self@.contains_key(address@),
            r.is_some() ==> change_model(r.unwrap()) == self@[address@],
    {
        let mut i: usize = self.log.len();
        while i > 0
            invariant
                i <= self.log.len(),
                forall|k: int| i <= k < self.log.len() ==> (#[trigger] self.log[k]).0@ != address@,
            decreases i,
        {
            if self.log[i - 1].0.same(address) {
                proof {
                    lemma_log_lookup(self.log@, address@, i as int);
                }
                let found = match &self.log[i - 1].1 {
                    Some(account) => Some(account.clone()),
                    None => None,
                };
                return Some(found);
            }
            i -= 1;
        }
        proof {
            lemma_log_lookup(self.log@, address@, 0);
        }
        None
    }

    /// Lays `other` on top of this diff: where both mutate an address, `other` wins.
    pub fn apply(&mut self, other: &StateDiff)
        ensures
            final(self)@ == old(self)@.union_prefer_right(other@),
    {
        let mut i: usize = 0;
        assert(other.log@.take(0) =~= Seq::empty());
        assert(self@ =~= self@.union_prefer_right(log_model(other.log@.take(0))));
        while i < other.log.len()
            invariant
                i <= other.log.len(),
                self@ == old(self)@.union_prefer_right(log_model(other.log@.take(i as int))),
            decreases other.log.len() - i,
        {
            let address = other.log[i].0.clone();
            let change = match &other.log[i].1 {
                Some(account) => Some(account.clone()),
                None => None,
            };
            proof {
                let prefix = other.log@.take(i as int);
                let entry = other.log@[i as int];
                assert(other.log@.take(i + 1) =~= prefix.push(entry));
                lemma_log_push(prefix, entry);
                lemma_log_push(self.log@, (address, change));
                assert(self@.insert(entry.0@, change_model(entry.1)) =~= old(
                    self,
                )@.union_prefer_right(log_model(prefix.push(entry))));
            }
            self.log.push((address, change));
            i += 1;
        }
        assert(other.log@.take(other.log.len() as int) =~= other.log@);
    }
}

impl State for StateDiff {
    open spec fn model(&self) -> Map<AddressModel, AccountModel> {
        overlay(Map::empty(), self@)
    }

    fn get(&self, address: &Address) -> (r: Option<Account>) {
        match self.change(address) {
            Some(Some(account)) => Some(account),
            _ => None,
        }
    }
}

/// A store read through the mutations accumulated so far in a batch.
pub struct Overlayed<'a, S> {
    pub base: &'a S,
    pub diff: &'a StateDiff,
}

impl<'a, S: State> Overlayed<'a, S> {
    /// `base` as it reads once `diff` is laid over it.
    pub fn new(base: &'a S, diff: &'a StateDiff) -> (r: Overlayed<'a, S>)
        ensures
            r.base == base,
            r.diff == diff,
    {
        Overlayed { base, diff }
    }
}

impl<'a, S: State> State for Overlayed<'a, S> {
    open spec fn model(&self) -> Map<AddressModel, AccountModel> {
        overlay(self.base.model(), self.diff@)
    }

    fn get(&self, address: &Address) -> (r: Option<Account>) {
        match self.diff.change(address) {
            Some(change) => change,
            None => self.base.get(address),
        }
    }
}

/// Two diffs that mutate no common address can be laid over a third in either order.
pub proof fn lemma_apply_commutes(
    acc: Map<AddressModel, Option<AccountModel>>,
    d1: Map<AddressModel, Option<AccountModel>>,
    d2: Map<AddressModel, Option<AccountModel>>,
)
    requires
        d1.dom().disjoint(d2.dom()),
    ensures
        acc.union_prefer_right(d1).union_prefer_right(d2) == acc.union_prefer_right(
            d2,
        ).union_prefer_right(d1),
{
    assert(acc.union_prefer_right(d1).union_prefer_right(d2) =~= acc.union_prefer_right(
        d2,
    ).union_prefer_right(d1));
}

} // verus!
