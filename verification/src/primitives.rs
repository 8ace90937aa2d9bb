//! Accounts, predicates and transactions as the scheduler sees them.

use vstd::prelude::*;

verus! {

/// Mathematical value of an [`Address`]: its path segments, outermost first.
pub type AddressModel = Seq<Seq<char>>;

/// Hierarchical account address, one string per path segment.
#[derive(Debug)]
pub struct Address {
    pub segments: Vec<String>,
}

impl DeepView for Address {
    type V = AddressModel;

    open spec fn deep_view(&self) -> AddressModel {
        self.segments.deep_view()
    }
}

impl View for Address {
    type V = AddressModel;

    open spec fn view(&self) -> AddressModel {
        self.deep_view()
    }
}

impl Clone for Address {
    fn clone(&self) -> (r: Self)
        ensures
            r@ == self@,
    {
        let mut segments: Vec<String> = Vec::new();
        let mut i: usize = 0;
        while i < self.segments.len()
            invariant
                i <= self.segments.len(),
                segments.len() == i,
                forall|k: int| 0 <= k < i ==> segments[k]@ == self.segments[k]@,
            decreases self.segments.len() - i,
        {
            segments.push(self.segments[i].clone());
            i += 1;
        }
        let r = Address { segments };
        assert(r@ =~= self@);
        r
    }
}

impl Address {
    /// Builds an address from its path segments.
    pub fn new(segments: Vec<String>) -> (r: Address)
        ensures
            r@ == segments.deep_view(),
    {
        Address { segments }
    }

    /// Whether two addresses name the same account.
    pub fn same(&self, other: &Address) -> (b: bool)
        ensures
            b == (self@ == other@),
    {
        if self.segments.len() != other.segments.len() {
            assert(self@.len() != other@.len());
            return false;
        }
        let mut i: usize = 0;
        while i < self.segments.len()
            invariant
                i <= self.segments.len(),
                self.segments.len() == other.segments.len(),
                forall|k: int| 0 <= k < i ==> self.segments[k]@ == other.segments[k]@,
            decreases self.segments.len() - i,
        {
            if self.segments[i] != other.segments[i] {
                assert(self@[i as int] != other@[i as int]);
                return false;
            }
            i += 1;
        }
        assert(self@ =~= other@);
        true
    }

    /// The first `n` segments as an address of their own.
    pub fn prefix(&self, n: usize) -> (r: Address)
        requires
            n <= self@.len(),
        ensures
            r@ == self@.take(n as int),
    {
        let mut segments: Vec<String> = Vec::new();
        let mut i: usize = 0;
        while i < n
            invariant
                i <= n <= self.segments.len(),
                segments.len() == i,
                forall|k: int| 0 <= k < i ==> segments[k]@ == self.segments[k]@,
            decreases n - i,
        {
            segments.push(self.segments[i].clone());
            i += 1;
        }
        let r = Address { segments };
        assert(r@ =~= self@.take(n as int));
        r
    }

    /// The enclosing addresses, nearest first: every proper non-empty prefix.
    pub fn ancestors(&self) -> (r: Vec<Address>)
        ensures
            r.deep_view() == ancestors_of(self@),
    {
        let mut out: Vec<Address> = Vec::new();
        let n = self.segments.len();
        let mut i: usize = 1;
        while i < n
            invariant
                1 <= i,
                n == self.segments.len(),
                i <= n || (n == 0 && i == 1),
                out.len() == i - 1,
                forall|k: int| 0 <= k < out.len() ==> out[k].deep_view() == self@.take(n - 1 - k),
            decreases n - i,
        {
            out.push(self.prefix(n - i));
            i += 1;
        }
        assert(self@.len() == n);
        assert(out.deep_view().len() == out.len());
        assert(ancestors_of(self@).len() == out.len());
        assert forall|k: int| 0 <= k < out.len() implies out.deep_view()[k] == ancestors_of(
            self@,
        )[k] by {
            assert(out.deep_view()[k] == out[k].deep_view());
        }
        assert(out.deep_view() =~= ancestors_of(self@));
        out
    }
}

/// The proper non-empty prefixes of an address, longest first.
pub open spec fn ancestors_of(a: AddressModel) -> Seq<AddressModel> {
    Seq::new(
        if a.len() == 0 {
            0nat
        } else {
            (a.len() - 1) as nat
        },
        |k: int| a.take(a.len() - 1 - k),
    )
}

/// Copies a byte string.
pub fn clone_bytes(v: &Vec<u8>) -> (r: Vec<u8>)
    ensures
        r@ == v@,
{
    let r = v.clone();
    assert(r@ =~= v@);
    r
}

/// Mathematical value of a [`Param`].
pub enum ParamModel {
    Inline(Seq<u8>),
    AccountRef(AddressModel),
}

/// Argument of a predicate: a literal, or a reference to an account.
#[derive(Debug)]
pub enum Param {
    Inline(Vec<u8>),
    AccountRef(Address),
}

impl DeepView for Param {
    type V = ParamModel;

    open spec fn deep_view(&self) -> ParamModel {
        match self {
            Param::Inline(bytes) => ParamModel::Inline(bytes@),
            Param::AccountRef(address) => ParamModel::AccountRef(address@),
        }
    }
}

impl View for Param {
    type V = ParamModel;

    open spec fn view(&self) -> ParamModel {
        self.deep_view()
    }
}

impl Clone for Param {
    fn clone(&self) -> (r: Self)
        ensures
            r@ == self@,
    {
        match self {
            Param::Inline(bytes) => Param::Inline(clone_bytes(bytes)),
            Param::AccountRef(address) => Param::AccountRef(address.clone()),
        }
    }
}

/// Mathematical value of a [`Code`].
pub enum CodeModel {
    Inline(Seq<u8>),
    AccountRef(AddressModel, Seq<char>),
}

/// Code of a predicate: inline bytes, or an entrypoint of the code stored in an account.
#[derive(Debug)]
pub enum Code {
    Inline(Vec<u8>),
    AccountRef(Address, String),
}

impl DeepView for Code {
    type V = CodeModel;

    open spec fn deep_view(&self) -> CodeModel {
        match self {
            Code::Inline(bytes) => CodeModel::Inline(bytes@),
            Code::AccountRef(address, entrypoint) => CodeModel::AccountRef(address@, entrypoint@),
        }
    }
}

impl View for Code {
    type V = CodeModel;

    open spec fn view(&self) -> CodeModel {
        self.deep_view()
    }
}

impl Clone for Code {
    fn clone(&self) -> (r: Self)
        ensures
            r@ == self@,
    {
        match self {
            Code::Inline(bytes) => Code::Inline(clone_bytes(bytes)),
            Code::AccountRef(address, entrypoint) => Code::AccountRef(
                address.clone(),
                entrypoint.clone(),
            ),
        }
    }
}

/// Mathematical value of a [`Predicate`].
pub struct PredicateModel {
    pub code: CodeModel,
    pub params: Seq<ParamModel>,
}

/// A validity predicate: code together with the arguments it is called with.
#[derive(Debug)]
pub struct Predicate {
    pub code: Code,
    pub params: Vec<Param>,
}

impl DeepView for Predicate {
    type V = PredicateModel;

    open spec fn deep_view(&self) -> PredicateModel {
        PredicateModel { code: self.code@, params: self.params.deep_view() }
    }
}

impl View for Predicate {
    type V = PredicateModel;

    open spec fn view(&self) -> PredicateModel {
        self.deep_view()
    }
}

impl Clone for Predicate {
    fn clone(&self) -> (r: Self)
        ensures
            r@ == self@,
    {
        let mut params: Vec<Param> = Vec::new();
        let mut i: usize = 0;
        while i < self.params.len()
            invariant
                i <= self.params.len(),
                params.len() == i,
                forall|k: int| 0 <= k < i ==> params[k]@ == self.params[k]@,
            decreases self.params.len() - i,
        {
            params.push(self.params[i].clone());
            i += 1;
        }
        let r = Predicate { code: self.code.clone(), params };
        assert(r.params.deep_view() =~= self.params.deep_view());
        r
    }
}

/// Copies a list of predicates.
pub fn clone_predicates(v: &Vec<Predicate>) -> (r: Vec<Predicate>)
    ensures
        r.deep_view() == v.deep_view(),
{
    let mut out: Vec<Predicate> = Vec::new();
    let mut i: usize = 0;
    while i < v.len()
        invariant
            i <= v.len(),
            out.len() == i,
            forall|k: int| 0 <= k < i ==> out[k]@ == v[k]@,
        decreases v.len() - i,
    {
        out.push(v[i].clone());
        i += 1;
    }
    assert(out.deep_view() =~= v.deep_view());
    out
}

/// Mathematical value of an [`Account`].
pub struct AccountModel {
    pub state: Seq<u8>,
    pub predicates: Seq<PredicateModel>,
}

/// An account as the state holds it: its data and its validity predicates, in order.
#[derive(Debug)]
pub struct Account {
    pub state: Vec<u8>,
    pub predicates: Vec<Predicate>,
}

impl DeepView for Account {
    type V = AccountModel;

    open spec fn deep_view(&self) -> AccountModel {
        AccountModel { state: self.state@, predicates: self.predicates.deep_view() }
    }
}

impl View for Account {
    type V = AccountModel;

    open spec fn view(&self) -> AccountModel {
        self.deep_view()
    }
}

impl Clone for Account {
    fn clone(&self) -> (r: Self)
        ensures
            r@ == self@,
    {
        Account { state: clone_bytes(&self.state), predicates: clone_predicates(&self.predicates) }
    }
}

/// What a transaction proposes to do to one account.
#[derive(Debug)]
pub enum AccountChange {
    CreateAccount(Account),
    ReplaceState(Vec<u8>),
    ReplacePredicates(Vec<Predicate>),
    DeleteAccount,
}

/// A proposed mutation of the account at `address`.
#[derive(Debug)]
pub struct Proposal {
    pub address: Address,
    pub change: AccountChange,
}

/// An intent carried by a transaction, with the predicates it expects to hold.
#[derive(Debug)]
pub struct Intent {
    pub expectations: Vec<Predicate>,
}

/// A transaction: the accounts it proposes to mutate, and its intents.
#[derive(Debug)]
pub struct Transaction {
    pub proposals: Vec<Proposal>,
    pub intents: Vec<Intent>,
}

} // verus!
