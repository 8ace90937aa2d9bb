//! A view of the overlay: peers by identity, each with its addresses.

use crate::peer::{
    clone_peers, contains_multiaddr, AddressablePeer, Multiaddr, PeerId, PeerModel,
};
use crate::random::random_index;
use vstd::prelude::*;

verus! {

/// Whether `list` holds a peer with the identity `id`.
pub open spec fn has_peer(list: Seq<PeerModel>, id: PeerId) -> bool {
    exists|i: int| 0 <= i < list.len() && (#[trigger] list[i]).peer_id == id
}

/// No two peers of `list` share an identity.
pub open spec fn distinct_peers(list: Seq<PeerModel>) -> bool {
    forall|i: int, j: int|
        0 <= i < j < list.len() ==> (#[trigger] list[i]).peer_id != (#[trigger] list[j]).peer_id
}

/// The position in `list` of the peer with the identity `id`.
pub open spec fn position_of(list: Seq<PeerModel>, id: PeerId) -> int {
    choose|i: int| 0 <= i < list.len() && (#[trigger] list[i]).peer_id == id
}

/// `list` without the peer with the identity `id`, where it holds one.
pub open spec fn without_peer(list: Seq<PeerModel>, id: PeerId) -> Seq<PeerModel> {
    if has_peer(list, id) {
        list.remove(position_of(list, id))
    } else {
        list
    }
}

/// What removing a peer does to the identities held.
pub proof fn lemma_remove_peer(list: Seq<PeerModel>, k: int)
    requires
        distinct_peers(list),
        0 <= k < list.len(),
    ensures
        distinct_peers(list.remove(k)),
        !has_peer(list.remove(k), list[k].peer_id),
        forall|id: PeerId|
            id != list[k].peer_id ==> (has_peer(list.remove(k), id) <==> has_peer(list, id)),
        forall|id: PeerId| has_peer(list.remove(k), id) ==> has_peer(list, id),
{
    let shorter = list.remove(k);
    assert forall|i: int, j: int| 0 <= i < j < shorter.len() implies (#[trigger] shorter[i]).peer_id
        != (#[trigger] shorter[j]).peer_id by {
        let a = if i < k {
            i
        } else {
            i + 1
        };
        let b = if j < k {
            j
        } else {
            j + 1
        };
        assert(shorter[i] == list[a] && shorter[j] == list[b]);
    }
    if has_peer(shorter, list[k].peer_id) {
        let i = choose|i: int| 0 <= i < shorter.len() && (#[trigger] shorter[i]).peer_id == list[k].peer_id;
        let a = if i < k {
            i
        } else {
            i + 1
        };
        assert(shorter[i] == list[a]);
        if a < k {
            assert(list[a].peer_id != list[k].peer_id);
        } else {
            assert(list[k].peer_id != list[a].peer_id);
        }
    }
    assert forall|id: PeerId| has_peer(shorter, id) implies has_peer(list, id) by {
        let i = choose|i: int| 0 <= i < shorter.len() && (#[trigger] shorter[i]).peer_id == id;
        let a = if i < k {
            i
        } else {
            i + 1
        };
        assert(list[a].peer_id == id);
    }
    assert forall|id: PeerId| id != list[k].peer_id && has_peer(list, id) implies has_peer(
        shorter,
        id,
    ) by {
        let a = choose|a: int| 0 <= a < list.len() && (#[trigger] list[a]).peer_id == id;
        let i = if a < k {
            a
        } else {
            a - 1
        };
        assert(shorter[i].peer_id == id);
    }
}

/// What dropping a peer by its identity does to the identities held.
pub proof fn lemma_without_peer(list: Seq<PeerModel>, id: PeerId)
    requires
        distinct_peers(list),
    ensures
        distinct_peers(without_peer(list, id)),
        !has_peer(without_peer(list, id), id),
        forall|other: PeerId|
            #![trigger has_peer(without_peer(list, id), other)]
            #![trigger has_peer(list, other)]
            has_peer(without_peer(list, id), other) <==> (other != id && has_peer(list, other)),
        without_peer(list, id).len() <= list.len(),
        has_peer(list, id) ==> without_peer(list, id).len() == list.len() - 1,
{
    if has_peer(list, id) {
        lemma_remove_peer(list, position_of(list, id));
    }
}

/// The identities of the peers of `list` other than `skip`, in order.
pub open spec fn others(list: Seq<PeerModel>, skip: Option<PeerId>) -> Seq<PeerId>
    decreases list.len(),
{
    if list.len() == 0 {
        Seq::empty()
    } else if skip == Some(list.last().peer_id) {
        others(list.drop_last(), skip)
    } else {
        others(list.drop_last(), skip).push(list.last().peer_id)
    }
}

/// The others of a list are its peers but the one skipped.
pub proof fn lemma_others(list: Seq<PeerModel>, skip: Option<PeerId>)
    ensures
        others(list, skip).len() <= list.len(),
        skip is None ==> others(list, skip).len() == list.len(),
        forall|id: PeerId|
            #![trigger others(list, skip).contains(id)]
            #![trigger has_peer(list, id)]
            others(list, skip).contains(id) <==> (has_peer(list, id) && skip != Some(id)),
    decreases list.len(),
{
    if list.len() > 0 {
        let shorter = list.drop_last();
        let last = list.last().peer_id;
        lemma_others(shorter, skip);
        let rest = others(shorter, skip);
        let all = others(list, skip);
        assert forall|id: PeerId| all.contains(id) <==> (has_peer(list, id) && skip != Some(
            id,
        )) by {
            if all.contains(id) {
                let i = choose|i: int| 0 <= i < all.len() && all[i] == id;
                if skip != Some(last) && i == rest.len() {
                    assert(list[list.len() - 1].peer_id == id);
                } else {
                    assert(rest[i] == id);
                    assert(rest.contains(id));
                    let k = choose|k: int|
                        0 <= k < shorter.len() && (#[trigger] shorter[k]).peer_id == id;
                    assert(list[k].peer_id == id);
                }
            }
            if has_peer(list, id) && skip != Some(id) {
                let k = choose|k: int| 0 <= k < list.len() && (#[trigger] list[k]).peer_id == id;
                if k == list.len() - 1 {
                    assert(all[rest.len() as int] == id);
                } else {
                    assert(shorter[k].peer_id == id);
                    assert(rest.contains(id));
                    let i = choose|i: int| 0 <= i < rest.len() && rest[i] == id;
                    assert(all[i] == id);
                }
            }
        }
    }
}

/// The first `n` peers of `list` whose identities `banned` does not hold.
pub open spec fn excluding(list: Seq<PeerModel>, banned: Seq<PeerId>, n: int) -> Seq<PeerModel>
    decreases n,
{
    if n <= 0 {
        Seq::empty()
    } else if banned.contains(list[n - 1].peer_id) {
        excluding(list, banned, n - 1)
    } else {
        excluding(list, banned, n - 1).push(list[n - 1])
    }
}

/// What is left of a list holds no peer twice if the list does not, and only peers of the list.
pub proof fn lemma_excluding(list: Seq<PeerModel>, banned: Seq<PeerId>, n: int)
    requires
        distinct_peers(list),
        0 <= n <= list.len(),
    ensures
        distinct_peers(excluding(list, banned, n)),
        excluding(list, banned, n).len() <= n,
        forall|i: int|
            0 <= i < excluding(list, banned, n).len() ==> {
                let peer = #[trigger] excluding(list, banned, n)[i];
                &&& !banned.contains(peer.peer_id)
                &&& exists|k: int| 0 <= k < n && list[k] == peer
            },
    decreases n,
{
    if n > 0 {
        lemma_excluding(list, banned, n - 1);
        let rest = excluding(list, banned, n - 1);
        let all = excluding(list, banned, n);
        if !banned.contains(list[n - 1].peer_id) {
            assert forall|i: int, j: int| 0 <= i < j < all.len() implies (#[trigger] all[i]).peer_id
                != (#[trigger] all[j]).peer_id by {
                assert(all[i] == rest[i]);
                let k = choose|k: int| 0 <= k < n - 1 && list[k] == rest[i];
                if j < rest.len() {
                    assert(all[j] == rest[j]);
                } else {
                    assert(list[k].peer_id != list[n - 1].peer_id);
                }
            }
            assert forall|i: int| 0 <= i < all.len() implies {
                let peer = #[trigger] all[i];
                &&& !banned.contains(peer.peer_id)
                &&& exists|k: int| 0 <= k < n && list[k] == peer
            } by {
                if i < rest.len() {
                    assert(all[i] == rest[i]);
                    let k = choose|k: int| 0 <= k < n - 1 && list[k] == rest[i];
                    assert(list[k] == all[i]);
                } else {
                    assert(list[n - 1] == all[i]);
                }
            }
        } else {
            assert forall|i: int| 0 <= i < all.len() implies {
                let peer = #[trigger] all[i];
                &&& !banned.contains(peer.peer_id)
                &&& exists|k: int| 0 <= k < n && list[k] == peer
            } by {
                let k = choose|k: int| 0 <= k < n - 1 && list[k] == rest[i];
                assert(list[k] == all[i]);
            }
        }
    }
}

/// `sample` holds `amount` peers of `pool`, or all of them where the pool
/// has fewer, none twice.
pub open spec fn sampled(sample: Seq<PeerModel>, pool: Seq<PeerModel>, amount: nat) -> bool {
    &&& sample.len() == if amount <= pool.len() {
        amount
    } else {
        pool.len()
    }
    &&& distinct_peers(sample)
    &&& forall|i: int| 0 <= i < sample.len() ==> pool.contains(#[trigger] sample[i])
}

/// The position of the first of the first `n` peers of `list` that can be reached at `addr`.
pub open spec fn first_holder(list: Seq<PeerModel>, addr: Seq<char>, n: int) -> Option<usize>
    decreases n,
{
    if n <= 0 {
        None
    } else {
        match first_holder(list, addr, n - 1) {
            Some(k) => Some(k),
            None => if list[n - 1].addresses.contains(addr) {
                Some((n - 1) as usize)
            } else {
                None
            },
        }
    }
}

/// What adding a peer does to the identities held.
pub proof fn lemma_push_peer(list: Seq<PeerModel>, peer: PeerModel)
    requires
        distinct_peers(list),
        !has_peer(list, peer.peer_id),
    ensures
        distinct_peers(list.push(peer)),
        forall|id: PeerId|
            has_peer(list.push(peer), id) <==> (id == peer.peer_id || has_peer(list, id)),
{
    let longer = list.push(peer);
    assert forall|i: int, j: int| 0 <= i < j < longer.len() implies (#[trigger] longer[i]).peer_id
        != (#[trigger] longer[j]).peer_id by {
        assert(longer[i] == list[i]);
        if j < list.len() {
            assert(longer[j] == list[j]);
        }
    }
    assert forall|id: PeerId| has_peer(longer, id) <==> (id == peer.peer_id || has_peer(
        list,
        id,
    )) by {
        if has_peer(longer, id) {
            let i = choose|i: int| 0 <= i < longer.len() && (#[trigger] longer[i]).peer_id == id;
            if i < list.len() {
                assert(list[i].peer_id == id);
            }
        }
        if id == peer.peer_id {
            assert(longer[list.len() as int].peer_id == id);
        }
        if has_peer(list, id) {
            let i = choose|i: int| 0 <= i < list.len() && (#[trigger] list[i]).peer_id == id;
            assert(longer[i].peer_id == id);
        }
    }
}

/// The peers of `list` whose identities `banned` does not hold, in order.
pub fn peers_excluding(list: &Vec<AddressablePeer>, banned: &Vec<PeerId>) -> (r: Vec<
    AddressablePeer,
>)
    ensures
        r.deep_view() == excluding(list.deep_view(), banned@, list.len() as int),
{
    let ghost models = list.deep_view();
    let mut out: Vec<AddressablePeer> = Vec::new();
    let mut i: usize = 0;
    assert(out.deep_view() =~= excluding(models, banned@, 0));
    while i < list.len()
        invariant
            i <= list.len(),
            models == list.deep_view(),
            out.deep_view() == excluding(models, banned@, i as int),
        decreases list.len() - i,
    {
        assert(models[i as int] == list[i as int]@);
        let id = list[i].peer_id;
        let mut found = false;
        let mut k: usize = 0;
        while k < banned.len() && !found
            invariant
                k <= banned.len(),
                found ==> banned@.contains(id),
                !found ==> forall|t: int| 0 <= t < k ==> banned@[t] != id,
            decreases banned.len() - k,
        {
            if banned[k] == id {
                found = true;
            }
            k += 1;
        }
        if !found {
            let ghost before = out.deep_view();
            out.push(list[i].clone());
            assert(out.deep_view() =~= before.push(models[i as int]));
        }
        i += 1;
    }
    out
}

/// Draws `amount` peers from `pool` without replacement, each draw uniform
/// over the peers left; all of them where the pool holds no more.
pub fn draw_sample(pool: Vec<AddressablePeer>, amount: usize) -> (sample: Vec<AddressablePeer>)
    requires
        distinct_peers(pool.deep_view()),
    ensures
        sampled(sample.deep_view(), pool.deep_view(), amount as nat),
{
    let ghost whole = pool.deep_view();
    let mut left = pool;
    let mut sample: Vec<AddressablePeer> = Vec::new();
    assert(sample.deep_view() =~= Seq::<PeerModel>::empty());
    assert forall|i: int| 0 <= i < left.deep_view().len() implies whole.contains(
        #[trigger] left.deep_view()[i],
    ) by {}
    while sample.len() < amount && left.len() > 0
        invariant
            sample.len() + left.len() == whole.len(),
            sample.len() <= amount,
            distinct_peers(left.deep_view()),
            distinct_peers(sample.deep_view()),
            forall|i: int|
                0 <= i < sample.deep_view().len() ==> whole.contains(
                    #[trigger] sample.deep_view()[i],
                ),
            forall|i: int|
                0 <= i < left.deep_view().len() ==> whole.contains(#[trigger] left.deep_view()[i]),
            forall|i: int, j: int|
                0 <= i < sample.deep_view().len() && 0 <= j < left.deep_view().len() ==> (
                #[trigger] sample.deep_view()[i]).peer_id != (#[trigger] left.deep_view()[j]).peer_id,
        decreases left.len(),
    {
        let k = match random_index(left.len()) {
            Some(k) => k,
            None => 0,
        };
        let ghost before_left = left.deep_view();
        let ghost before_sample = sample.deep_view();
        let peer = left.remove(k);
        proof {
            assert(peer@ == before_left[k as int]);
            assert(left.deep_view() =~= before_left.remove(k as int));
            lemma_remove_peer(before_left, k as int);
            lemma_push_peer_unless(before_sample, peer@);
        }
        sample.push(peer);
        proof {
            assert(sample.deep_view() =~= before_sample.push(before_left[k as int]));
            assert forall|i: int| 0 <= i < left.deep_view().len() implies whole.contains(
                #[trigger] left.deep_view()[i],
            ) by {
                let a = if i < k {
                    i
                } else {
                    i + 1
                };
                assert(left.deep_view()[i] == before_left[a]);
            }
            assert forall|i: int, j: int|
                0 <= i < sample.deep_view().len() && 0 <= j < left.deep_view().len() implies (
            #[trigger] sample.deep_view()[i]).peer_id != (#[trigger] left.deep_view()[j]).peer_id by {
                let a = if j < k {
                    j
                } else {
                    j + 1
                };
                assert(left.deep_view()[j] == before_left[a]);
                if i < before_sample.len() {
                    assert(sample.deep_view()[i] == before_sample[i]);
                } else {
                    if a < k {
                        assert(before_left[a].peer_id != before_left[k as int].peer_id);
                    } else {
                        assert(before_left[k as int].peer_id != before_left[a].peer_id);
                    }
                }
            }
        }
    }
    sample
}

/// A peer whose identity differs from every identity of a list can be appended to it.
proof fn lemma_push_peer_unless(list: Seq<PeerModel>, peer: PeerModel)
    requires
        distinct_peers(list),
        forall|i: int| 0 <= i < list.len() ==> (#[trigger] list[i]).peer_id != peer.peer_id,
    ensures
        distinct_peers(list.push(peer)),
{
    lemma_push_peer(list, peer);
}

/// Peers by identity, in the order in which they were added.
#[derive(Debug)]
pub struct PeerTable {
    entries: Vec<AddressablePeer>,
}

impl View for PeerTable {
    type V = Seq<PeerModel>;

    closed spec fn view(&self) -> Seq<PeerModel> {
        self.entries.deep_view()
    }
}

impl PeerTable {
    /// No identity occurs twice.
    pub open spec fn wf(&self) -> bool {
        distinct_peers(self@)
    }

    /// A table without peers.
    pub fn new() -> (r: PeerTable)
        ensures
            r@ == Seq::<PeerModel>::empty(),
            r.wf(),
    {
        let r = PeerTable { entries: Vec::new() };
        assert(r@ =~= Seq::<PeerModel>::empty());
        r
    }

    /// The number of peers.
    pub fn len(&self) -> (n: usize)
        ensures
            n == self@.len(),
    {
        self.entries.len()
    }

    /// The peer at position `i`.
    pub fn get(&self, i: usize) -> (peer: &AddressablePeer)
        requires
            i < self@.len(),
        ensures
            peer@ == self@[i as int],
    {
        &self.entries[i]
    }

    /// The position of the peer with the identity `id`, if the table holds it.
    pub fn find(&self, id: PeerId) -> (r: Option<usize>)
        ensures
            r is Some == has_peer(self@, id),
            r is Some ==> r.unwrap() < self@.len() && self@[r.unwrap() as int].peer_id == id,
            r is Some && self.wf() ==> r.unwrap() == position_of(self@, id),
    {
        let mut i: usize = 0;
        while i < self.entries.len()
            invariant
                i <= self.entries.len(),
                forall|k: int| 0 <= k < i ==> (#[trigger] self@[k]).peer_id != id,
            decreases self.entries.len() - i,
        {
            if self.entries[i].peer_id == id {
                proof {
                    assert(self@[i as int].peer_id == id);
                    if self.wf() {
                        let p = position_of(self@, id);
                        if p < i {
                            assert(self@[p].peer_id != id);
                        } else if i < p {
                            assert(self@[i as int].peer_id != self@[p].peer_id);
                        }
                    }
                }
                return Some(i);
            }
            i += 1;
        }
        None
    }

    /// Whether the table holds a peer with the identity `id`.
    pub fn contains(&self, id: PeerId) -> (b: bool)
        ensures
            b == has_peer(self@, id),
    {
        self.find(id).is_some()
    }

    /// Adds a peer whose identity the table does not hold yet.
    pub fn insert(&mut self, peer: AddressablePeer)
        requires
            old(self).wf(),
            !has_peer(old(self)@, peer.peer_id),
        ensures
            final(self).wf(),
            final(self)@ == old(self)@.push(peer@),
    {
        proof {
            lemma_push_peer(self@, peer@);
        }
        self.entries.push(peer);
        assert(self@ =~= old(self)@.push(peer@));
    }

    /// Puts `peer` in the place of the peer at position `k`, which has the same identity.
    pub fn replace_at(&mut self, k: usize, peer: AddressablePeer)
        requires
            old(self).wf(),
            k < old(self)@.len(),
            old(self)@[k as int].peer_id == peer.peer_id,
        ensures
            final(self).wf(),
            final(self)@ == old(self)@.update(k as int, peer@),
            forall|id: PeerId| has_peer(final(self)@, id) <==> has_peer(old(self)@, id),
    {
        self.entries.set(k, peer);
        proof {
            let before = old(self)@;
            let after = self@;
            assert(after =~= before.update(k as int, peer@));
            assert forall|i: int, j: int| 0 <= i < j < after.len() implies (#[trigger] after[i]).peer_id
                != (#[trigger] after[j]).peer_id by {
                assert(after[i].peer_id == before[i].peer_id);
                assert(after[j].peer_id == before[j].peer_id);
            }
            assert forall|id: PeerId| has_peer(after, id) <==> has_peer(before, id) by {
                if has_peer(after, id) {
                    let i = choose|i: int| 0 <= i < after.len() && (#[trigger] after[i]).peer_id == id;
                    assert(before[i].peer_id == id);
                }
                if has_peer(before, id) {
                    let i = choose|i: int|
                        0 <= i < before.len() && (#[trigger] before[i]).peer_id == id;
                    assert(after[i].peer_id == id);
                }
            }
        }
    }

    /// Takes out the peer at position `k`.
    pub fn remove_at(&mut self, k: usize) -> (peer: AddressablePeer)
        requires
            old(self).wf(),
            k < old(self)@.len(),
        ensures
            final(self).wf(),
            final(self)@ == old(self)@.remove(k as int),
            peer@ == old(self)@[k as int],
    {
        proof {
            lemma_remove_peer(self@, k as int);
        }
        let peer = self.entries.remove(k);
        assert(self@ =~= old(self)@.remove(k as int));
        peer
    }

    /// Takes out the peer with the identity `id`, if the table holds it.
    pub fn remove(&mut self, id: PeerId) -> (peer: Option<AddressablePeer>)
        requires
            old(self).wf(),
        ensures
            final(self).wf(),
            final(self)@ == without_peer(old(self)@, id),
            peer is Some == has_peer(old(self)@, id),
            peer is Some ==> peer.unwrap()@ == old(self)@[position_of(old(self)@, id)],
    {
        match self.find(id) {
            Some(k) => Some(self.remove_at(k)),
            None => None,
        }
    }

    /// The position of the first peer that can be reached at `addr`, if there is one.
    pub fn find_by_address(&self, addr: &Multiaddr) -> (r: Option<usize>)
        ensures
            r == first_holder(self@, addr@, self@.len() as int),
            r is Some ==> r.unwrap() < self@.len(),
    {
        let mut i: usize = self.entries.len();
        let mut found: Option<usize> = None;
        assert(self@.len() == self.entries.len());
        while i > 0
            invariant
                i <= self.entries.len(),
                self@.len() == self.entries.len(),
                found is Some ==> found.unwrap() < self@.len(),
                first_holder(self@, addr@, self@.len() as int) == match first_holder(
                    self@,
                    addr@,
                    i as int,
                ) {
                    Some(k) => Some(k),
                    None => found,
                },
            decreases i,
        {
            i -= 1;
            assert(self@[i as int].addresses == self.entries[i as int].addresses.deep_view());
            if contains_multiaddr(&self.entries[i].addresses, addr) {
                found = Some(i);
            }
        }
        found
    }

    /// Copies of the peers, in order.
    pub fn peers(&self) -> (r: Vec<AddressablePeer>)
        ensures
            r.deep_view() == self@,
    {
        clone_peers(&self.entries)
    }

    /// The identities of the peers other than `skip`, in order.
    pub fn ids_except(&self, skip: Option<PeerId>) -> (r: Vec<PeerId>)
        ensures
            r@ == others(self@, skip),
    {
        let mut out: Vec<PeerId> = Vec::new();
        let mut i: usize = 0;
        assert(self@.take(0) =~= Seq::<PeerModel>::empty());
        while i < self.entries.len()
            invariant
                i <= self.entries.len(),
                out@ == others(self@.take(i as int), skip),
            decreases self.entries.len() - i,
        {
            let id = self.entries[i].peer_id;
            proof {
                assert(self@.take(i + 1).drop_last() =~= self@.take(i as int));
                assert(self@.take(i + 1).last() == self@[i as int]);
            }
            let skipped = match skip {
                Some(s) => s == id,
                None => false,
            };
            if !skipped {
                out.push(id);
            }
            i += 1;
        }
        assert(self@.take(self@.len() as int) =~= self@);
        out
    }
}

} // verus!
