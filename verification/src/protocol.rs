//! The overlay's protocol: the state of a topic as a mathematical value, and
//! what each event and each message makes of it.

use crate::config::Config as Options;
use crate::history::{recorded, HISTORY_CAPACITY};
use crate::membership::{
    distinct_peers, excluding, first_holder, has_peer, lemma_push_peer, lemma_remove_peer,
    lemma_without_peer, others, position_of, sampled, without_peer,
};
use crate::network::{addressee, dials, hangs_up, sends, sends_as, Command};
use crate::peer::{PeerId, PeerModel};
use crate::topic::{Effects, Event};
use crate::wire::{Action, ActionModel, Message};
use vstd::prelude::*;

verus! {

/// Mathematical value of a [`Topic`].
pub struct TopicModel {
    /// The topic's name.
    pub name: Seq<char>,
    /// The overlay's options.
    pub options: Options,
    /// The local node.
    pub this_node: PeerModel,
    /// The active view: the peers that messages are exchanged with.
    pub active: Seq<PeerModel>,
    /// The passive view: known peers held in reserve.
    pub passive: Seq<PeerModel>,
    /// Peers taken from the passive view that are being dialed for a place in the active view.
    pub promoted: Seq<PeerModel>,
    /// Addresses that were dialed and have not answered yet.
    pub pending_dials: Seq<Seq<char>>,
    /// The identifiers of the gossip seen most recently.
    pub seen: Seq<u128>,
}

impl TopicModel {
    /// Fewer active peers than the overlay wants at least.
    pub open spec fn starved(self) -> bool {
        self.active.len() < self.options.min_active_view_size
    }

    /// As many active peers as the overlay admits.
    pub open spec fn saturated(self) -> bool {
        self.active.len() >= self.options.max_active_view_size
    }

    /// The most peers that the active view comes to hold: its upper bound, and
    /// one peer where that bound is nought, since a request of high priority
    /// and a join at its last hop are granted whatever the bound.
    pub open spec fn active_room(self) -> nat {
        if self.options.max_active_view_size >= 1 {
            self.options.max_active_view_size as nat
        } else {
            1
        }
    }

    /// The peer `id` is the local node or is held in one of the views or among the promoted.
    pub open spec fn knows(self, id: PeerId) -> bool {
        id == self.this_node.peer_id || has_peer(self.active, id) || has_peer(self.passive, id)
            || has_peer(self.promoted, id)
    }

    /// The invariants of the overlay: no peer is held twice, neither within
    /// a view nor across the views and the promoted; the local node is held
    /// nowhere; and neither view exceeds its bound, but that an active view
    /// whose bound is nought may hold one peer.
    pub open spec fn wf(self) -> bool {
        &&& distinct_peers(self.active)
        &&& distinct_peers(self.passive)
        &&& distinct_peers(self.promoted)
        &&& forall|id: PeerId| #[trigger] has_peer(self.active, id) ==> !has_peer(self.passive, id)
        &&& forall|id: PeerId| #[trigger]
            has_peer(self.promoted, id) ==> !has_peer(self.active, id) && !has_peer(
                self.passive,
                id,
            )
        &&& !has_peer(self.active, self.this_node.peer_id)
        &&& !has_peer(self.passive, self.this_node.peer_id)
        &&& !has_peer(self.promoted, self.this_node.peer_id)
        &&& self.active.len() <= self.active_room()
        &&& self.passive.len() <= self.options.max_passive_view_size
        &&& self.seen.len() <= HISTORY_CAPACITY
    }
}

/// The passive view once `peer` is offered to it. A peer that is the local
/// node, or is in the active view or among the promoted, is not taken. One
/// that the view holds already has its addresses replaced. Otherwise the peer
/// is added; where the view is full, the peer at position `slot` makes room
/// for it, and where `slot` is no position of the view, the peer is dropped.
pub open spec fn admitted(m: TopicModel, peer: PeerModel, slot: int) -> Seq<PeerModel> {
    if peer.peer_id == m.this_node.peer_id || has_peer(m.active, peer.peer_id) || has_peer(
        m.promoted,
        peer.peer_id,
    ) {
        m.passive
    } else if has_peer(m.passive, peer.peer_id) {
        m.passive.update(position_of(m.passive, peer.peer_id), peer)
    } else if m.passive.len() < m.options.max_passive_view_size {
        m.passive.push(peer)
    } else if 0 <= slot < m.passive.len() {
        m.passive.remove(slot).push(peer)
    } else {
        m.passive
    }
}

/// `post` is `pre` after `peer` was offered to the passive view with `slot` drawn.
pub open spec fn offered(pre: TopicModel, peer: PeerModel, slot: int, post: TopicModel) -> bool {
    post == (TopicModel { passive: admitted(pre, peer, slot), ..pre })
}

/// Offering a peer to the passive view keeps the overlay's invariants, and
/// brings no identity into the view but the peer's.
pub proof fn lemma_admitted(m: TopicModel, peer: PeerModel, slot: int)
    requires
        m.wf(),
    ensures
        (TopicModel { passive: admitted(m, peer, slot), ..m }).wf(),
        forall|id: PeerId|
            has_peer(admitted(m, peer, slot), id) ==> has_peer(m.passive, id) || id == peer.peer_id,
{
    let after = admitted(m, peer, slot);
    let id0 = peer.peer_id;
    if id0 == m.this_node.peer_id || has_peer(m.active, id0) || has_peer(m.promoted, id0) {
    } else if has_peer(m.passive, id0) {
        let k = position_of(m.passive, id0);
        assert forall|i: int, j: int| 0 <= i < j < after.len() implies (#[trigger] after[i]).peer_id
            != (#[trigger] after[j]).peer_id by {
            assert(after[i].peer_id == m.passive[i].peer_id);
            assert(after[j].peer_id == m.passive[j].peer_id);
        }
        assert forall|id: PeerId| has_peer(after, id) implies has_peer(m.passive, id) by {
            let i = choose|i: int| 0 <= i < after.len() && (#[trigger] after[i]).peer_id == id;
            assert(m.passive[i].peer_id == id);
        }
    } else if m.passive.len() < m.options.max_passive_view_size {
        lemma_push_peer(m.passive, peer);
    } else if 0 <= slot < m.passive.len() {
        lemma_remove_peer(m.passive, slot);
        lemma_push_peer(m.passive.remove(slot), peer);
    } else {
    }
}

/// The overlay once `peer` has taken a place in the active view: it is added
/// there, and dropped from the passive view and from the promoted.
pub open spec fn activated(m: TopicModel, peer: PeerModel) -> TopicModel {
    TopicModel {
        active: m.active.push(peer),
        passive: without_peer(m.passive, peer.peer_id),
        promoted: without_peer(m.promoted, peer.peer_id),
        ..m
    }
}

/// A peer that is not the local node can take a place in an active view
/// that has room and does not hold it.
pub proof fn lemma_activated(m: TopicModel, peer: PeerModel)
    requires
        m.wf(),
        m.active.len() < m.active_room(),
        peer.peer_id != m.this_node.peer_id,
        !has_peer(m.active, peer.peer_id),
    ensures
        activated(m, peer).wf(),
        forall|id: PeerId|
            #![trigger has_peer(activated(m, peer).active, id)]
            has_peer(activated(m, peer).active, id) <==> (id == peer.peer_id || has_peer(
                m.active,
                id,
            )),
{
    lemma_push_peer(m.active, peer);
    lemma_without_peer(m.passive, peer.peer_id);
    lemma_without_peer(m.promoted, peer.peer_id);
    let after = activated(m, peer);
    assert forall|id: PeerId| #[trigger] has_peer(after.active, id) implies !has_peer(
        after.passive,
        id,
    ) by {
        if id != peer.peer_id {
            assert(has_peer(m.active, id));
        }
    }
    assert forall|id: PeerId| #[trigger] has_peer(after.promoted, id) implies !has_peer(
        after.active,
        id,
    ) && !has_peer(after.passive, id) by {
        assert(has_peer(m.promoted, id));
    }
}

/// The overlay without the active peer `id`.
pub open spec fn dropped(m: TopicModel, id: PeerId) -> TopicModel {
    TopicModel { active: without_peer(m.active, id), ..m }
}

/// The overlay once the active peer `id` has been moved to the passive view,
/// with `slot` drawn for the place it takes there.
pub open spec fn demoted(m: TopicModel, id: PeerId, slot: int) -> TopicModel {
    if has_peer(m.active, id) {
        let left = dropped(m, id);
        TopicModel { passive: admitted(left, m.active[position_of(m.active, id)], slot), ..left }
    } else {
        m
    }
}

/// Dropping or demoting an active peer keeps the overlay's invariants.
pub proof fn lemma_demoted(m: TopicModel, id: PeerId, slot: int)
    requires
        m.wf(),
    ensures
        dropped(m, id).wf(),
        demoted(m, id, slot).wf(),
        !has_peer(demoted(m, id, slot).active, id),
        demoted(m, id, slot).active == without_peer(m.active, id),
        forall|other: PeerId|
            #![trigger has_peer(without_peer(m.active, id), other)]
            has_peer(without_peer(m.active, id), other) <==> (other != id && has_peer(
                m.active,
                other,
            )),
        has_peer(m.active, id) ==> without_peer(m.active, id).len() == m.active.len() - 1,
{
    lemma_without_peer(m.active, id);
    let left = dropped(m, id);
    assert(left.wf()) by {
        assert forall|x: PeerId| #[trigger] has_peer(left.active, x) implies !has_peer(
            left.passive,
            x,
        ) by {
            assert(has_peer(m.active, x));
        }
        assert forall|x: PeerId| #[trigger] has_peer(left.promoted, x) implies !has_peer(
            left.active,
            x,
        ) && !has_peer(left.passive, x) by {
            if has_peer(left.active, x) {
                assert(has_peer(m.active, x));
            }
        }
    }
    if has_peer(m.active, id) {
        lemma_admitted(left, m.active[position_of(m.active, id)], slot);
    }
}

/// `list` extended by the first `n` of `addrs`, each unless the list holds it.
pub open spec fn extended(list: Seq<Seq<char>>, addrs: Seq<Seq<char>>, n: int) -> Seq<Seq<char>>
    decreases n,
{
    if n <= 0 {
        list
    } else {
        with_address(extended(list, addrs, n - 1), addrs[n - 1])
    }
}

/// The overlay once the passive peer at position `k` has been picked for the
/// active view: it is moved to the promoted, and its addresses are dialed.
pub open spec fn picked(m: TopicModel, k: int) -> TopicModel {
    TopicModel {
        passive: m.passive.remove(k),
        promoted: m.promoted.push(m.passive[k]),
        pending_dials: extended(
            m.pending_dials,
            m.passive[k].addresses,
            m.passive[k].addresses.len() as int,
        ),
        ..m
    }
}

/// Picking a passive peer for the active view keeps the overlay's invariants
/// and leaves the active view as it is.
pub proof fn lemma_picked(m: TopicModel, k: int)
    requires
        m.wf(),
        0 <= k < m.passive.len(),
    ensures
        picked(m, k).wf(),
{
    let after = picked(m, k);
    let peer = m.passive[k];
    lemma_remove_peer(m.passive, k);
    assert(has_peer(m.passive, peer.peer_id));
    lemma_push_peer(m.promoted, peer);
    assert forall|id: PeerId| #[trigger] has_peer(after.active, id) implies !has_peer(
        after.passive,
        id,
    ) by {}
    assert forall|id: PeerId| #[trigger] has_peer(after.promoted, id) implies !has_peer(
        after.active,
        id,
    ) && !has_peer(after.passive, id) by {
        if id != peer.peer_id {
            assert(has_peer(m.promoted, id));
        }
    }
}

/// `cmds` dial each of `addrs` in turn on behalf of `topic`.
pub open spec fn dial_all(cmds: Seq<Command>, addrs: Seq<Seq<char>>, topic: Seq<char>) -> bool {
    &&& cmds.len() == addrs.len()
    &&& forall|i: int| 0 <= i < addrs.len() ==> dials(#[trigger] cmds[i], addrs[i], topic)
}

/// `post` and `cmds` are what refilling the active view of `pre` gives. Where
/// the view is starved and the passive view holds a peer, one of its peers is
/// picked and dialed; otherwise nothing happens.
pub open spec fn replenished(pre: TopicModel, post: TopicModel, cmds: Seq<Command>) -> bool {
    if pre.starved() && pre.passive.len() > 0 {
        exists|k: int|
            0 <= k < pre.passive.len() && post == #[trigger] picked(pre, k) && dial_all(
                cmds,
                pre.passive[k].addresses,
                pre.name,
            )
    } else {
        post == pre && cmds.len() == 0
    }
}

/// `cmds` send each of `to` in turn a message of `topic` asking `action`;

/// where `id` is given, each under that identifier.
pub open spec fn sent_to_each(
    cmds: Seq<Command>,
    to: Seq<PeerId>,
    topic: Seq<char>,
    id: Option<u128>,
    action: ActionModel,
) -> bool {
    &&& cmds.len() == to.len()
    &&& forall|i: int|
        0 <= i < to.len() ==> sends(#[trigger] cmds[i], to[i], topic, action) && (id is Some
            ==> sends_as(cmds[i], to[i], topic, id.unwrap(), action))
}

/// `post` and `cmds` are what dropping `victim` from the active view of
/// `pre` gives: the peer is moved to the passive view and told so.
pub open spec fn evicted(
    pre: TopicModel,
    victim: PeerId,
    post: TopicModel,
    cmds: Seq<Command>,
) -> bool {
    if has_peer(pre.active, victim) {
        &&& exists|slot: int|
            0 <= slot <= pre.passive.len() && post == #[trigger] demoted(pre, victim, slot)
        &&& cmds.len() == 1
        &&& sends(cmds[0], victim, pre.name, ActionModel::Disconnect)
    } else {
        post == pre && cmds.len() == 0
    }
}

/// Every peer that `post` holds and `pre` does not is addressed by one of `cmds`.
pub open spec fn newcomers_addressed(
    pre: Seq<PeerModel>,
    post: Seq<PeerModel>,
    cmds: Seq<Command>,
) -> bool {
    forall|id: PeerId|
        #![trigger has_peer(post, id)]
        has_peer(post, id) && !has_peer(pre, id) ==> exists|i: int|
            0 <= i < cmds.len() && addressee(#[trigger] cmds[i]) == Some(id)
}

/// The overlay of `m` once the addresses of a peer that has connected are
/// no longer awaited.
pub open spec fn settled(m: TopicModel, addrs: Seq<Seq<char>>) -> TopicModel {
    TopicModel {
        pending_dials: remaining(m.pending_dials, addrs, m.pending_dials.len() as int),
        ..m
    }
}

/// `post` and `cmds` are what a connection to `peer` makes of `pre`. The
/// peer's addresses are no longer awaited. A promoted peer takes its place
/// in the active view and is sent a `Neighbor`, of high priority where the
/// view is starved; where the view is saturated by now, it goes back to the
/// passive view. Any other peer is sent a `Join` where the active view is
/// starved and does not hold it.
pub open spec fn connected(
    pre: TopicModel,
    peer: PeerModel,
    post: TopicModel,
    cmds: Seq<Command>,
) -> bool {
    let base = settled(pre, peer.addresses);
    if has_peer(pre.promoted, peer.peer_id) {
        if !pre.saturated() {
            &&& post == activated(base, peer)
            &&& cmds.len() == 1
            &&& sends(
                cmds[0],
                peer.peer_id,
                pre.name,
                ActionModel::Neighbor { peer: pre.this_node, high_priority: pre.starved() },
            )
        } else {
            &&& cmds.len() == 0
            &&& exists|slot: int|
                0 <= slot <= pre.passive.len() && #[trigger] offered(
                    TopicModel { promoted: without_peer(pre.promoted, peer.peer_id), ..base },
                    peer,
                    slot,
                    post,
                )
        }
    } else if pre.starved() && !has_peer(pre.active, peer.peer_id) && peer.peer_id
        != pre.this_node.peer_id {
        &&& post == base
        &&& cmds.len() == 1
        &&& sends(cmds[0], peer.peer_id, pre.name, ActionModel::Join { node: pre.this_node })
    } else {
        post == base && cmds.len() == 0
    }
}

/// `post` and `cmds` are what the loss of the connection to `peer` makes of
/// `pre`. An active peer leaves the active view, for the passive view where
/// it left gracefully; the active view is then refilled. A promoted peer goes
/// back to the passive view. The loss of any other peer changes nothing.
pub open spec fn disconnected(
    pre: TopicModel,
    peer: PeerId,
    graceful: bool,
    post: TopicModel,
    cmds: Seq<Command>,
) -> bool {
    if has_peer(pre.active, peer) {
        exists|mid: TopicModel| #[trigger]
            replenished(mid, post, cmds) && if graceful {
                exists|slot: int|
                    0 <= slot <= pre.passive.len() && mid == #[trigger] demoted(pre, peer, slot)
            } else {
                mid == dropped(pre, peer)
            }
    } else if has_peer(pre.promoted, peer) {
        &&& cmds.len() == 0
        &&& exists|slot: int|
            0 <= slot <= pre.passive.len() && #[trigger] offered(
                TopicModel { promoted: without_peer(pre.promoted, peer), ..pre },
                pre.promoted[position_of(pre.promoted, peer)],
                slot,
                post,
            )
    } else {
        post == pre && cmds.len() == 0
    }
}

/// `post` and `cmds` are what a `Join` from `sender`, reachable at the
/// addresses of `node`, makes of `pre`. Unless the active view is saturated,
/// the sender is given a place in it; a sender that the view holds already is
/// noted with the addresses of the message. The sender is welcomed with a
/// `Neighbor` of high priority where it is, or was already, in the view. The
/// join is then forwarded, at hop 0, to every other active peer. A `Join` of
/// the local node's own is ignored.
pub open spec fn joined(
    pre: TopicModel,
    sender: PeerId,
    node: PeerModel,
    post: TopicModel,
    cmds: Seq<Command>,
) -> bool {
    let entry = PeerModel { peer_id: sender, addresses: node.addresses };
    if sender == pre.this_node.peer_id {
        post == pre && cmds.len() == 0
    } else {
        let welcome = has_peer(pre.active, sender) || !pre.saturated();
        let replies: int = if welcome {
            1
        } else {
            0
        };
        &&& post == if has_peer(pre.active, sender) {
            TopicModel {
                active: pre.active.update(position_of(pre.active, sender), entry),
                ..pre
            }
        } else if !pre.saturated() {
            activated(pre, entry)
        } else {
            pre
        }
        &&& cmds.len() >= replies
        &&& welcome ==> sends(
            cmds[0],
            sender,
            pre.name,
            ActionModel::Neighbor { peer: pre.this_node, high_priority: true },
        )
        &&& sent_to_each(
            cmds.subrange(replies, cmds.len() as int),
            others(post.active, Some(sender)),
            pre.name,
            None,
            ActionModel::ForwardJoin { peer: entry, hop: 0 },
        )
    }
}

/// `room` and `cmds` are what making room in the active view of `pre` gives.
/// Where the view is saturated, an active peer is dropped to the passive view
/// and told so: one other than `spare` where there is one, any otherwise. A
/// view that holds no peer has none to drop.
pub open spec fn made_room(
    pre: TopicModel,
    spare: Option<PeerId>,
    room: TopicModel,
    cmds: Seq<Command>,
) -> bool {
    if pre.saturated() && pre.active.len() > 0 {
        exists|victim: PeerId|
            has_peer(pre.active, victim) && (Some(victim) != spare || others(
                pre.active,
                spare,
            ).len() == 0) && #[trigger] evicted(pre, victim, room, cmds)
    } else {
        room == pre && cmds.len() == 0
    }
}

/// `post` and `cmds` are what a `Neighbor` from `sender`, reachable at the
/// addresses of `peer`, makes of `pre`. A request of high priority is always
/// granted, an active peer making room where the view is saturated. One of
/// low priority is granted where the view is not saturated; otherwise the
/// sender is answered with a `Disconnect` and offered to the passive view. A
/// request of the local node's own, or of a peer that is active already, is ignored.
pub open spec fn neighbor_received(
    pre: TopicModel,
    sender: PeerId,
    peer: PeerModel,
    high_priority: bool,
    post: TopicModel,
    cmds: Seq<Command>,
) -> bool {
    let entry = PeerModel { peer_id: sender, addresses: peer.addresses };
    if sender == pre.this_node.peer_id || has_peer(pre.active, sender) {
        post == pre && cmds.len() == 0
    } else if high_priority || !pre.saturated() {
        exists|room: TopicModel| #[trigger]
            made_room(pre, None, room, cmds) && post == activated(room, entry)
    } else {
        &&& cmds.len() == 1
        &&& sends(cmds[0], sender, pre.name, ActionModel::Disconnect)
        &&& exists|slot: int|
            0 <= slot <= pre.passive.len() && #[trigger] offered(pre, entry, slot, post)
    }
}

/// `post` and `cmds` are what a `Disconnect` from `sender` makes of `pre`.
/// An active sender is moved to the passive view and the connection to it
/// closed; the active view is then refilled. Any other sender is ignored.
pub open spec fn disconnect_received(
    pre: TopicModel,
    sender: PeerId,
    post: TopicModel,
    cmds: Seq<Command>,
) -> bool {
    if has_peer(pre.active, sender) {
        &&& cmds.len() >= 1
        &&& hangs_up(cmds[0], sender, pre.name)
        &&& exists|slot: int|
            0 <= slot <= pre.passive.len() && #[trigger] replenished(
                demoted(pre, sender, slot),
                post,
                cmds.subrange(1, cmds.len() as int),
            )
    } else {
        post == pre && cmds.len() == 0
    }
}

/// `post`, `cmds` and `delivered` are what gossip from `sender` under the
/// identifier `id` makes of `pre`. Gossip that was not seen before is
/// delivered and passed on, under its identifier, to every other active
/// peer; gossip seen before is dropped.
pub open spec fn gossip_received(
    pre: TopicModel,
    sender: PeerId,
    id: u128,
    payload: Seq<u8>,
    post: TopicModel,
    cmds: Seq<Command>,
    delivered: Seq<Vec<u8>>,
) -> bool {
    &&& post == TopicModel { seen: recorded(pre.seen, id), ..pre }
    &&& if pre.seen.contains(id) {
        cmds.len() == 0 && delivered.len() == 0
    } else {
        &&& delivered.len() == 1
        &&& delivered[0]@ == payload
        &&& sent_to_each(
            cmds,
            others(pre.active, Some(sender)),
            pre.name,
            Some(id),
            ActionModel::Gossip { payload },
        )
    }
}

/// `cmds` pass a message asking `action` on to one of the active peers of
/// `m` other than `sender`; they are empty where there is no such peer.
pub open spec fn relayed(
    m: TopicModel,
    sender: PeerId,
    action: ActionModel,
    cmds: Seq<Command>,
) -> bool {
    if others(m.active, Some(sender)).len() > 0 {
        &&& cmds.len() == 1
        &&& exists|to: PeerId|
            others(m.active, Some(sender)).contains(to) && #[trigger] sends(
                cmds[0],
                to,
                m.name,
                action,
            )
    } else {
        cmds.len() == 0
    }
}

/// `post` and `cmds` are what the join request of `peer`, received from
/// `sender` at hop `hop`, does to the views of `pre`. At the last hop, or
/// where the sender is the only active peer, the joining peer is given a
/// place in the active view, an active peer making room for it where the view
/// is saturated, and is welcomed with a `Neighbor` of high priority; a peer
/// that the view holds already is welcomed all the same, and the local node's
/// own request changes nothing. Before that, a peer that is not known yet is
/// offered to the passive view unless the active view is saturated.
pub open spec fn forward_join_settled(
    pre: TopicModel,
    sender: PeerId,
    peer: PeerModel,
    hop: u16,
    post: TopicModel,
    cmds: Seq<Command>,
) -> bool {
    let last_hop = hop == pre.options.forward_join_hops_count || others(
        pre.active,
        Some(sender),
    ).len() == 0;
    if last_hop {
        if peer.peer_id == pre.this_node.peer_id {
            post == pre && cmds.len() == 0
        } else if has_peer(pre.active, peer.peer_id) {
            &&& post == pre
            &&& cmds.len() == 1
            &&& sends(
                cmds[0],
                peer.peer_id,
                pre.name,
                ActionModel::Neighbor { peer: pre.this_node, high_priority: true },
            )
        } else {
            &&& cmds.len() >= 1
            &&& sends(
                cmds.last(),
                peer.peer_id,
                pre.name,
                ActionModel::Neighbor { peer: pre.this_node, high_priority: true },
            )
            &&& exists|room: TopicModel| #[trigger]
                made_room(pre, Some(sender), room, cmds.drop_last()) && post == activated(
                    room,
                    peer,
                )
        }
    } else if !pre.saturated() && !pre.knows(peer.peer_id) {
        &&& cmds.len() == 0
        &&& exists|slot: int|
            0 <= slot <= pre.passive.len() && #[trigger] offered(pre, peer, slot, post)
    } else {
        post == pre && cmds.len() == 0
    }
}

/// `post` and `cmds` are what a `ForwardJoin` makes of `pre`: the views are
/// settled as `forward_join_settled` says, and the request is then passed on,
/// at the next hop, to one active peer other than the sender, unless the hop
/// count has reached its limit.
pub open spec fn forward_join_received(
    pre: TopicModel,
    sender: PeerId,
    peer: PeerModel,
    hop: u16,
    post: TopicModel,
    cmds: Seq<Command>,
) -> bool {
    exists|split: int|
        0 <= split <= cmds.len() && #[trigger] forward_join_settled(
            pre,
            sender,
            peer,
            hop,
            post,
            cmds.take(split),
        ) && if hop < u16::MAX {
            relayed(
                post,
                sender,
                ActionModel::ForwardJoin { peer, hop: (hop + 1) as u16 },
                cmds.skip(split),
            )
        } else {
            cmds.skip(split).len() == 0
        }
}

/// The peers that the overlay can advertise: those of its two views, and
/// the local node where `with_self` says so.
pub open spec fn advertised(m: TopicModel, with_self: bool) -> Seq<PeerModel> {
    if with_self {
        (m.active + m.passive).push(m.this_node)
    } else {
        m.active + m.passive
    }
}

/// The peers of the overlay's two views, with the local node, are all different.
pub proof fn lemma_advertised(m: TopicModel, with_self: bool)
    requires
        m.wf(),
    ensures
        distinct_peers(advertised(m, with_self)),
{
    let both = m.active + m.passive;
    assert forall|i: int, j: int| 0 <= i < j < both.len() implies (#[trigger] both[i]).peer_id != (
    #[trigger] both[j]).peer_id by {
        if j < m.active.len() {
            assert(both[i] == m.active[i] && both[j] == m.active[j]);
        } else if i >= m.active.len() {
            assert(both[i] == m.passive[i - m.active.len()]);
            assert(both[j] == m.passive[j - m.active.len()]);
        } else {
            assert(both[i] == m.active[i]);
            assert(both[j] == m.passive[j - m.active.len()]);
            assert(has_peer(m.active, m.active[i].peer_id));
            assert(has_peer(m.passive, m.passive[j - m.active.len()].peer_id));
        }
    }
    if with_self {
        let all = both.push(m.this_node);
        assert forall|i: int, j: int| 0 <= i < j < all.len() implies (#[trigger] all[i]).peer_id != (
        #[trigger] all[j]).peer_id by {
            assert(all[i] == both[i]);
            if j < both.len() {
                assert(all[j] == both[j]);
            } else {
                if i < m.active.len() {
                    assert(both[i] == m.active[i]);
                    assert(has_peer(m.active, m.active[i].peer_id));
                } else {
                    assert(both[i] == m.passive[i - m.active.len()]);
                    assert(has_peer(m.passive, m.passive[i - m.active.len()].peer_id));
                }
            }
        }
    }
}

/// `cmds` are what a shuffle tick asks for. Where the active view holds a
/// peer, one of its peers is sent a `Shuffle` at hop 0 that names the local
/// node as origin and carries a sample of the peers the overlay knows,
/// the local node among them and the receiver not.
pub open spec fn shuffle_started(m: TopicModel, cmds: Seq<Command>) -> bool {
    if m.active.len() > 0 {
        &&& cmds.len() == 1
        &&& exists|to: PeerId, sample: Seq<PeerModel>|
            has_peer(m.active, to) && sampled(
                sample,
                excluding(advertised(m, true), seq![to], advertised(m, true).len() as int),
                m.options.shuffle_sample_size as nat,
            ) && #[trigger] sends(
                cmds[0],
                to,
                m.name,
                ActionModel::Shuffle { origin: m.this_node, hop: 0, peers: sample },
            )
    } else {
        cmds.len() == 0
    }
}

/// The identities of the first `n` of `peers`.
pub open spec fn identities(peers: Seq<PeerModel>) -> Seq<PeerId> {
    Seq::new(peers.len(), |i: int| peers[i].peer_id)
}

/// `post` is `mid` once `peer` has been merged into the passive view: a peer
/// that is not known yet is offered to the view, a known one changes nothing.
pub open spec fn merged_one(mid: TopicModel, peer: PeerModel, post: TopicModel) -> bool {
    if mid.knows(peer.peer_id) {
        post == mid
    } else {
        exists|slot: int| 0 <= slot <= mid.passive.len() && #[trigger] offered(mid, peer, slot, post)
    }
}

/// `post` is `pre` once the first `n` of `peers` have been merged into the
/// passive view, one after the other.
pub open spec fn merged(pre: TopicModel, peers: Seq<PeerModel>, n: int, post: TopicModel) -> bool
    decreases n,
{
    if n <= 0 {
        post == pre
    } else {
        exists|mid: TopicModel|
            merged(pre, peers, n - 1, mid) && #[trigger] merged_one(mid, peers[n - 1], post)
    }
}

/// Merging one more peer extends a merge.
pub proof fn lemma_merged_step(
    pre: TopicModel,
    peers: Seq<PeerModel>,
    n: int,
    mid: TopicModel,
    post: TopicModel,
)
    requires
        n >= 0,
        merged(pre, peers, n, mid),
        merged_one(mid, peers[n], post),
    ensures
        merged(pre, peers, n + 1, post),
{
    assert(merged(pre, peers, (n + 1) - 1, mid) && merged_one(mid, peers[(n + 1) - 1], post));
}

/// `post` and `cmds` are what a `Shuffle` makes of `pre`. Before the last
/// hop, and where there is an active peer other than the sender, the shuffle
/// is passed on to one such peer at the next hop. Otherwise the origin is
/// answered with a sample of the peers of the two views that the shuffle
/// does not carry, and the peers it carries are merged into the passive view.
pub open spec fn shuffle_received(
    pre: TopicModel,
    sender: PeerId,
    origin: PeerModel,
    hop: u16,
    peers: Seq<PeerModel>,
    post: TopicModel,
    cmds: Seq<Command>,
) -> bool {
    if hop < pre.options.shuffle_hops_count && others(pre.active, Some(sender)).len() > 0 {
        &&& post == pre
        &&& relayed(
            pre,
            sender,
            ActionModel::Shuffle { origin, hop: (hop + 1) as u16, peers },
            cmds,
        )
    } else {
        &&& cmds.len() == 1
        &&& exists|sample: Seq<PeerModel>|
            sampled(
                sample,
                excluding(
                    advertised(pre, false),
                    identities(peers),
                    advertised(pre, false).len() as int,
                ),
                pre.options.shuffle_passive_size as nat,
            ) && #[trigger] sends(
                cmds[0],
                origin.peer_id,
                pre.name,
                ActionModel::ShuffleReply { peers: sample },
            )
        &&& merged(pre, peers, peers.len() as int, post)
    }
}

/// `post` and `out` are what a message from `sender` makes of `pre`.
pub open spec fn message_received(
    pre: TopicModel,
    sender: PeerId,
    msg: Message,
    post: TopicModel,
    out: Effects,
) -> bool {
    let cmds = out.commands@;
    match msg.action {
        Action::Join(m) => joined(pre, sender, m.node@, post, cmds) && out.delivered@.len() == 0,
        Action::ForwardJoin(m) => forward_join_received(pre, sender, m.peer@, m.hop, post, cmds)
            && out.delivered@.len() == 0,
        Action::Neighbor(m) => neighbor_received(
            pre,
            sender,
            m.peer@,
            m.high_priority,
            post,
            cmds,
        ) && out.delivered@.len() == 0,
        Action::Shuffle(m) => shuffle_received(
            pre,
            sender,
            m.origin@,
            m.hop,
            m.peers.deep_view(),
            post,
            cmds,
        ) && out.delivered@.len() == 0,
        Action::ShuffleReply(m) => merged(pre, m.peers.deep_view(), m.peers.len() as int, post)
            && cmds.len() == 0 && out.delivered@.len() == 0,
        Action::Disconnect(_) => disconnect_received(pre, sender, post, cmds)
            && out.delivered@.len() == 0,
        Action::Gossip(payload) => gossip_received(
            pre,
            sender,
            msg.id,
            payload@,
            post,
            cmds,
            out.delivered@,
        ),
    }
}

/// `post` and `out` are what `event` makes of `pre`.
pub open spec fn reacted(pre: TopicModel, event: Event, post: TopicModel, out: Effects) -> bool {
    match event {
        Event::MessageReceived(sender, msg) => message_received(pre, sender, msg, post, out),
        Event::LocalAddressDiscovered(addr) => {
            &&& post == TopicModel {
                this_node: PeerModel {
                    peer_id: pre.this_node.peer_id,
                    addresses: with_address(pre.this_node.addresses, addr@),
                },
                ..pre
            }
            &&& out.commands@.len() == 0
            &&& out.delivered@.len() == 0
        },
        Event::PeerConnected(peer) => connected(pre, peer@, post, out.commands@)
            && out.delivered@.len() == 0,
        Event::PeerDisconnected(peer, graceful) => disconnected(
            pre,
            peer,
            graceful,
            post,
            out.commands@,
        ) && out.delivered@.len() == 0,
    }
}

/// Whether `event` is a request of `id` for a place in the active view.
pub open spec fn asks_for_place(event: Event, id: PeerId) -> bool {
    match event {
        Event::MessageReceived(sender, msg) => sender == id && msg.action is Neighbor,
        _ => false,
    }
}

/// `post` is what a failed dial of `addr` makes of `pre`: the address is no
/// longer awaited, and the first promoted peer that was to be reached at it
/// is offered to the passive view again.
pub open spec fn dial_failed(pre: TopicModel, addr: Seq<char>, post: TopicModel) -> bool {
    let base = settled(pre, seq![addr]);
    match first_holder(pre.promoted, addr, pre.promoted.len() as int) {
        Some(k) => exists|slot: int|
            0 <= slot <= pre.passive.len() && #[trigger] offered(
                TopicModel { promoted: pre.promoted.remove(k as int), ..base },
                pre.promoted[k as int],
                slot,
                post,
            ),
        None => post == base,
    }
}

/// In every state that the overlay reaches, the two views share no peer,
/// neither holds the local node, the passive view holds no more peers than
/// its bound, and the active view no more than its bound where that leaves
/// room for a peer at all.
pub proof fn lemma_overlay_invariants(m: TopicModel)
    requires
        m.wf(),
    ensures
        forall|id: PeerId| !(has_peer(m.active, id) && has_peer(m.passive, id)),
        m.options.wf() ==> m.active.len() <= m.options.max_active_view_size,
        m.passive.len() <= m.options.max_passive_view_size,
        !has_peer(m.active, m.this_node.peer_id),
        !has_peer(m.passive, m.this_node.peer_id),
{
}

/// Dropping a promoted peer keeps the overlay's invariants.
pub proof fn lemma_unpromoted(m: TopicModel, id: PeerId)
    requires
        m.wf(),
    ensures
        (TopicModel { promoted: without_peer(m.promoted, id), ..m }).wf(),
{
    lemma_without_peer(m.promoted, id);
    let after = TopicModel { promoted: without_peer(m.promoted, id), ..m };
    assert forall|x: PeerId| #[trigger] has_peer(after.promoted, x) implies !has_peer(
        after.active,
        x,
    ) && !has_peer(after.passive, x) by {
        assert(has_peer(m.promoted, x));
    }
}

/// `list` with `addr` appended unless it holds it.
pub open spec fn with_address(list: Seq<Seq<char>>, addr: Seq<char>) -> Seq<Seq<char>> {
    if list.contains(addr) {
        list
    } else {
        list.push(addr)
    }
}

/// The first `n` of `list`, each address once, in the order of their first occurrence.
pub open spec fn collected(list: Seq<Seq<char>>, n: int) -> Seq<Seq<char>>
    decreases n,
{
    if n <= 0 {
        Seq::empty()
    } else {
        with_address(collected(list, n - 1), list[n - 1])
    }
}

/// The first `n` of `list` without the addresses that `gone` holds.
pub open spec fn remaining(list: Seq<Seq<char>>, gone: Seq<Seq<char>>, n: int) -> Seq<Seq<char>>
    decreases n,
{
    if n <= 0 {
        Seq::empty()
    } else if gone.contains(list[n - 1]) {
        remaining(list, gone, n - 1)
    } else {
        remaining(list, gone, n - 1).push(list[n - 1])
    }
}

} // verus!
