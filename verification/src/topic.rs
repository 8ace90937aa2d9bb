//! One instance of the HyParView overlay: the two views of a topic and the
//! protocol's reactions to network events.

use crate::config::Config as Options;
use crate::history::History;
use crate::membership::{
    distinct_peers, draw_sample, excluding, has_peer, lemma_excluding, lemma_others,
    lemma_remove_peer, others, peers_excluding, position_of, without_peer, PeerTable,
};
use crate::network::{addressee, dials, sends, sends_as, Command};
use crate::peer::{contains_multiaddr, AddressablePeer, Multiaddr, PeerId, PeerModel};
use crate::primitives::clone_bytes;
use crate::protocol::{
    activated, advertised, asks_for_place, collected, connected, demoted, dial_all,
    dial_failed, disconnect_received, disconnected, dropped, evicted, extended,
    forward_join_received, forward_join_settled, gossip_received, identities, joined,
    lemma_activated, lemma_admitted, lemma_advertised, lemma_demoted, lemma_merged_step,
    lemma_picked, lemma_unpromoted, made_room, merged, message_received, neighbor_received,
    newcomers_addressed, offered, picked, reacted, relayed, remaining, replenished, sent_to_each,
    settled, shuffle_received, shuffle_started, with_address, TopicModel,
};
use crate::random::{random_id, random_index};
use crate::wire::{
    Action, ActionModel, Disconnect, ForwardJoin, Join, Message, Neighbor, Shuffle, ShuffleReply,
};
use vstd::prelude::*;

verus! {

/// Errors of a topic. The overlay reports none: a command that cannot be
/// carried out is a lost message, and a failed dial arrives as an event. No
/// function returns the one value of this type; it is here because Verus
/// takes no datatype without a variant.
#[derive(Debug, PartialEq, Eq)]
pub enum Error {
    /// Stands for no error of the overlay.
    Never,
}

/// The options of one topic.
#[derive(Debug)]
pub struct Config {
    /// The name that scopes the topic's state and marks its messages.
    pub name: String,
    /// The addresses dialed when the topic starts.
    pub bootstrap: Vec<Multiaddr>,
}

/// What the network layer reports to a topic.
#[derive(Debug)]
pub enum Event {
    /// A peer sent a message of this topic.
    MessageReceived(PeerId, Message),
    /// The node learned of an address of its own.
    LocalAddressDiscovered(Multiaddr),
    /// A connection to a peer stands.
    PeerConnected(AddressablePeer),
    /// The connection to a peer is gone; the flag says whether it was closed gracefully.
    PeerDisconnected(PeerId, bool),
}

/// What a topic asks for in answer to an event: commands for the network
/// layer, and payloads for the subscribers of the topic, each in order.
#[derive(Debug)]
pub struct Effects {
    pub commands: Vec<Command>,
    pub delivered: Vec<Vec<u8>>,
}

/// A topic: one instance of the overlay, as a state machine. Events go in;
/// commands for the network layer and payloads for the subscribers come out.
#[derive(Debug)]
pub struct Topic {
    topic_config: Config,
    network_config: Options,
    this_node: AddressablePeer,
    active_peers: PeerTable,
    passive_peers: PeerTable,
    promoted_peers: PeerTable,
    pending_dials: Vec<Multiaddr>,
    history: History,
}

impl View for Topic {
    type V = TopicModel;

    closed spec fn view(&self) -> TopicModel {
        TopicModel {
            name: self.topic_config.name@,
            options: self.network_config,
            this_node: self.this_node@,
            active: self.active_peers@,
            passive: self.passive_peers@,
            promoted: self.promoted_peers@,
            pending_dials: self.pending_dials.deep_view(),
            seen: self.history@,
        }
    }
}

impl Topic {
    /// Starts a topic: every bootstrap address is dialed and awaited, and both
    /// views start empty. The topic comes with the dials for the network layer.
    pub fn new(
        topic_config: Config,
        network_config: Options,
        this_node: AddressablePeer,
    ) -> (r: (Topic, Vec<Command>))
        ensures
            ({
                let (topic, commands) = r;
                let bootstrap = topic_config.bootstrap.deep_view();
                &&& topic@.wf()
                &&& topic@ == TopicModel {
                    name: topic_config.name@,
                    options: network_config,
                    this_node: this_node@,
                    active: Seq::empty(),
                    passive: Seq::empty(),
                    promoted: Seq::empty(),
                    pending_dials: collected(bootstrap, bootstrap.len() as int),
                    seen: Seq::empty(),
                }
                &&& commands@.len() == bootstrap.len()
                &&& forall|i: int|
                    0 <= i < bootstrap.len() ==> dials(
                        #[trigger] commands@[i],
                        bootstrap[i],
                        topic_config.name@,
                    )
            }),
    {
        let ghost bootstrap = topic_config.bootstrap.deep_view();
        let mut commands: Vec<Command> = Vec::new();
        let mut pending_dials: Vec<Multiaddr> = Vec::new();
        let mut i: usize = 0;
        assert(pending_dials.deep_view() =~= collected(bootstrap, 0));
        while i < topic_config.bootstrap.len()
            invariant
                i <= topic_config.bootstrap.len(),
                bootstrap == topic_config.bootstrap.deep_view(),
                pending_dials.deep_view() == collected(bootstrap, i as int),
                commands@.len() == i,
                forall|k: int|
                    0 <= k < i ==> dials(#[trigger] commands@[k], bootstrap[k], topic_config.name@),
            decreases topic_config.bootstrap.len() - i,
        {
            let addr = &topic_config.bootstrap[i];
            assert(bootstrap[i as int] == addr@);
            commands.push(Command::Connect { addr: addr.clone(), topic: topic_config.name.clone() });
            if !contains_multiaddr(&pending_dials, addr) {
                let ghost before = pending_dials.deep_view();
                pending_dials.push(addr.clone());
                assert(pending_dials.deep_view() =~= before.push(addr@));
            }
            i += 1;
        }
        let topic = Topic {
            topic_config,
            network_config,
            this_node,
            active_peers: PeerTable::new(),
            passive_peers: PeerTable::new(),
            promoted_peers: PeerTable::new(),
            pending_dials,
            history: History::new(),
        };
        (topic, commands)
    }

    /// Whether the active view holds fewer peers than the overlay wants at least.
    pub fn starved(&self) -> (b: bool)
        ensures
            b == self@.starved(),
    {
        self.active_peers.len() < self.network_config.min_active_view_size
    }

    /// Whether the active view holds as many peers as the overlay admits.
    pub fn overconnected(&self) -> (b: bool)
        ensures
            b == self@.saturated(),
    {
        self.active_peers.len() >= self.network_config.max_active_view_size
    }

    /// Whether `peer` is in the active view.
    pub fn is_active(&self, peer: &PeerId) -> (b: bool)
        ensures
            b == has_peer(self@.active, *peer),
    {
        self.active_peers.contains(*peer)
    }

    /// The active view.
    pub fn active_peers(&self) -> (r: &PeerTable)
        ensures
            r@ == self@.active,
    {
        &self.active_peers
    }

    /// The passive view.
    pub fn passive_peers(&self) -> (r: &PeerTable)
        ensures
            r@ == self@.passive,
    {
        &self.passive_peers
    }

    /// The peers that are being dialed for a place in the active view.
    pub fn promoted_peers(&self) -> (r: &PeerTable)
        ensures
            r@ == self@.promoted,
    {
        &self.promoted_peers
    }

    /// The addresses that were dialed and have not answered yet.
    pub fn pending_dials(&self) -> (r: &Vec<Multiaddr>)
        ensures
            r.deep_view() == self@.pending_dials,
    {
        &self.pending_dials
    }

    /// The local node.
    pub fn this_node(&self) -> (r: &AddressablePeer)
        ensures
            r@ == self@.this_node,
    {
        &self.this_node
    }

    /// A message of this topic that asks `action`, under the identifier `id`.
    fn message_as(&self, id: u128, action: Action) -> (msg: Message)
        ensures
            msg.id == id,
            msg.topic@ == self@.name,
            msg.action@ == action@,
    {
        Message { id, topic: self.topic_config.name.clone(), action }
    }

    /// A command that sends `peer` a message of this topic asking `action`,
    /// under a fresh random identifier.
    fn send(&self, peer: PeerId, action: Action) -> (cmd: Command)
        ensures
            sends(cmd, peer, self@.name, action@),
    {
        Command::SendMessage { peer, msg: self.message_as(random_id(), action) }
    }

    /// Records `addr` as dialed and asks the network layer to connect to it.
    fn dial(&mut self, addr: Multiaddr) -> (cmd: Command)
        ensures
            final(self)@ == (TopicModel {
                pending_dials: with_address(old(self)@.pending_dials, addr@),
                ..old(self)@
            }),
            dials(cmd, addr@, old(self)@.name),
    {
        if !contains_multiaddr(&self.pending_dials, &addr) {
            let ghost before = self.pending_dials.deep_view();
            self.pending_dials.push(addr.clone());
            assert(self.pending_dials.deep_view() =~= before.push(addr@));
        }
        Command::Connect { addr, topic: self.topic_config.name.clone() }
    }

    /// Offers `peer` to the passive view, with `slot` as the position that
    /// makes room for it where the view is full.
    pub fn admit_passive(&mut self, peer: AddressablePeer, slot: usize)
        requires
            old(self)@.wf(),
        ensures
            final(self)@.wf(),
            offered(old(self)@, peer@, slot as int, final(self)@),
    {
        proof {
            lemma_admitted(self@, peer@, slot as int);
        }
        let id = peer.peer_id;
        if id == self.this_node.peer_id || self.active_peers.contains(id)
            || self.promoted_peers.contains(id) {
            return ;
        }
        match self.passive_peers.find(id) {
            Some(k) => {
                self.passive_peers.replace_at(k, peer);
            },
            None => {
                if self.passive_peers.len() < self.network_config.max_passive_view_size {
                    self.passive_peers.insert(peer);
                } else if slot < self.passive_peers.len() {
                    let _ = self.passive_peers.remove_at(slot);
                    proof {
                        lemma_remove_peer(old(self)@.passive, slot as int);
                    }
                    self.passive_peers.insert(peer);
                }
            },
        }
    }

    /// Offers `peer` to the passive view. Where the view is full, a peer
    /// drawn uniformly from the view's peers and the offered one is left out.
    pub fn insert_passive(&mut self, peer: AddressablePeer)
        requires
            old(self)@.wf(),
        ensures
            final(self)@.wf(),
            exists|slot: int|
                0 <= slot <= old(self)@.passive.len() && #[trigger] offered(
                    old(self)@,
                    peer@,
                    slot,
                    final(self)@,
                ),
    {
        let held = self.passive_peers.len();
        let bound = if held < usize::MAX {
            held + 1
        } else {
            held
        };
        let slot = match random_index(bound) {
            Some(slot) => slot,
            None => held,
        };
        self.admit_passive(peer, slot);
        assert(offered(old(self)@, peer@, slot as int, self@));
    }

    /// Gives `peer` a place in the active view.
    fn add_active(&mut self, peer: AddressablePeer)
        requires
            old(self)@.wf(),
            old(self)@.active.len() < old(self)@.active_room(),
            peer.peer_id != old(self)@.this_node.peer_id,
            !has_peer(old(self)@.active, peer.peer_id),
        ensures
            final(self)@.wf(),
            final(self)@ == activated(old(self)@, peer@),
    {
        proof {
            lemma_activated(self@, peer@);
        }
        let _ = self.passive_peers.remove(peer.peer_id);
        let _ = self.promoted_peers.remove(peer.peer_id);
        self.active_peers.insert(peer);
    }

    /// Moves the active peer `peer` to the passive view, with `slot` as the
    /// position that makes room for it where that view is full.
    pub fn demote(&mut self, peer: PeerId, slot: usize)
        requires
            old(self)@.wf(),
        ensures
            final(self)@.wf(),
            final(self)@ == demoted(old(self)@, peer, slot as int),
    {
        proof {
            lemma_demoted(self@, peer, slot as int);
        }
        match self.active_peers.remove(peer) {
            Some(entry) => {
                assert(self@ == dropped(old(self)@, peer));
                self.admit_passive(entry, slot);
            },
            None => {},
        }
    }

    /// Initiates a graceful disconnect from an active peer: the peer is moved
    /// to the passive view and sent a `Disconnect`. A peer that is not active
    /// is left alone.
    pub fn disconnect(&mut self, peer: PeerId) -> (cmds: Vec<Command>)
        requires
            old(self)@.wf(),
        ensures
            final(self)@.wf(),
            evicted(old(self)@, peer, final(self)@, cmds@),
    {
        let mut cmds: Vec<Command> = Vec::new();
        if self.active_peers.contains(peer) {
            let held = self.passive_peers.len();
            let bound = if held < usize::MAX {
                held + 1
            } else {
                held
            };
            let slot = match random_index(bound) {
                Some(slot) => slot,
                None => held,
            };
            self.demote(peer, slot);
            cmds.push(self.send(peer, Action::Disconnect(Disconnect {  })));
            assert(self@ == demoted(old(self)@, peer, slot as int));
        }
        cmds
    }

    /// Picks the passive peer at position `k` for the active view: it is
    /// moved to the promoted and each of its addresses is dialed.
    pub fn promote(&mut self, k: usize) -> (cmds: Vec<Command>)
        requires
            old(self)@.wf(),
            k < old(self)@.passive.len(),
        ensures
            final(self)@.wf(),
            final(self)@ == picked(old(self)@, k as int),
            dial_all(cmds@, old(self)@.passive[k as int].addresses, old(self)@.name),
    {
        proof {
            lemma_picked(self@, k as int);
        }
        let peer = self.passive_peers.remove_at(k);
        let ghost addrs = peer@.addresses;
        let ghost start = self@.pending_dials;
        let mut cmds: Vec<Command> = Vec::new();
        let mut i: usize = 0;
        while i < peer.addresses.len()
            invariant
                i <= peer.addresses.len(),
                addrs == peer@.addresses,
                cmds@.len() == i,
                forall|t: int| 0 <= t < i ==> dials(#[trigger] cmds@[t], addrs[t], old(self)@.name),
                self@ == (TopicModel {
                    passive: old(self)@.passive.remove(k as int),
                    pending_dials: extended(start, addrs, i as int),
                    ..old(self)@
                }),
            decreases peer.addresses.len() - i,
        {
            assert(addrs[i as int] == peer.addresses[i as int]@);
            let cmd = self.dial(peer.addresses[i].clone());
            cmds.push(cmd);
            i += 1;
        }
        assert(has_peer(old(self)@.passive, peer.peer_id)) by {
            assert(old(self)@.passive[k as int].peer_id == peer.peer_id);
        }
        self.promoted_peers.insert(peer);
        cmds
    }

    /// Refills a starved active view: a peer drawn uniformly from the
    /// passive view is picked for it and dialed.
    pub fn replenish(&mut self) -> (cmds: Vec<Command>)
        requires
            old(self)@.wf(),
        ensures
            final(self)@.wf(),
            final(self)@.active == old(self)@.active,
            replenished(old(self)@, final(self)@, cmds@),
    {
        if self.starved() {
            match random_index(self.passive_peers.len()) {
                Some(k) => {
                    let cmds = self.promote(k);
                    assert(self@ == picked(old(self)@, k as int));
                    return cmds;
                },
                None => {},
            }
        }
        Vec::new()
    }

    /// Commands that send a copy of `action` to every active peer other than
    /// `skip`, in the order of the active view; each under the identifier
    /// `id` where one is given, and under a fresh random one otherwise.
    fn fan_out(&self, skip: Option<PeerId>, id: Option<u128>, action: &Action) -> (cmds: Vec<
        Command,
    >)
        ensures
            sent_to_each(cmds@, others(self@.active, skip), self@.name, id, action@),
    {
        let targets = self.active_peers.ids_except(skip);
        let mut cmds: Vec<Command> = Vec::new();
        let mut i: usize = 0;
        while i < targets.len()
            invariant
                i <= targets.len(),
                cmds@.len() == i,
                forall|t: int|
                    0 <= t < i ==> sends(#[trigger] cmds@[t], targets@[t], self@.name, action@) && (
                    id is Some ==> sends_as(
                        cmds@[t],
                        targets@[t],
                        self@.name,
                        id.unwrap(),
                        action@,
                    )),
            decreases targets.len() - i,
        {
            let chosen = match id {
                Some(fixed) => fixed,
                None => random_id(),
            };
            let msg = self.message_as(chosen, action.clone());
            cmds.push(Command::SendMessage { peer: targets[i], msg });
            i += 1;
        }
        cmds
    }

    /// Stops awaiting the addresses of a peer that has connected.
    fn settle_dials(&mut self, addrs: &Vec<Multiaddr>)
        ensures
            final(self)@ == settled(old(self)@, addrs.deep_view()),
    {
        let ghost pending = self.pending_dials.deep_view();
        let ghost gone = addrs.deep_view();
        let mut kept: Vec<Multiaddr> = Vec::new();
        let mut i: usize = 0;
        assert(kept.deep_view() =~= remaining(pending, gone, 0));
        while i < self.pending_dials.len()
            invariant
                i <= self.pending_dials.len(),
                self@ == old(self)@,
                pending == self.pending_dials.deep_view(),
                gone == addrs.deep_view(),
                kept.deep_view() == remaining(pending, gone, i as int),
            decreases self.pending_dials.len() - i,
        {
            assert(pending[i as int] == self.pending_dials[i as int]@);
            if !contains_multiaddr(addrs, &self.pending_dials[i]) {
                let ghost before = kept.deep_view();
                kept.push(self.pending_dials[i].clone());
                assert(kept.deep_view() =~= before.push(pending[i as int]));
            }
            i += 1;
        }
        self.pending_dials = kept;
    }

    /// Invoked when a connection to a remote peer stands. The peer's
    /// addresses are no longer awaited. A peer that was picked for the active
    /// view is given its place there and sent a `Neighbor`; any other peer is
    /// sent a `Join` where the active view is starved and does not hold it.
    pub fn handle_peer_connected(&mut self, peer: AddressablePeer) -> (cmds: Vec<Command>)
        requires
            old(self)@.wf(),
        ensures
            final(self)@.wf(),
            connected(old(self)@, peer@, final(self)@, cmds@),
            newcomers_addressed(old(self)@.active, final(self)@.active, cmds@),
    {
        let mut cmds: Vec<Command> = Vec::new();
        let id = peer.peer_id;
        self.settle_dials(&peer.addresses);
        let ghost base = self@;
        if self.promoted_peers.contains(id) {
            if !self.overconnected() {
                let high_priority = self.starved();
                let intro = Neighbor { peer: self.this_node.clone(), high_priority };
                cmds.push(self.send(id, Action::Neighbor(intro)));
                proof {
                    lemma_activated(base, peer@);
                    assert(addressee(cmds@[0]) == Some(id));
                }
                self.add_active(peer);
            } else {
                let _ = self.promoted_peers.remove(id);
                proof {
                    lemma_unpromoted(base, id);
                }
                let ghost left = self@;
                self.insert_passive(peer);
                proof {
                    let slot = choose|slot: int|
                        0 <= slot <= left.passive.len() && #[trigger] offered(
                            left,
                            peer@,
                            slot,
                            self@,
                        );
                    assert(offered(
                        TopicModel { promoted: without_peer(old(self)@.promoted, id), ..base },
                        peer@,
                        slot,
                        self@,
                    ));
                }
            }
        } else if self.starved() && !self.active_peers.contains(id) && id
            != self.this_node.peer_id {
            cmds.push(self.send(id, Action::Join(Join { node: self.this_node.clone() })));
        }
        cmds
    }

    /// Invoked when the connection to a remote peer is gone. An active peer
    /// leaves the active view, and is kept in the passive view where it left
    /// gracefully; a starved active view is then refilled from the passive
    /// view. A peer that was being dialed for the active view goes back to
    /// the passive view.
    pub fn handle_peer_disconnected(&mut self, peer: PeerId, gracefully: bool) -> (cmds: Vec<
        Command,
    >)
        requires
            old(self)@.wf(),
        ensures
            final(self)@.wf(),
            disconnected(old(self)@, peer, gracefully, final(self)@, cmds@),
            newcomers_addressed(old(self)@.active, final(self)@.active, cmds@),
    {
        proof {
            lemma_demoted(self@, peer, 0);
        }
        if self.active_peers.contains(peer) {
            if gracefully {
                let held = self.passive_peers.len();
                let bound = if held < usize::MAX {
                    held + 1
                } else {
                    held
                };
                let slot = match random_index(bound) {
                    Some(slot) => slot,
                    None => held,
                };
                proof {
                    lemma_demoted(self@, peer, slot as int);
                }
                self.demote(peer, slot);
                assert(self@ == demoted(old(self)@, peer, slot as int));
            } else {
                let _ = self.active_peers.remove(peer);
                assert(self@ == dropped(old(self)@, peer));
            }
            let ghost mid = self@;
            let cmds = self.replenish();
            proof {
                assert(replenished(mid, self@, cmds@));
                assert forall|id: PeerId|
                    #![trigger has_peer(self@.active, id)]
                    has_peer(self@.active, id) implies has_peer(old(self)@.active, id) by {}
            }
            cmds
        } else {
            match self.promoted_peers.remove(peer) {
                Some(entry) => {
                    proof {
                        lemma_unpromoted(old(self)@, peer);
                    }
                    let ghost left = self@;
                    self.insert_passive(entry);
                    proof {
                        let slot = choose|slot: int|
                            0 <= slot <= left.passive.len() && #[trigger] offered(
                                left,
                                entry@,
                                slot,
                                self@,
                            );
                        assert(offered(
                            TopicModel {
                                promoted: without_peer(old(self)@.promoted, peer),
                                ..old(self)@
                            },
                            old(self)@.promoted[position_of(old(self)@.promoted, peer)],
                            slot,
                            self@,
                        ));
                    }
                },
                None => {},
            }
            Vec::new()
        }
    }

    /// Draws a position for a peer that is offered to the passive view.
    fn draw_slot(&self) -> (slot: usize)
        ensures
            slot <= self@.passive.len(),
    {
        let held = self.passive_peers.len();
        let bound = if held < usize::MAX {
            held + 1
        } else {
            held
        };
        match random_index(bound) {
            Some(slot) => slot,
            None => held,
        }
    }

    /// Makes room in a saturated active view: an active peer drawn
    /// uniformly, from those other than `spare` where there are any, is
    /// dropped to the passive view and told so. A view without peers has room
    /// for one whatever its bound.
    fn make_room(&mut self, spare: Option<PeerId>) -> (cmds: Vec<Command>)
        requires
            old(self)@.wf(),
        ensures
            final(self)@.wf(),
            final(self)@.active.len() < final(self)@.active_room(),
            made_room(old(self)@, spare, final(self)@, cmds@),
            forall|id: PeerId|
                #![trigger has_peer(final(self)@.active, id)]
                has_peer(final(self)@.active, id) ==> has_peer(old(self)@.active, id),
            final(self)@.this_node == old(self)@.this_node,
            final(self)@.name == old(self)@.name,
    {
        if !self.overconnected() {
            return Vec::new();
        }
        let mut candidates = self.active_peers.ids_except(spare);
        proof {
            lemma_others(self@.active, spare);
            lemma_others(self@.active, None);
        }
        if candidates.len() == 0 {
            candidates = self.active_peers.ids_except(None);
        }
        let victim = match random_index(candidates.len()) {
            Some(k) => candidates[k],
            None => {
                return Vec::new();
            },
        };
        proof {
            assert(candidates@.contains(victim));
            lemma_demoted(self@, victim, 0);
        }
        let cmds = self.disconnect(victim);
        proof {
            let slot = choose|slot: int|
                0 <= slot <= old(self)@.passive.len() && self@ == #[trigger] demoted(
                    old(self)@,
                    victim,
                    slot,
                );
            lemma_demoted(old(self)@, victim, slot);
            assert(evicted(old(self)@, victim, self@, cmds@));
        }
        cmds
    }

    /// Handles a `Join`: the request of a node to enter the overlay through
    /// this one. Unless the active view is saturated, the sender is given a
    /// place in it, with the addresses of the message, and welcomed with a
    /// `Neighbor` of high priority. The request is then passed on, as a
    /// `ForwardJoin` at hop 0, to every other active peer.
    pub fn consume_join(&mut self, sender: PeerId, msg: Join) -> (cmds: Vec<Command>)
        requires
            old(self)@.wf(),
        ensures
            final(self)@.wf(),
            joined(old(self)@, sender, msg.node@, final(self)@, cmds@),
            newcomers_addressed(old(self)@.active, final(self)@.active, cmds@),
    {
        let mut cmds: Vec<Command> = Vec::new();
        if sender == self.this_node.peer_id {
            return cmds;
        }
        let entry = AddressablePeer { peer_id: sender, addresses: msg.node.addresses };
        let known = self.active_peers.contains(sender);
        let welcome = known || !self.overconnected();
        if welcome {
            let greeting = Neighbor { peer: self.this_node.clone(), high_priority: true };
            cmds.push(self.send(sender, Action::Neighbor(greeting)));
        }
        let request = Action::ForwardJoin(ForwardJoin { peer: entry.clone(), hop: 0 });
        match self.active_peers.find(sender) {
            Some(k) => {
                self.active_peers.replace_at(k, entry);
            },
            None => {
                if welcome {
                    proof {
                        lemma_activated(self@, entry@);
                    }
                    self.add_active(entry);
                }
            },
        }
        let ghost replies = cmds@;
        let mut forwards = self.fan_out(Some(sender), None, &request);
        let ghost passed = forwards@;
        cmds.append(&mut forwards);
        proof {
            assert(cmds@.subrange(replies.len() as int, cmds@.len() as int) =~= passed);
            if welcome {
                assert(cmds@[0] == replies[0]);
                assert(addressee(cmds@[0]) == Some(sender));
            }
        }
        cmds
    }

    /// Handles a `Neighbor`: the request of the sender for a place in the
    /// active view. A request of high priority is always granted, an active
    /// peer making room for the sender where the view is saturated. One of
    /// low priority is granted only where the view is not saturated; else the
    /// sender is answered with a `Disconnect` and kept in the passive view.
    pub fn consume_neighbor(&mut self, sender: PeerId, msg: Neighbor) -> (cmds: Vec<Command>)
        requires
            old(self)@.wf(),
        ensures
            final(self)@.wf(),
            neighbor_received(
                old(self)@,
                sender,
                msg.peer@,
                msg.high_priority,
                final(self)@,
                cmds@,
            ),
            forall|id: PeerId|
                #![trigger has_peer(final(self)@.active, id)]
                has_peer(final(self)@.active, id) && !has_peer(old(self)@.active, id) ==> id
                    == sender,
    {
        if sender == self.this_node.peer_id || self.active_peers.contains(sender) {
            return Vec::new();
        }
        let entry = AddressablePeer { peer_id: sender, addresses: msg.peer.addresses };
        if msg.high_priority || !self.overconnected() {
            let cmds = self.make_room(None);
            let ghost room = self@;
            proof {
                lemma_activated(room, entry@);
            }
            self.add_active(entry);
            assert(made_room(old(self)@, None, room, cmds@));
            cmds
        } else {
            let mut cmds: Vec<Command> = Vec::new();
            cmds.push(self.send(sender, Action::Disconnect(Disconnect {  })));
            self.insert_passive(entry);
            cmds
        }
    }

    /// Handles a `Disconnect`: the sender has dropped this node from its
    /// active view. The sender leaves the active view for the passive one,
    /// the connection to it is closed, and a starved active view is refilled.
    pub fn consume_disconnect(&mut self, sender: PeerId, msg: Disconnect) -> (cmds: Vec<Command>)
        requires
            old(self)@.wf(),
        ensures
            final(self)@.wf(),
            disconnect_received(old(self)@, sender, final(self)@, cmds@),
            newcomers_addressed(old(self)@.active, final(self)@.active, cmds@),
    {
        let mut cmds: Vec<Command> = Vec::new();
        if !self.active_peers.contains(sender) {
            return cmds;
        }
        cmds.push(Command::Disconnect { peer: sender, topic: self.topic_config.name.clone() });
        let slot = self.draw_slot();
        proof {
            lemma_demoted(self@, sender, slot as int);
        }
        self.demote(sender, slot);
        let ghost mid = self@;
        let mut dials = self.replenish();
        let ghost dialed = dials@;
        cmds.append(&mut dials);
        proof {
            assert(cmds@.subrange(1, cmds@.len() as int) =~= dialed);
            assert(replenished(demoted(old(self)@, sender, slot as int), self@, dialed));
            assert forall|id: PeerId|
                #![trigger has_peer(self@.active, id)]
                has_peer(self@.active, id) implies has_peer(old(self)@.active, id) by {}
        }
        cmds
    }

    /// Invoked when content is gossiped to this node. Content that was not
    /// seen before, going by the message's identifier, is delivered to the
    /// topic's subscribers and passed on to every active peer but the sender.
    pub fn consume_gossip(&mut self, sender: PeerId, id: u128, msg: Vec<u8>) -> (out: Effects)
        requires
            old(self)@.wf(),
        ensures
            final(self)@.wf(),
            gossip_received(
                old(self)@,
                sender,
                id,
                msg@,
                final(self)@,
                out.commands@,
                out.delivered@,
            ),
    {
        let novel = self.history.insert(id);
        if !novel {
            return Effects { commands: Vec::new(), delivered: Vec::new() };
        }
        let action = Action::Gossip(clone_bytes(&msg));
        let commands = self.fan_out(Some(sender), Some(id), &action);
        let mut delivered: Vec<Vec<u8>> = Vec::new();
        delivered.push(msg);
        Effects { commands, delivered }
    }

    /// Passes `action` on to one active peer other than `sender`, drawn uniformly.
    fn relay(&self, sender: PeerId, action: Action) -> (cmds: Vec<Command>)
        ensures
            relayed(self@, sender, action@, cmds@),
    {
        let mut cmds: Vec<Command> = Vec::new();
        let candidates = self.active_peers.ids_except(Some(sender));
        match random_index(candidates.len()) {
            Some(k) => {
                let to = candidates[k];
                assert(candidates@.contains(to));
                cmds.push(self.send(to, action));
                assert(sends(cmds@[0], to, self@.name, action@));
            },
            None => {},
        }
        cmds
    }

    /// Handles a `ForwardJoin`: the join request of `msg.peer` on its way
    /// through the overlay. At the last hop, or where the sender is the only
    /// active peer, the joining peer must be given a place in the active view,
    /// even if an active peer has to make room for it, and is welcomed with a
    /// `Neighbor` of high priority. Before that, the peer is noted in the
    /// passive view. The request is then passed on to one
    /// active peer other than the sender.
    pub fn consume_forward_join(&mut self, sender: PeerId, msg: ForwardJoin) -> (cmds: Vec<
        Command,
    >)
        requires
            old(self)@.wf(),
        ensures
            final(self)@.wf(),
            forward_join_received(old(self)@, sender, msg.peer@, msg.hop, final(self)@, cmds@),
            newcomers_addressed(old(self)@.active, final(self)@.active, cmds@),
    {
        let mut cmds: Vec<Command> = Vec::new();
        let id = msg.peer.peer_id;
        let hop = msg.hop;
        let others_active = self.active_peers.ids_except(Some(sender));
        let last_hop = hop == self.network_config.forward_join_hops_count || others_active.len()
            == 0;
        let ghost named = self@.name;
        let ghost me = self@.this_node;
        if last_hop {
            if id != self.this_node.peer_id {
                if !self.active_peers.contains(id) {
                    cmds = self.make_room(Some(sender));
                    let ghost room = self@;
                    proof {
                        lemma_activated(room, msg.peer@);
                    }
                    self.add_active(msg.peer.clone());
                }
                let ghost first = cmds@;
                let greeting = Neighbor { peer: self.this_node.clone(), high_priority: true };
                cmds.push(self.send(id, Action::Neighbor(greeting)));
                proof {
                    assert(cmds@.drop_last() =~= first);
                    assert(addressee(cmds@.last()) == Some(id));
                }
            }
        } else if !self.overconnected() && !self.active_peers.contains(id)
            && !self.passive_peers.contains(id) && !self.promoted_peers.contains(id) && id
            != self.this_node.peer_id {
            self.insert_passive(msg.peer.clone());
        }
        let ghost settled_cmds = cmds@;
        proof {
            assert(forward_join_settled(old(self)@, sender, msg.peer@, hop, self@, settled_cmds));
            assert forall|x: PeerId|
                #![trigger has_peer(self@.active, x)]
                has_peer(self@.active, x) && !has_peer(old(self)@.active, x) implies exists|
                i: int,
            |
                0 <= i < settled_cmds.len() && addressee(#[trigger] settled_cmds[i]) == Some(x) by {
                assert(x == id);
                assert(addressee(settled_cmds[settled_cmds.len() - 1]) == Some(id));
            }
        }
        if hop < u16::MAX {
            let next = ForwardJoin { peer: msg.peer, hop: hop + 1 };
            let mut passed = self.relay(sender, Action::ForwardJoin(next));
            let ghost relayed_cmds = passed@;
            cmds.append(&mut passed);
            proof {
                assert(cmds@.take(settled_cmds.len() as int) =~= settled_cmds);
                assert(cmds@.skip(settled_cmds.len() as int) =~= relayed_cmds);
            }
        } else {
            proof {
                assert(cmds@.take(settled_cmds.len() as int) =~= settled_cmds);
                assert(cmds@.skip(settled_cmds.len() as int) =~= Seq::<Command>::empty());
            }
        }
        proof {
            assert forall|x: PeerId|
                #![trigger has_peer(self@.active, x)]
                has_peer(self@.active, x) && !has_peer(old(self)@.active, x) implies exists|
                i: int,
            |
                0 <= i < cmds@.len() && addressee(#[trigger] cmds@[i]) == Some(x) by {
                let i = choose|i: int|
                    0 <= i < settled_cmds.len() && addressee(#[trigger] settled_cmds[i]) == Some(
                        x,
                    );
                assert(cmds@[i] == settled_cmds[i]);
            }
        }
        cmds
    }

    /// Copies of the peers that the overlay can advertise, without those whose
    /// identities `banned` holds.
    fn advertise(&self, with_self: bool, banned: &Vec<PeerId>) -> (pool: Vec<AddressablePeer>)
        requires
            self@.wf(),
        ensures
            pool.deep_view() == excluding(
                advertised(self@, with_self),
                banned@,
                advertised(self@, with_self).len() as int,
            ),
            distinct_peers(pool.deep_view()),
    {
        let mut all = self.active_peers.peers();
        let mut passive = self.passive_peers.peers();
        let ghost first = all.deep_view();
        let ghost second = passive.deep_view();
        all.append(&mut passive);
        assert(all.deep_view() =~= first + second);
        if with_self {
            let ghost both = all.deep_view();
            all.push(self.this_node.clone());
            assert(all.deep_view() =~= both.push(self@.this_node));
        }
        proof {
            lemma_advertised(self@, with_self);
            lemma_excluding(all.deep_view(), banned@, all.len() as int);
        }
        peers_excluding(&all, banned)
    }

    /// Invoked at each shuffle tick that the node takes part in: one active
    /// peer, drawn uniformly, is sent a sample of the peers that this node knows.
    pub fn handle_shuffle_tick(&self) -> (cmds: Vec<Command>)
        requires
            self@.wf(),
        ensures
            shuffle_started(self@, cmds@),
    {
        let mut cmds: Vec<Command> = Vec::new();
        let to = match random_index(self.active_peers.len()) {
            Some(k) => self.active_peers.get(k).peer_id,
            None => {
                return cmds;
            },
        };
        let mut banned: Vec<PeerId> = Vec::new();
        banned.push(to);
        assert(banned@ =~= seq![to]);
        let pool = self.advertise(true, &banned);
        let sample = draw_sample(pool, self.network_config.shuffle_sample_size);
        let ghost drawn = sample.deep_view();
        let shuffle = Shuffle { origin: self.this_node.clone(), hop: 0, peers: sample };
        cmds.push(self.send(to, Action::Shuffle(shuffle)));
        assert(sends(
            cmds@[0],
            to,
            self@.name,
            ActionModel::Shuffle { origin: self@.this_node, hop: 0, peers: drawn },
        ));
        cmds
    }

    /// Merges `peers` into the passive view: each that is not known yet is
    /// offered to the view, a peer drawn uniformly making room where it is full.
    fn merge_passive(&mut self, peers: Vec<AddressablePeer>)
        requires
            old(self)@.wf(),
        ensures
            final(self)@.wf(),
            final(self)@ == (TopicModel { passive: final(self)@.passive, ..old(self)@ }),
            merged(old(self)@, peers.deep_view(), peers.len() as int, final(self)@),
    {
        let ghost models = peers.deep_view();
        let ghost count = peers.len();
        for peer in it: peers.into_iter()
            invariant
                it.seq().len() == count,
                models.len() == count,
                forall|i: int| 0 <= i < count ==> (#[trigger] it.seq()[i])@ == models[i],
                self@.wf(),
                self@ == (TopicModel { passive: self@.passive, ..old(self)@ }),
                merged(old(self)@, models, it.index() as int, self@),
        {
            let ghost n = it.index() as int;
            let ghost mid = self@;
            let id = peer.peer_id;
            assert(peer@ == models[n]);
            if id != self.this_node.peer_id && !self.active_peers.contains(id)
                && !self.passive_peers.contains(id) && !self.promoted_peers.contains(id) {
                self.insert_passive(peer);
            }
            proof {
                lemma_merged_step(old(self)@, models, n, mid, self@);
            }
        }
    }

    /// Handles a `Shuffle`. Before its last hop the shuffle is passed on to
    /// one active peer other than the sender. The node that it ends at
    /// answers the origin with a sample of its own peers that the shuffle
    /// does not name, and notes the peers it names in its passive view.
    pub fn consume_shuffle(&mut self, sender: PeerId, msg: Shuffle) -> (cmds: Vec<Command>)
        requires
            old(self)@.wf(),
        ensures
            final(self)@.wf(),
            final(self)@.active == old(self)@.active,
            shuffle_received(
                old(self)@,
                sender,
                msg.origin@,
                msg.hop,
                msg.peers.deep_view(),
                final(self)@,
                cmds@,
            ),
    {
        let candidates = self.active_peers.ids_except(Some(sender));
        if msg.hop < self.network_config.shuffle_hops_count && candidates.len() > 0 {
            let next = Shuffle { origin: msg.origin, hop: msg.hop + 1, peers: msg.peers };
            return self.relay(sender, Action::Shuffle(next));
        }
        let mut banned: Vec<PeerId> = Vec::new();
        let mut i: usize = 0;
        while i < msg.peers.len()
            invariant
                i <= msg.peers.len(),
                banned@.len() == i,
                forall|k: int| 0 <= k < i ==> banned@[k] == msg.peers.deep_view()[k].peer_id,
            decreases msg.peers.len() - i,
        {
            assert(msg.peers.deep_view()[i as int] == msg.peers[i as int]@);
            banned.push(msg.peers[i].peer_id);
            i += 1;
        }
        assert(banned@ =~= identities(msg.peers.deep_view()));
        let pool = self.advertise(false, &banned);
        let sample = draw_sample(pool, self.network_config.shuffle_passive_size);
        let ghost drawn = sample.deep_view();
        let mut cmds: Vec<Command> = Vec::new();
        cmds.push(self.send(msg.origin.peer_id, Action::ShuffleReply(ShuffleReply { peers: sample })));
        assert(sends(
            cmds@[0],
            msg.origin.peer_id,
            self@.name,
            ActionModel::ShuffleReply { peers: drawn },
        ));
        self.merge_passive(msg.peers);
        proof {
            let pre = old(self)@;
            let peers = msg.peers.deep_view();
            assert(sends(
                cmds@[0],
                msg.origin@.peer_id,
                pre.name,
                ActionModel::ShuffleReply { peers: drawn },
            ));
            assert(merged(pre, peers, peers.len() as int, self@));
        }
        cmds
    }

    /// Handles a `ShuffleReply`: the peers it names are noted in the passive view.
    pub fn consume_shuffle_reply(&mut self, sender: PeerId, msg: ShuffleReply)
        requires
            old(self)@.wf(),
        ensures
            final(self)@.wf(),
            final(self)@ == (TopicModel { passive: final(self)@.passive, ..old(self)@ }),
            merged(old(self)@, msg.peers.deep_view(), msg.peers.len() as int, final(self)@),
    {
        self.merge_passive(msg.peers);
    }

    /// Propagates `data` to the active peers: each is sent the payload as
    /// gossip, all under one fresh random identifier. Nothing is sent where
    /// the active view is empty.
    pub fn gossip(&self, data: Vec<u8>) -> (cmds: Vec<Command>)
        ensures
            exists|id: u128| #[trigger]
                sent_to_each(
                    cmds@,
                    others(self@.active, None),
                    self@.name,
                    Some(id),
                    ActionModel::Gossip { payload: data@ },
                ),
            cmds@.len() == self@.active.len(),
    {
        let id = random_id();
        let cmds = self.gossip_as(id, data);
        proof {
            lemma_others(self@.active, None);
        }
        cmds
    }

    /// Propagates `data` to the active peers under the identifier `id`.
    pub fn gossip_as(&self, id: u128, data: Vec<u8>) -> (cmds: Vec<Command>)
        ensures
            sent_to_each(
                cmds@,
                others(self@.active, None),
                self@.name,
                Some(id),
                ActionModel::Gossip { payload: data@ },
            ),
    {
        self.fan_out(None, Some(id), &Action::Gossip(data))
    }

    /// Invoked when a dial has failed: `addr` is no longer awaited, and a peer
    /// that was being dialed at it for the active view goes back to the passive view.
    pub fn handle_dial_failure(&mut self, addr: &Multiaddr)
        requires
            old(self)@.wf(),
        ensures
            final(self)@.wf(),
            final(self)@.active == old(self)@.active,
            dial_failed(old(self)@, addr@, final(self)@),
    {
        let mut gone: Vec<Multiaddr> = Vec::new();
        gone.push(addr.clone());
        assert(gone.deep_view() =~= seq![addr@]);
        self.settle_dials(&gone);
        let ghost base = self@;
        match self.promoted_peers.find_by_address(addr) {
            Some(k) => {
                let entry = self.promoted_peers.remove_at(k);
                proof {
                    let id = base.promoted[k as int].peer_id;
                    assert(has_peer(base.promoted, id));
                    lemma_remove_peer(base.promoted, k as int);
                    let left = TopicModel { promoted: base.promoted.remove(k as int), ..base };
                    assert(left.wf()) by {
                        assert forall|x: PeerId| #[trigger] has_peer(left.promoted, x) implies !has_peer(
                            left.active,
                            x,
                        ) && !has_peer(left.passive, x) by {
                            assert(has_peer(base.promoted, x));
                        }
                    }
                }
                self.insert_passive(entry);
            },
            None => {},
        }
    }

    /// Handles a message of this topic that `sender` sent.
    pub fn handle_message_received(&mut self, sender: PeerId, msg: Message) -> (out: Effects)
        requires
            old(self)@.wf(),
        ensures
            final(self)@.wf(),
            message_received(old(self)@, sender, msg, final(self)@, out),
            newcomers_addressed(old(self)@.active, final(self)@.active, out.commands@)
                || msg.action is Neighbor,
            forall|id: PeerId|
                #![trigger has_peer(final(self)@.active, id)]
                msg.action is Neighbor && has_peer(final(self)@.active, id) && !has_peer(
                    old(self)@.active,
                    id,
                ) ==> id == sender,
    {
        let id = msg.id;
        match msg.action {
            Action::Join(join) => Effects {
                commands: self.consume_join(sender, join),
                delivered: Vec::new(),
            },
            Action::ForwardJoin(fj) => Effects {
                commands: self.consume_forward_join(sender, fj),
                delivered: Vec::new(),
            },
            Action::Neighbor(n) => Effects {
                commands: self.consume_neighbor(sender, n),
                delivered: Vec::new(),
            },
            Action::Shuffle(s) => Effects {
                commands: self.consume_shuffle(sender, s),
                delivered: Vec::new(),
            },
            Action::ShuffleReply(sr) => {
                self.consume_shuffle_reply(sender, sr);
                Effects { commands: Vec::new(), delivered: Vec::new() }
            },
            Action::Disconnect(d) => Effects {
                commands: self.consume_disconnect(sender, d),
                delivered: Vec::new(),
            },
            Action::Gossip(b) => self.consume_gossip(sender, id, b),
        }
    }

    /// Called when the network layer has a new event for this topic. The
    /// result holds what the topic asks of the network layer in answer, and
    /// what it delivers to its subscribers.
    pub fn inject_event(&mut self, event: Event) -> (out: Effects)
        requires
            old(self)@.wf(),
        ensures
            final(self)@.wf(),
            reacted(old(self)@, event, final(self)@, out),
            forall|id: PeerId|
                #![trigger has_peer(final(self)@.active, id)]
                has_peer(final(self)@.active, id) && !has_peer(old(self)@.active, id) ==> asks_for_place(
                    event,
                    id,
                ) || exists|i: int|
                    0 <= i < out.commands@.len() && addressee(#[trigger] out.commands@[i]) == Some(
                        id,
                    ),
    {
        match event {
            Event::LocalAddressDiscovered(addr) => {
                self.handle_new_local_address(addr);
                Effects { commands: Vec::new(), delivered: Vec::new() }
            },
            Event::PeerConnected(peer) => Effects {
                commands: self.handle_peer_connected(peer),
                delivered: Vec::new(),
            },
            Event::PeerDisconnected(peer, gracefully) => Effects {
                commands: self.handle_peer_disconnected(peer, gracefully),
                delivered: Vec::new(),
            },
            Event::MessageReceived(peer, msg) => self.handle_message_received(peer, msg),
        }
    }

    /// Notes an address at which the local node can be reached. An address
    /// that is known already changes nothing.
    pub fn handle_new_local_address(&mut self, addr: Multiaddr)
        ensures
            final(self)@ == (TopicModel {
                this_node: PeerModel {
                    peer_id: old(self)@.this_node.peer_id,
                    addresses: with_address(old(self)@.this_node.addresses, addr@),
                },
                ..old(self)@
            }),
    {
        if !contains_multiaddr(&self.this_node.addresses, &addr) {
            let ghost before = self.this_node.addresses.deep_view();
            self.this_node.addresses.push(addr);
            assert(self.this_node.addresses.deep_view() =~= before.push(addr@));
        }
    }
}

} // verus!

