//! The messages that the nodes of a topic exchange.

use crate::peer::{clone_peers, AddressablePeer, PeerModel};
use crate::primitives::clone_bytes;
use vstd::prelude::*;

verus! {

/// Sent by a node that wants to join the overlay, to the node it bootstraps from.
#[derive(Debug)]
pub struct Join {
    pub node: AddressablePeer,
}

/// A join request on its way through the overlay.
#[derive(Debug)]
pub struct ForwardJoin {
    pub peer: AddressablePeer,
    pub hop: u16,
}

/// Sent by `peer` to ask for a place in the receiver's active view.
#[derive(Debug)]
pub struct Neighbor {
    pub peer: AddressablePeer,
    pub high_priority: bool,
}

/// A sample of the peers that `origin` knows, on its way through the overlay.
#[derive(Debug)]
pub struct Shuffle {
    pub origin: AddressablePeer,
    pub hop: u16,
    pub peers: Vec<AddressablePeer>,
}

/// The answer to a shuffle: a sample of the peers that the answering node knows.
#[derive(Debug)]
pub struct ShuffleReply {
    pub peers: Vec<AddressablePeer>,
}

/// Tells the receiver that the sender has dropped it from its active view.
#[derive(Debug)]
pub struct Disconnect {}

/// What a message asks of its receiver.
#[derive(Debug)]
pub enum Action {
    Join(Join),
    ForwardJoin(ForwardJoin),
    Neighbor(Neighbor),
    Shuffle(Shuffle),
    ShuffleReply(ShuffleReply),
    Disconnect(Disconnect),
    Gossip(Vec<u8>),
}

/// Mathematical value of an [`Action`].
pub enum ActionModel {
    Join { node: PeerModel },
    ForwardJoin { peer: PeerModel, hop: u16 },
    Neighbor { peer: PeerModel, high_priority: bool },
    Shuffle { origin: PeerModel, hop: u16, peers: Seq<PeerModel> },
    ShuffleReply { peers: Seq<PeerModel> },
    Disconnect,
    Gossip { payload: Seq<u8> },
}

impl DeepView for Action {
    type V = ActionModel;

    open spec fn deep_view(&self) -> ActionModel {
        match self {
            Action::Join(m) => ActionModel::Join { node: m.node@ },
            Action::ForwardJoin(m) => ActionModel::ForwardJoin { peer: m.peer@, hop: m.hop },
            Action::Neighbor(m) => ActionModel::Neighbor {
                peer: m.peer@,
                high_priority: m.high_priority,
            },
            Action::Shuffle(m) => ActionModel::Shuffle {
                origin: m.origin@,
                hop: m.hop,
                peers: m.peers.deep_view(),
            },
            Action::ShuffleReply(m) => ActionModel::ShuffleReply { peers: m.peers.deep_view() },
            Action::Disconnect(_) => ActionModel::Disconnect,
            Action::Gossip(payload) => ActionModel::Gossip { payload: payload@ },
        }
    }
}

impl View for Action {
    type V = ActionModel;

    open spec fn view(&self) -> ActionModel {
        self.deep_view()
    }
}

/// The tag that marks an action on the wire.
pub open spec fn tag_of(action: ActionModel) -> u8 {
    match action {
        ActionModel::Join { .. } => 0,
        ActionModel::ForwardJoin { .. } => 1,
        ActionModel::Neighbor { .. } => 2,
        ActionModel::Shuffle { .. } => 3,
        ActionModel::ShuffleReply { .. } => 4,
        ActionModel::Disconnect => 5,
        ActionModel::Gossip { .. } => 6,
    }
}

impl Action {
    /// The tag that marks this action on the wire.
    pub fn tag(&self) -> (t: u8)
        ensures
            t == tag_of(self@),
    {
        match self {
            Action::Join(_) => 0,
            Action::ForwardJoin(_) => 1,
            Action::Neighbor(_) => 2,
            Action::Shuffle(_) => 3,
            Action::ShuffleReply(_) => 4,
            Action::Disconnect(_) => 5,
            Action::Gossip(_) => 6,
        }
    }
}

impl Clone for Action {
    fn clone(&self) -> (r: Self)
        ensures
            r@ == self@,
    {
        match self {
            Action::Join(m) => Action::Join(Join { node: m.node.clone() }),
            Action::ForwardJoin(m) => Action::ForwardJoin(
                ForwardJoin { peer: m.peer.clone(), hop: m.hop },
            ),
            Action::Neighbor(m) => Action::Neighbor(
                Neighbor { peer: m.peer.clone(), high_priority: m.high_priority },
            ),
            Action::Shuffle(m) => Action::Shuffle(
                Shuffle { origin: m.origin.clone(), hop: m.hop, peers: clone_peers(&m.peers) },
            ),
            Action::ShuffleReply(m) => Action::ShuffleReply(
                ShuffleReply { peers: clone_peers(&m.peers) },
            ),
            Action::Disconnect(_) => Action::Disconnect(Disconnect {  }),
            Action::Gossip(payload) => Action::Gossip(clone_bytes(payload)),
        }
    }
}

/// A message of a topic: what it asks, under an identifier that its sender drew at random.
#[derive(Debug)]
pub struct Message {
    pub id: u128,
    pub topic: String,
    pub action: Action,
}

} // verus!
