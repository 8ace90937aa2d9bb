//! What a topic asks of the network layer.

use crate::peer::{Multiaddr, PeerId};
use crate::wire::{ActionModel, Message};
use vstd::prelude::*;

verus! {

/// A command to the network layer.
#[derive(Debug)]
pub enum Command {
    /// Dial `addr` on behalf of `topic`.
    Connect { addr: Multiaddr, topic: String },
    /// Close the connection that `topic` holds to `peer`.
    Disconnect { peer: PeerId, topic: String },
    /// Deliver `msg` to `peer`.
    SendMessage { peer: PeerId, msg: Message },
}

/// `cmd` sends `peer` a message of `topic` that asks `action`.
pub open spec fn sends(cmd: Command, peer: PeerId, topic: Seq<char>, action: ActionModel) -> bool {
    match cmd {
        Command::SendMessage { peer: to, msg } => to == peer && msg.topic@ == topic && msg.action@
            == action,
        _ => false,
    }
}

/// `cmd` sends `peer` a message of `topic` that asks `action` under the identifier `id`.
pub open spec fn sends_as(
    cmd: Command,
    peer: PeerId,
    topic: Seq<char>,
    id: u128,
    action: ActionModel,
) -> bool {
    match cmd {
        Command::SendMessage { peer: to, msg } => to == peer && msg.topic@ == topic && msg.id == id
            && msg.action@ == action,
        _ => false,
    }
}

/// `cmd` asks to dial `addr` on behalf of `topic`.
pub open spec fn dials(cmd: Command, addr: Seq<char>, topic: Seq<char>) -> bool {
    match cmd {
        Command::Connect { addr: a, topic: t } => a@ == addr && t@ == topic,
        _ => false,
    }
}

/// `cmd` asks to close the connection of `topic` to `peer`.
pub open spec fn hangs_up(cmd: Command, peer: PeerId, topic: Seq<char>) -> bool {
    match cmd {
        Command::Disconnect { peer: p, topic: t } => p == peer && t@ == topic,
        _ => false,
    }
}

/// The peer that `cmd` addresses by its identity, if it addresses one.
pub open spec fn addressee(cmd: Command) -> Option<PeerId> {
    match cmd {
        Command::Connect { .. } => None,
        Command::Disconnect { peer, .. } => Some(peer),
        Command::SendMessage { peer, .. } => Some(peer),
    }
}

} // verus!
