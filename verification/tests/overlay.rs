use anoma_core::config::Config as Options;
use anoma_core::network::Command;
use anoma_core::peer::{AddressablePeer, Multiaddr, PeerId};
use anoma_core::topic::{Config, Effects, Event, Topic};
use anoma_core::wire::{
    Action, Disconnect, ForwardJoin, Join, Message, Neighbor, Shuffle, ShuffleReply,
};

fn options(min_active: usize, max_active: usize, max_passive: usize) -> Options {
    Options {
        min_active_view_size: min_active,
        max_active_view_size: max_active,
        max_passive_view_size: max_passive,
        forward_join_hops_count: 2,
        shuffle_interval_millis: 1000,
        shuffle_sample_size: 3,
        shuffle_passive_size: 2,
        shuffle_hops_count: 2,
    }
}

fn id(n: u128) -> PeerId {
    PeerId { hi: 0, lo: n }
}

fn addr(n: u128) -> Multiaddr {
    Multiaddr { text: format!("/ip4/10.0.0.{}/tcp/4001", n) }
}

fn peer(n: u128) -> AddressablePeer {
    AddressablePeer { peer_id: id(n), addresses: vec![addr(n)] }
}

fn topic(n: u128, opts: Options, bootstrap: Vec<Multiaddr>) -> (Topic, Vec<Command>) {
    Topic::new(Config { name: "blocks".to_string(), bootstrap }, opts, peer(n))
}

fn message(action: Action) -> Message {
    Message { id: 99, topic: "blocks".to_string(), action }
}

fn ids_of(table: &anoma_core::membership::PeerTable) -> Vec<u128> {
    let mut out = vec![];
    for i in 0..table.len() {
        out.push(table.get(i).peer_id.lo);
    }
    out.sort();
    out
}

/// The invariants of the overlay, checked on the state as it is.
fn assert_invariants(t: &Topic, opts: &Options) {
    let active = ids_of(t.active_peers());
    let passive = ids_of(t.passive_peers());
    let promoted = ids_of(t.promoted_peers());
    let me = t.this_node().peer_id.lo;
    for a in &active {
        assert!(!passive.contains(a), "peer {a} is in both views");
        assert!(!promoted.contains(a), "peer {a} is active and promoted");
    }
    for p in &promoted {
        assert!(!passive.contains(p), "peer {p} is passive and promoted");
    }
    // an active view whose bound is nought may hold the one peer it had to grant a place
    assert!(active.len() <= opts.max_active_view_size.max(1));
    assert!(passive.len() <= opts.max_passive_view_size);
    assert!(!active.contains(&me) && !passive.contains(&me) && !promoted.contains(&me));
    let mut unique = active.clone();
    unique.dedup();
    assert_eq!(unique.len(), active.len());
    let mut unique = passive.clone();
    unique.dedup();
    assert_eq!(unique.len(), passive.len());
}

fn sent(cmd: &Command) -> (u128, &Action) {
    match cmd {
        Command::SendMessage { peer, msg } => {
            assert_eq!(msg.topic, "blocks");
            (peer.lo, &msg.action)
        }
        other => panic!("not a message: {:?}", other),
    }
}

#[test]
fn options_without_room_for_active_peers_are_taken() {
    let opts = options(0, 0, 4);
    let (mut t, dials) = topic(1, opts, vec![addr(2), addr(3)]);
    assert_eq!(dials.len(), 2);
    assert_eq!(t.pending_dials().len(), 2);
    // a join finds the view saturated: it is not admitted
    let cmds = t.consume_join(id(2), Join { node: peer(2) });
    assert!(cmds.is_empty());
    assert_eq!(t.active_peers().len(), 0);
    // a request of high priority is granted whatever the bound
    let cmds = t.consume_neighbor(id(3), Neighbor { peer: peer(3), high_priority: true });
    assert!(cmds.is_empty());
    assert_eq!(ids_of(t.active_peers()), vec![3]);
    // and the next one makes the first give way
    let cmds = t.consume_neighbor(id(4), Neighbor { peer: peer(4), high_priority: true });
    assert_eq!(cmds.len(), 1);
    assert!(matches!(sent(&cmds[0]), (3, Action::Disconnect(_))));
    assert_eq!(ids_of(t.active_peers()), vec![4]);
    assert_eq!(ids_of(t.passive_peers()), vec![3]);
    // one of low priority is refused
    let cmds = t.consume_neighbor(id(5), Neighbor { peer: peer(5), high_priority: false });
    assert!(matches!(sent(&cmds[0]), (5, Action::Disconnect(_))));
    assert_invariants(&t, &opts);
}

#[test]
fn repeated_join_notes_the_new_addresses() {
    let opts = options(1, 4, 8);
    let (mut a, _) = topic(1, opts, vec![]);
    a.consume_join(id(2), Join { node: peer(2) });
    a.consume_join(id(3), Join { node: peer(3) });
    let moved = AddressablePeer { peer_id: id(2), addresses: vec![addr(22), addr(23)] };
    let cmds = a.consume_join(id(2), Join { node: moved });
    assert_eq!(a.active_peers().len(), 2);
    let held: Vec<String> =
        a.active_peers().get(0).addresses.iter().map(|x| x.text.clone()).collect();
    assert_eq!(a.active_peers().get(0).peer_id, id(2));
    assert_eq!(held, vec![addr(22).text, addr(23).text]);
    assert_eq!(cmds.len(), 2);
    assert!(matches!(sent(&cmds[0]), (2, Action::Neighbor(n)) if n.high_priority));
    match sent(&cmds[1]) {
        (3, Action::ForwardJoin(fj)) => assert_eq!(fj.peer.addresses.len(), 2),
        other => panic!("not a forwarded join: {:?}", other),
    }
}

#[test]
fn forward_join_at_last_hop_welcomes_an_active_peer_again() {
    let opts = options(1, 4, 8);
    let (mut a, _) = topic(1, opts, vec![]);
    a.consume_join(id(2), Join { node: peer(2) });
    a.consume_join(id(3), Join { node: peer(3) });
    let cmds = a.consume_forward_join(id(2), ForwardJoin { peer: peer(3), hop: 2 });
    assert_eq!(ids_of(a.active_peers()), vec![2, 3]);
    assert_eq!(cmds.len(), 2);
    assert!(matches!(sent(&cmds[0]), (3, Action::Neighbor(n)) if n.high_priority));
    assert!(matches!(sent(&cmds[1]), (3, Action::ForwardJoin(fj)) if fj.hop == 3));
}

#[test]
fn bootstrap_dials_every_address() {
    let (t, cmds) = topic(1, options(1, 4, 8), vec![addr(2), addr(3), addr(2)]);
    assert_eq!(cmds.len(), 3);
    let dialed: Vec<String> = cmds
        .iter()
        .map(|c| match c {
            Command::Connect { addr, topic } => {
                assert_eq!(topic, "blocks");
                addr.text.clone()
            }
            other => panic!("not a dial: {:?}", other),
        })
        .collect();
    assert_eq!(dialed, vec![addr(2).text, addr(3).text, addr(2).text]);
    let pending: Vec<String> = t.pending_dials().iter().map(|a| a.text.clone()).collect();
    assert_eq!(pending, vec![addr(2).text, addr(3).text]);
    assert_eq!(t.active_peers().len(), 0);
    assert_eq!(t.passive_peers().len(), 0);
}

#[test]
fn local_address_is_noted_once() {
    let (mut t, _) = topic(1, options(1, 4, 8), vec![]);
    t.handle_new_local_address(addr(7));
    t.handle_new_local_address(addr(7));
    let out = t.inject_event(Event::LocalAddressDiscovered(addr(8)));
    assert!(out.commands.is_empty() && out.delivered.is_empty());
    let known: Vec<String> = t.this_node().addresses.iter().map(|a| a.text.clone()).collect();
    assert_eq!(known, vec![addr(1).text, addr(7).text, addr(8).text]);
}

#[test]
fn starved_node_joins_through_connected_peer() {
    let (mut t, _) = topic(2, options(1, 4, 8), vec![addr(1)]);
    let cmds = t.handle_peer_connected(peer(1));
    assert_eq!(cmds.len(), 1);
    let (to, action) = sent(&cmds[0]);
    assert_eq!(to, 1);
    match action {
        Action::Join(join) => assert_eq!(join.node.peer_id, id(2)),
        other => panic!("not a join: {:?}", other),
    }
    assert!(t.pending_dials().is_empty());
}

#[test]
fn satisfied_node_does_not_join() {
    let (mut t, _) = topic(2, options(0, 4, 8), vec![addr(1)]);
    let cmds = t.handle_peer_connected(peer(1));
    assert!(cmds.is_empty());
    assert!(t.pending_dials().is_empty());
}

#[test]
fn two_nodes_become_neighbors() {
    let opts = options(1, 4, 8);
    let (mut a, _) = topic(1, opts, vec![]);
    let (mut b, dials) = topic(2, opts, vec![addr(1)]);
    assert_eq!(dials.len(), 1);

    // the connection stands: B asks A to join
    let to_a = b.inject_event(Event::PeerConnected(peer(1))).commands;
    assert_eq!(to_a.len(), 1);
    let join = match to_a.into_iter().next().unwrap() {
        Command::SendMessage { peer, msg } => {
            assert_eq!(peer, id(1));
            msg
        }
        other => panic!("not a message: {:?}", other),
    };
    assert!(matches!(join.action, Action::Join(_)));

    // A receives the join, answers with a neighbor request of high priority
    let to_b = a.inject_event(Event::MessageReceived(id(2), join)).commands;
    assert_eq!(ids_of(a.active_peers()), vec![2]);
    assert_eq!(to_b.len(), 1);
    let neighbor = match to_b.into_iter().next().unwrap() {
        Command::SendMessage { peer, msg } => {
            assert_eq!(peer, id(2));
            msg
        }
        other => panic!("not a message: {:?}", other),
    };
    match &neighbor.action {
        Action::Neighbor(n) => {
            assert!(n.high_priority);
            assert_eq!(n.peer.peer_id, id(1));
        }
        other => panic!("not a neighbor request: {:?}", other),
    }

    // one round trip after its join, B holds A
    let out = b.inject_event(Event::MessageReceived(id(1), neighbor));
    assert!(out.commands.is_empty());
    assert_eq!(ids_of(b.active_peers()), vec![1]);
    assert_invariants(&a, &opts);
    assert_invariants(&b, &opts);
}

#[test]
fn join_is_forwarded_to_the_other_active_peers() {
    let opts = options(1, 4, 8);
    let (mut a, _) = topic(1, opts, vec![]);
    a.consume_join(id(2), Join { node: peer(2) });
    a.consume_join(id(3), Join { node: peer(3) });
    let cmds = a.consume_join(id(4), Join { node: peer(4) });
    assert_eq!(ids_of(a.active_peers()), vec![2, 3, 4]);
    assert_eq!(cmds.len(), 3);
    assert!(matches!(sent(&cmds[0]), (4, Action::Neighbor(n)) if n.high_priority));
    for (cmd, expected) in cmds[1..].iter().zip([2u128, 3]) {
        match sent(cmd) {
            (to, Action::ForwardJoin(fj)) => {
                assert_eq!(to, expected);
                assert_eq!(fj.peer.peer_id, id(4));
                assert_eq!(fj.hop, 0);
            }
            other => panic!("not a forwarded join: {:?}", other),
        }
    }
}

#[test]
fn saturated_node_forwards_a_join_without_admitting() {
    let opts = options(1, 2, 8);
    let (mut a, _) = topic(1, opts, vec![]);
    a.consume_join(id(2), Join { node: peer(2) });
    a.consume_join(id(3), Join { node: peer(3) });
    let cmds = a.consume_join(id(4), Join { node: peer(4) });
    assert_eq!(ids_of(a.active_peers()), vec![2, 3]);
    assert_eq!(cmds.len(), 2);
    assert!(cmds.iter().all(|c| matches!(sent(c).1, Action::ForwardJoin(_))));
}

#[test]
fn own_join_is_ignored() {
    let (mut a, _) = topic(1, options(1, 4, 8), vec![]);
    let cmds = a.consume_join(id(1), Join { node: peer(1) });
    assert!(cmds.is_empty());
    assert_eq!(a.active_peers().len(), 0);
}

#[test]
fn forward_join_at_last_hop_is_admitted() {
    let opts = options(1, 4, 8);
    let (mut a, _) = topic(1, opts, vec![]);
    a.consume_join(id(2), Join { node: peer(2) });
    a.consume_join(id(3), Join { node: peer(3) });
    let cmds = a.consume_forward_join(id(2), ForwardJoin { peer: peer(5), hop: 2 });
    assert_eq!(ids_of(a.active_peers()), vec![2, 3, 5]);
    assert!(matches!(sent(&cmds[0]), (5, Action::Neighbor(n)) if n.high_priority));
    // passed on at the next hop to an active peer other than the sender
    assert_eq!(cmds.len(), 2);
    match sent(&cmds[1]) {
        (to, Action::ForwardJoin(fj)) => {
            assert!(to == 3 || to == 5);
            assert_eq!(fj.hop, 3);
            assert_eq!(fj.peer.peer_id, id(5));
        }
        other => panic!("not a forwarded join: {:?}", other),
    }
}

#[test]
fn forward_join_before_last_hop_is_noted_in_passive_view() {
    let opts = options(1, 4, 8);
    let (mut a, _) = topic(1, opts, vec![]);
    a.consume_join(id(2), Join { node: peer(2) });
    a.consume_join(id(3), Join { node: peer(3) });
    let cmds = a.consume_forward_join(id(2), ForwardJoin { peer: peer(5), hop: 0 });
    assert_eq!(ids_of(a.active_peers()), vec![2, 3]);
    assert_eq!(ids_of(a.passive_peers()), vec![5]);
    assert_eq!(cmds.len(), 1);
    assert!(matches!(sent(&cmds[0]), (3, Action::ForwardJoin(fj)) if fj.hop == 1));
}

#[test]
fn forward_join_to_a_lonely_node_is_admitted() {
    let opts = options(1, 4, 8);
    let (mut a, _) = topic(1, opts, vec![]);
    a.consume_join(id(2), Join { node: peer(2) });
    let cmds = a.consume_forward_join(id(2), ForwardJoin { peer: peer(5), hop: 0 });
    assert_eq!(ids_of(a.active_peers()), vec![2, 5]);
    assert!(matches!(sent(&cmds[0]), (5, Action::Neighbor(_))));
}

#[test]
fn forward_join_at_saturated_last_hop_makes_room() {
    let opts = options(1, 2, 8);
    let (mut a, _) = topic(1, opts, vec![]);
    a.consume_join(id(2), Join { node: peer(2) });
    a.consume_join(id(3), Join { node: peer(3) });
    let cmds = a.consume_forward_join(id(2), ForwardJoin { peer: peer(5), hop: 2 });
    // the only active peer other than the sender makes room
    assert_eq!(ids_of(a.active_peers()), vec![2, 5]);
    assert_eq!(ids_of(a.passive_peers()), vec![3]);
    assert!(matches!(sent(&cmds[0]), (3, Action::Disconnect(_))));
    assert!(matches!(sent(&cmds[1]), (5, Action::Neighbor(n)) if n.high_priority));
    assert_invariants(&a, &opts);
}

#[test]
fn forward_join_stops_at_the_hop_limit() {
    let opts = options(1, 4, 8);
    let (mut a, _) = topic(1, opts, vec![]);
    a.consume_join(id(2), Join { node: peer(2) });
    a.consume_join(id(3), Join { node: peer(3) });
    let cmds = a.consume_forward_join(id(2), ForwardJoin { peer: peer(5), hop: u16::MAX });
    assert!(cmds.is_empty());
    assert_eq!(ids_of(a.passive_peers()), vec![5]);
}

#[test]
fn neighbor_of_low_priority_is_refused_when_saturated() {
    let opts = options(1, 1, 8);
    let (mut a, _) = topic(1, opts, vec![]);
    a.consume_join(id(2), Join { node: peer(2) });
    let cmds = a.consume_neighbor(id(3), Neighbor { peer: peer(3), high_priority: false });
    assert_eq!(ids_of(a.active_peers()), vec![2]);
    assert_eq!(ids_of(a.passive_peers()), vec![3]);
    assert_eq!(cmds.len(), 1);
    assert!(matches!(sent(&cmds[0]), (3, Action::Disconnect(_))));
}

#[test]
fn neighbor_of_high_priority_makes_room() {
    let opts = options(1, 2, 8);
    let (mut a, _) = topic(1, opts, vec![]);
    a.consume_join(id(2), Join { node: peer(2) });
    a.consume_join(id(3), Join { node: peer(3) });
    let cmds = a.consume_neighbor(id(4), Neighbor { peer: peer(4), high_priority: true });
    let active = ids_of(a.active_peers());
    let passive = ids_of(a.passive_peers());
    assert_eq!(active.len(), 2);
    assert!(active.contains(&4));
    assert_eq!(passive.len(), 1);
    assert!(passive[0] == 2 || passive[0] == 3);
    assert_eq!(cmds.len(), 1);
    match sent(&cmds[0]) {
        (to, Action::Disconnect(_)) => assert_eq!(to, passive[0]),
        other => panic!("not a disconnect: {:?}", other),
    }
    assert_invariants(&a, &opts);
}

#[test]
fn neighbor_of_low_priority_is_granted_when_there_is_room() {
    let opts = options(1, 2, 8);
    let (mut a, _) = topic(1, opts, vec![]);
    let cmds = a.consume_neighbor(id(4), Neighbor { peer: peer(4), high_priority: false });
    assert!(cmds.is_empty());
    assert_eq!(ids_of(a.active_peers()), vec![4]);
}

#[test]
fn graceful_disconnect_moves_peer_to_passive_and_promotes() {
    let opts = options(1, 4, 8);
    let (mut a, _) = topic(1, opts, vec![]);
    a.consume_join(id(3), Join { node: peer(3) });
    let cmds = a.inject_event(Event::PeerDisconnected(id(3), true)).commands;
    // C left the active view; A is starved and dials the one peer it has in reserve
    assert_eq!(a.active_peers().len(), 0);
    assert_eq!(a.passive_peers().len(), 0);
    assert_eq!(ids_of(a.promoted_peers()), vec![3]);
    assert_eq!(cmds.len(), 1);
    assert!(matches!(&cmds[0], Command::Connect { addr: dialed, .. } if dialed.text == addr(3).text));
    assert_eq!(a.pending_dials().len(), 1);

    // once the connection stands, the promoted peer is asked with high priority
    let cmds = a.inject_event(Event::PeerConnected(peer(3))).commands;
    assert_eq!(cmds.len(), 1);
    assert!(matches!(sent(&cmds[0]), (3, Action::Neighbor(n)) if n.high_priority));
    assert_eq!(ids_of(a.active_peers()), vec![3]);
    assert_eq!(a.promoted_peers().len(), 0);
    assert!(a.pending_dials().is_empty());
    assert_invariants(&a, &opts);
}

#[test]
fn graceful_disconnect_without_starvation_only_demotes() {
    let opts = options(1, 4, 8);
    let (mut a, _) = topic(1, opts, vec![]);
    a.consume_join(id(2), Join { node: peer(2) });
    a.consume_join(id(3), Join { node: peer(3) });
    let cmds = a.handle_peer_disconnected(id(3), true);
    assert!(cmds.is_empty());
    assert_eq!(ids_of(a.active_peers()), vec![2]);
    assert_eq!(ids_of(a.passive_peers()), vec![3]);
}

#[test]
fn abrupt_disconnect_forgets_the_peer() {
    let opts = options(0, 4, 8);
    let (mut a, _) = topic(1, opts, vec![]);
    a.consume_join(id(3), Join { node: peer(3) });
    let cmds = a.handle_peer_disconnected(id(3), false);
    assert!(cmds.is_empty());
    assert_eq!(a.active_peers().len(), 0);
    assert_eq!(a.passive_peers().len(), 0);
}

#[test]
fn promoted_peer_that_fails_to_connect_returns_to_passive() {
    let opts = options(1, 4, 8);
    let (mut a, _) = topic(1, opts, vec![]);
    a.consume_join(id(3), Join { node: peer(3) });
    a.handle_peer_disconnected(id(3), true);
    assert_eq!(ids_of(a.promoted_peers()), vec![3]);
    a.handle_dial_failure(&addr(3));
    assert_eq!(a.promoted_peers().len(), 0);
    assert_eq!(ids_of(a.passive_peers()), vec![3]);
    assert!(a.pending_dials().is_empty());

    a.handle_peer_disconnected(id(9), true);
    assert_eq!(ids_of(a.passive_peers()), vec![3]);
}

#[test]
fn disconnect_message_demotes_and_hangs_up() {
    let opts = options(0, 4, 8);
    let (mut a, _) = topic(1, opts, vec![]);
    a.consume_join(id(2), Join { node: peer(2) });
    let cmds = a.consume_disconnect(id(2), Disconnect {});
    assert_eq!(cmds.len(), 1);
    assert!(
        matches!(&cmds[0], Command::Disconnect { peer, topic } if *peer == id(2) && topic == "blocks")
    );
    assert_eq!(a.active_peers().len(), 0);
    assert_eq!(ids_of(a.passive_peers()), vec![2]);
    assert!(a.consume_disconnect(id(2), Disconnect {}).is_empty());
}

#[test]
fn initiated_disconnect_tells_the_peer() {
    let opts = options(0, 4, 8);
    let (mut a, _) = topic(1, opts, vec![]);
    a.consume_join(id(2), Join { node: peer(2) });
    let cmds = a.disconnect(id(2));
    assert_eq!(cmds.len(), 1);
    assert!(matches!(sent(&cmds[0]), (2, Action::Disconnect(_))));
    assert_eq!(ids_of(a.passive_peers()), vec![2]);
    assert!(a.disconnect(id(2)).is_empty());
}

#[test]
fn gossip_is_delivered_once() {
    let opts = options(1, 4, 8);
    let (mut a, _) = topic(1, opts, vec![]);
    a.consume_join(id(2), Join { node: peer(2) });
    a.consume_join(id(3), Join { node: peer(3) });
    let first = a.inject_event(Event::MessageReceived(
        id(2),
        Message { id: 42, topic: "blocks".to_string(), action: Action::Gossip(vec![1, 2, 3]) },
    ));
    assert_eq!(first.delivered, vec![vec![1, 2, 3]]);
    // passed on to every active peer but the sender, under the same identifier
    assert_eq!(first.commands.len(), 1);
    match &first.commands[0] {
        Command::SendMessage { peer, msg } => {
            assert_eq!(*peer, id(3));
            assert_eq!(msg.id, 42);
            assert!(matches!(&msg.action, Action::Gossip(bytes) if bytes == &vec![1, 2, 3]));
        }
        other => panic!("not a message: {:?}", other),
    }
    let second = a.inject_event(Event::MessageReceived(
        id(3),
        Message { id: 42, topic: "blocks".to_string(), action: Action::Gossip(vec![1, 2, 3]) },
    ));
    assert!(second.delivered.is_empty());
    assert!(second.commands.is_empty());
}

#[test]
fn published_gossip_goes_to_every_active_peer_under_one_id() {
    let opts = options(1, 4, 8);
    let (mut a, _) = topic(1, opts, vec![]);
    assert!(a.gossip(vec![9]).is_empty());
    a.consume_join(id(2), Join { node: peer(2) });
    a.consume_join(id(3), Join { node: peer(3) });
    let cmds = a.gossip(vec![9, 9]);
    assert_eq!(cmds.len(), 2);
    let mut seen_ids = vec![];
    for (cmd, expected) in cmds.iter().zip([2u128, 3]) {
        match cmd {
            Command::SendMessage { peer, msg } => {
                assert_eq!(peer.lo, expected);
                assert!(matches!(&msg.action, Action::Gossip(bytes) if bytes == &vec![9, 9]));
                seen_ids.push(msg.id);
            }
            other => panic!("not a message: {:?}", other),
        }
    }
    assert_eq!(seen_ids[0], seen_ids[1]);
    let fixed = a.gossip_as(7, vec![1]);
    assert!(fixed.iter().all(|c| matches!(c, Command::SendMessage { msg, .. } if msg.id == 7)));
}

#[test]
fn fresh_identifiers_differ() {
    let opts = options(1, 4, 8);
    let (mut a, _) = topic(1, opts, vec![]);
    a.consume_join(id(2), Join { node: peer(2) });
    let mut seen = std::collections::HashSet::new();
    for _ in 0..32 {
        match &a.gossip(vec![1])[0] {
            Command::SendMessage { msg, .. } => {
                seen.insert(msg.id);
            }
            other => panic!("not a message: {:?}", other),
        }
    }
    assert!(seen.len() > 1);
}

#[test]
fn passive_view_keeps_its_bound() {
    let opts = options(1, 4, 3);
    let (mut a, _) = topic(1, opts, vec![]);
    for n in 10..40 {
        a.insert_passive(peer(n));
        assert_invariants(&a, &opts);
    }
    assert_eq!(a.passive_peers().len(), 3);
    // the local node and active peers are not taken
    a.consume_join(id(2), Join { node: peer(2) });
    a.insert_passive(peer(1));
    a.insert_passive(peer(2));
    assert_invariants(&a, &opts);
}

#[test]
fn full_passive_view_evicts_the_drawn_peer() {
    let opts = options(1, 4, 2);
    let (mut a, _) = topic(1, opts, vec![]);
    a.admit_passive(peer(10), 0);
    a.admit_passive(peer(11), 0);
    a.admit_passive(peer(12), 1);
    let held: Vec<u128> = (0..2).map(|i| a.passive_peers().get(i).peer_id.lo).collect();
    assert_eq!(held, vec![10, 12]);
    // a draw beyond the view drops the newcomer
    a.admit_passive(peer(13), 2);
    assert_eq!(ids_of(a.passive_peers()), vec![10, 12]);
    // a peer that is held already has its addresses replaced
    a.admit_passive(AddressablePeer { peer_id: id(10), addresses: vec![addr(77)] }, 0);
    assert_eq!(a.passive_peers().get(0).addresses[0].text, addr(77).text);
}

#[test]
fn random_eviction_reaches_every_position() {
    let opts = options(1, 4, 2);
    let mut outcomes = std::collections::HashSet::new();
    for _ in 0..200 {
        let (mut a, _) = topic(1, opts, vec![]);
        a.insert_passive(peer(10));
        a.insert_passive(peer(11));
        a.insert_passive(peer(12));
        outcomes.insert(ids_of(a.passive_peers()));
    }
    assert_eq!(outcomes.len(), 3);
}

#[test]
fn shuffle_tick_sends_a_sample_to_an_active_peer() {
    let opts = options(1, 4, 8);
    let (mut a, _) = topic(1, opts, vec![]);
    assert!(a.handle_shuffle_tick().is_empty());
    a.consume_join(id(2), Join { node: peer(2) });
    a.consume_join(id(3), Join { node: peer(3) });
    a.admit_passive(peer(4), 0);
    a.admit_passive(peer(5), 0);
    let cmds = a.handle_shuffle_tick();
    assert_eq!(cmds.len(), 1);
    match sent(&cmds[0]) {
        (to, Action::Shuffle(shuffle)) => {
            assert!(to == 2 || to == 3);
            assert_eq!(shuffle.origin.peer_id, id(1));
            assert_eq!(shuffle.hop, 0);
            assert_eq!(shuffle.peers.len(), 3);
            let mut named: Vec<u128> = shuffle.peers.iter().map(|p| p.peer_id.lo).collect();
            named.sort();
            named.dedup();
            assert_eq!(named.len(), 3);
            assert!(named.iter().all(|n| [1, 2, 3, 4, 5].contains(n) && *n != to));
        }
        other => panic!("not a shuffle: {:?}", other),
    }
}

#[test]
fn shuffle_is_passed_on_before_its_last_hop() {
    let opts = options(1, 4, 8);
    let (mut a, _) = topic(1, opts, vec![]);
    a.consume_join(id(2), Join { node: peer(2) });
    a.consume_join(id(3), Join { node: peer(3) });
    let cmds =
        a.consume_shuffle(id(2), Shuffle { origin: peer(9), hop: 0, peers: vec![peer(7)] });
    assert_eq!(cmds.len(), 1);
    match sent(&cmds[0]) {
        (3, Action::Shuffle(s)) => {
            assert_eq!(s.hop, 1);
            assert_eq!(s.origin.peer_id, id(9));
            assert_eq!(s.peers.len(), 1);
        }
        other => panic!("not a shuffle passed on: {:?}", other),
    }
    assert_eq!(a.passive_peers().len(), 0);
}

#[test]
fn shuffle_at_its_last_hop_is_answered_and_merged() {
    let opts = options(1, 4, 8);
    let (mut a, _) = topic(1, opts, vec![]);
    a.consume_join(id(2), Join { node: peer(2) });
    a.consume_join(id(3), Join { node: peer(3) });
    a.admit_passive(peer(4), 0);
    let cmds = a.consume_shuffle(
        id(2),
        Shuffle { origin: peer(9), hop: 2, peers: vec![peer(1), peer(2), peer(4), peer(7)] },
    );
    assert_eq!(cmds.len(), 1);
    match sent(&cmds[0]) {
        (9, Action::ShuffleReply(reply)) => {
            // of the peers known here, only 3 is not named by the shuffle
            let named: Vec<u128> = reply.peers.iter().map(|p| p.peer_id.lo).collect();
            assert_eq!(named, vec![3]);
        }
        other => panic!("not a shuffle reply: {:?}", other),
    }
    assert_eq!(ids_of(a.passive_peers()), vec![4, 7]);
    assert_invariants(&a, &opts);
}

#[test]
fn shuffle_reply_is_merged_into_passive_view() {
    let opts = options(1, 4, 3);
    let (mut a, _) = topic(1, opts, vec![]);
    a.consume_join(id(2), Join { node: peer(2) });
    let out = a.inject_event(Event::MessageReceived(
        id(2),
        message(Action::ShuffleReply(ShuffleReply {
            peers: vec![peer(1), peer(2), peer(5), peer(6), peer(7), peer(8)],
        })),
    ));
    assert!(out.commands.is_empty());
    let passive = ids_of(a.passive_peers());
    assert_eq!(passive.len(), 3);
    assert!(passive.iter().all(|n| [5, 6, 7, 8].contains(n)));
    assert_invariants(&a, &opts);
}

/// A network of topics that delivers every command at once.
struct Net {
    nodes: Vec<Topic>,
    queue: std::collections::VecDeque<(usize, Event)>,
    delivered: u64,
}

impl Net {
    fn index_of(&self, peer: PeerId) -> Option<usize> {
        let n = peer.lo as usize;
        if n >= 1 && n <= self.nodes.len() {
            Some(n - 1)
        } else {
            None
        }
    }

    fn carry_out(&mut self, from: usize, effects: Effects) {
        let me = peer(from as u128 + 1);
        for cmd in effects.commands {
            match cmd {
                Command::Connect { addr: dialed, .. } => {
                    for n in 1..=self.nodes.len() as u128 {
                        if addr(n).text == dialed.text {
                            self.queue.push_back((from, Event::PeerConnected(peer(n))));
                            self.queue
                                .push_back((n as usize - 1, Event::PeerConnected(me.clone())));
                        }
                    }
                }
                Command::Disconnect { peer: other, .. } => {
                    if let Some(to) = self.index_of(other) {
                        self.queue.push_back((from, Event::PeerDisconnected(other, true)));
                        self.queue.push_back((to, Event::PeerDisconnected(me.peer_id, true)));
                    }
                }
                Command::SendMessage { peer: other, msg } => {
                    if let Some(to) = self.index_of(other) {
                        self.queue.push_back((to, Event::MessageReceived(me.peer_id, msg)));
                    }
                }
            }
        }
    }

    fn run(&mut self, opts: &Options) {
        while let Some((to, event)) = self.queue.pop_front() {
            let effects = self.nodes[to].inject_event(event);
            self.delivered += 1;
            self.carry_out(to, effects);
            if self.delivered % 1024 == 0 {
                for node in &self.nodes {
                    assert_invariants(node, opts);
                }
            }
        }
    }
}

#[test]
fn five_nodes_bootstrapping_from_one_are_all_connected() {
    let mut opts = options(1, 4, 8);
    opts.forward_join_hops_count = 2;
    let mut net = Net { nodes: vec![], queue: Default::default(), delivered: 0 };
    let mut dials = vec![];
    for n in 1..=5u128 {
        let bootstrap = if n == 1 { vec![] } else { vec![addr(1)] };
        let (t, cmds) = topic(n, opts, bootstrap);
        net.nodes.push(t);
        dials.push(cmds);
    }
    for (from, cmds) in dials.into_iter().enumerate() {
        net.carry_out(from, Effects { commands: cmds, delivered: vec![] });
        net.run(&opts);
    }
    for node in &net.nodes {
        assert_invariants(node, &opts);
        assert!(node.active_peers().len() >= opts.min_active_view_size);
        assert!(!node.starved());
    }
    assert_eq!(ids_of(net.nodes[0].active_peers()), vec![2, 3, 4, 5]);
    for node in &net.nodes[1..] {
        assert!(node.is_active(&id(1)));
    }
}

#[test]
fn invariants_hold_under_a_storm_of_events() {
    let opts = options(2, 3, 4);
    let (mut a, _) = topic(1, opts, vec![addr(2), addr(3)]);
    let mut seed: u64 = 0x9E3779B97F4A7C15;
    let mut next = move |bound: u64| {
        seed = seed.wrapping_mul(6364136223846793005).wrapping_add(1442695040888963407);
        (seed >> 33) % bound
    };
    for round in 0..4000u128 {
        let who = next(12) as u128 + 1;
        let other = next(12) as u128 + 1;
        let event = match next(11) {
            0 => Event::PeerConnected(peer(who)),
            1 => Event::PeerDisconnected(id(who), next(2) == 0),
            2 => Event::LocalAddressDiscovered(addr(100 + who)),
            3 => Event::MessageReceived(id(who), message(Action::Join(Join { node: peer(who) }))),
            4 => Event::MessageReceived(
                id(who),
                message(Action::ForwardJoin(ForwardJoin { peer: peer(other), hop: next(4) as u16 })),
            ),
            5 => Event::MessageReceived(
                id(who),
                message(Action::Neighbor(Neighbor { peer: peer(who), high_priority: next(2) == 0 })),
            ),
            6 => Event::MessageReceived(
                id(who),
                message(Action::Shuffle(Shuffle {
                    origin: peer(other),
                    hop: next(4) as u16,
                    peers: vec![peer(next(12) as u128 + 1), peer(next(12) as u128 + 1)],
                })),
            ),
            7 => Event::MessageReceived(
                id(who),
                message(Action::ShuffleReply(ShuffleReply {
                    peers: vec![peer(other), peer(next(12) as u128 + 1)],
                })),
            ),
            8 => Event::MessageReceived(id(who), message(Action::Disconnect(Disconnect {}))),
            9 => Event::MessageReceived(
                id(who),
                Message {
                    id: round % 7,
                    topic: "blocks".to_string(),
                    action: Action::Gossip(vec![round as u8]),
                },
            ),
            _ => {
                a.handle_shuffle_tick();
                a.handle_dial_failure(&addr(who));
                Event::PeerDisconnected(id(other), true)
            }
        };
        let before = ids_of(a.active_peers());
        let asks_for_place = matches!(
            &event,
            Event::MessageReceived(_, Message { action: Action::Neighbor(_), .. })
        );
        let out = a.inject_event(event);
        assert_invariants(&a, &opts);
        // whoever entered the active view was addressed, or had asked for its place
        for entered in ids_of(a.active_peers()).into_iter().filter(|n| !before.contains(n)) {
            let addressed = out.commands.iter().any(|c| match c {
                Command::SendMessage { peer, .. } => peer.lo == entered,
                Command::Disconnect { peer, .. } => peer.lo == entered,
                Command::Connect { .. } => false,
            });
            assert!(addressed || (asks_for_place && entered == who));
        }
    }
}

#[test]
fn actions_carry_their_wire_tags() {
    let tags: Vec<u8> = vec![
        Action::Join(Join { node: peer(1) }),
        Action::ForwardJoin(ForwardJoin { peer: peer(1), hop: 0 }),
        Action::Neighbor(Neighbor { peer: peer(1), high_priority: true }),
        Action::Shuffle(Shuffle { origin: peer(1), hop: 0, peers: vec![] }),
        Action::ShuffleReply(ShuffleReply { peers: vec![] }),
        Action::Disconnect(Disconnect {}),
        Action::Gossip(vec![]),
    ]
    .iter()
    .map(|a| a.tag())
    .collect();
    assert_eq!(tags, vec![0, 1, 2, 3, 4, 5, 6]);
    let copy = Action::Shuffle(Shuffle { origin: peer(3), hop: 4, peers: vec![peer(5)] }).clone();
    match copy {
        Action::Shuffle(s) => {
            assert_eq!(s.origin.peer_id, id(3));
            assert_eq!(s.hop, 4);
            assert_eq!(s.peers[0].addresses[0].text, addr(5).text);
        }
        other => panic!("not a shuffle: {:?}", other),
    }
}

#[test]
fn promoted_peer_returns_to_passive_when_the_view_filled_meanwhile() {
    let opts = options(2, 2, 8);
    let (mut a, _) = topic(1, opts, vec![]);
    a.consume_join(id(2), Join { node: peer(2) });
    a.consume_join(id(3), Join { node: peer(3) });
    let dials = a.handle_peer_disconnected(id(3), true);
    assert_eq!(dials.len(), 1);
    assert_eq!(ids_of(a.promoted_peers()), vec![3]);
    a.consume_join(id(4), Join { node: peer(4) });
    assert_eq!(ids_of(a.active_peers()), vec![2, 4]);
    let cmds = a.handle_peer_connected(peer(3));
    assert!(cmds.is_empty());
    assert_eq!(ids_of(a.active_peers()), vec![2, 4]);
    assert_eq!(ids_of(a.passive_peers()), vec![3]);
    assert_eq!(a.promoted_peers().len(), 0);
    assert_invariants(&a, &opts);
}

#[test]
fn requests_of_known_peers_change_nothing() {
    let opts = options(1, 4, 8);
    let (mut a, _) = topic(1, opts, vec![]);
    a.consume_join(id(2), Join { node: peer(2) });
    assert!(a.consume_neighbor(id(2), Neighbor { peer: peer(2), high_priority: true }).is_empty());
    assert!(a.consume_neighbor(id(1), Neighbor { peer: peer(1), high_priority: true }).is_empty());
    assert_eq!(ids_of(a.active_peers()), vec![2]);
    // a join that is repeated is welcomed again and not forwarded to the sender
    let cmds = a.consume_join(id(2), Join { node: peer(2) });
    assert_eq!(cmds.len(), 1);
    assert!(matches!(sent(&cmds[0]), (2, Action::Neighbor(_))));
    assert_eq!(ids_of(a.active_peers()), vec![2]);
    // the node's own join, come back to it, is passed on but not admitted
    let cmds = a.consume_forward_join(id(2), ForwardJoin { peer: peer(1), hop: 2 });
    assert!(cmds.is_empty());
    a.consume_join(id(3), Join { node: peer(3) });
    let cmds = a.consume_forward_join(id(2), ForwardJoin { peer: peer(1), hop: 2 });
    assert_eq!(cmds.len(), 1);
    assert!(matches!(sent(&cmds[0]), (3, Action::ForwardJoin(fj)) if fj.hop == 3));
    assert_invariants(&a, &opts);
}

#[test]
fn starved_and_saturated_follow_the_bounds() {
    let opts = options(2, 2, 8);
    let (mut a, _) = topic(1, opts, vec![]);
    assert!(a.starved() && !a.overconnected());
    a.consume_join(id(2), Join { node: peer(2) });
    assert!(a.starved() && !a.overconnected());
    a.consume_join(id(3), Join { node: peer(3) });
    assert!(!a.starved() && a.overconnected());
    assert!(a.is_active(&id(3)) && !a.is_active(&id(4)));
}
