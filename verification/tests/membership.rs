use anoma_core::entrypoint::{
    verify_signature, ArgShape, PathShape, ReturnShape, SegmentShape, SignatureShape, TypeShape,
};
use anoma_core::history::{History, HISTORY_CAPACITY};
use anoma_core::membership::{draw_sample, peers_excluding, PeerTable};
use anoma_core::peer::{contains_multiaddr, AddressablePeer, Multiaddr, PeerId};

fn id(n: u128) -> PeerId {
    PeerId { hi: 7, lo: n }
}

fn peer(n: u128) -> AddressablePeer {
    AddressablePeer { peer_id: id(n), addresses: vec![Multiaddr { text: format!("/dns/n{}", n) }] }
}

#[test]
fn peer_identity_compares_both_halves() {
    assert_eq!(PeerId { hi: 1, lo: 2 }, PeerId { hi: 1, lo: 2 });
    assert_ne!(PeerId { hi: 1, lo: 2 }, PeerId { hi: 2, lo: 2 });
    assert_ne!(PeerId { hi: 1, lo: 2 }, PeerId { hi: 1, lo: 3 });
}

#[test]
fn table_keeps_insertion_order() {
    let mut table = PeerTable::new();
    for n in [5, 3, 9] {
        table.insert(peer(n));
    }
    assert_eq!(table.len(), 3);
    assert_eq!(table.find(id(3)), Some(1));
    assert_eq!(table.find(id(4)), None);
    assert!(table.contains(id(9)) && !table.contains(id(1)));
    assert_eq!(table.ids_except(None), vec![id(5), id(3), id(9)]);
    assert_eq!(table.ids_except(Some(id(3))), vec![id(5), id(9)]);
    assert_eq!(table.ids_except(Some(id(4))), vec![id(5), id(3), id(9)]);

    let gone = table.remove_at(0);
    assert_eq!(gone.peer_id, id(5));
    assert_eq!(table.get(0).peer_id, id(3));
    assert!(table.remove(id(5)).is_none());
    assert_eq!(table.remove(id(9)).unwrap().peer_id, id(9));
    assert_eq!(table.len(), 1);

    table.replace_at(0, AddressablePeer { peer_id: id(3), addresses: vec![] });
    assert!(table.get(0).addresses.is_empty());
    assert_eq!(table.peers().len(), 1);
}

#[test]
fn first_peer_at_an_address_is_found() {
    let mut table = PeerTable::new();
    table.insert(peer(1));
    table.insert(AddressablePeer {
        peer_id: id(2),
        addresses: vec![Multiaddr { text: "/dns/n3".into() }],
    });
    table.insert(peer(3));
    assert_eq!(table.find_by_address(&Multiaddr { text: "/dns/n3".into() }), Some(1));
    assert_eq!(table.find_by_address(&Multiaddr { text: "/dns/n1".into() }), Some(0));
    assert_eq!(table.find_by_address(&Multiaddr { text: "/dns/n9".into() }), None);
    assert!(contains_multiaddr(&table.get(2).addresses, &Multiaddr { text: "/dns/n3".into() }));
}

#[test]
fn excluded_peers_are_left_out_in_order() {
    let pool: Vec<AddressablePeer> = (1..=5).map(peer).collect();
    let kept = peers_excluding(&pool, &vec![id(2), id(5), id(8)]);
    let names: Vec<u128> = kept.iter().map(|p| p.peer_id.lo).collect();
    assert_eq!(names, vec![1, 3, 4]);
}

#[test]
fn sample_is_drawn_without_replacement() {
    for amount in 0..8 {
        let pool: Vec<AddressablePeer> = (1..=5).map(peer).collect();
        let sample = draw_sample(pool, amount);
        assert_eq!(sample.len(), amount.min(5));
        let mut names: Vec<u128> = sample.iter().map(|p| p.peer_id.lo).collect();
        names.sort();
        names.dedup();
        assert_eq!(names.len(), amount.min(5));
        assert!(names.iter().all(|n| (1..=5).contains(n)));
    }
    let mut firsts = std::collections::HashSet::new();
    for _ in 0..200 {
        firsts.insert(draw_sample((1..=5).map(peer).collect(), 1)[0].peer_id.lo);
    }
    assert_eq!(firsts.len(), 5);
}

#[test]
fn history_forgets_the_oldest_when_full() {
    let mut history = History::new();
    assert!(history.insert(0));
    assert!(!history.insert(0));
    for n in 1..HISTORY_CAPACITY as u128 {
        assert!(history.insert(n));
    }
    assert!(history.contains(0));
    assert!(history.insert(5000));
    assert!(!history.contains(0));
    assert!(history.contains(1) && history.contains(5000));
    assert!(history.insert(0));
    assert!(!history.contains(1));
    assert!(HISTORY_CAPACITY >= 1024);
}

fn path(names: &[&str]) -> TypeShape {
    TypeShape::Path(PathShape {
        leading_colon: false,
        segments: names
            .iter()
            .map(|n| SegmentShape { ident: n.to_string(), has_arguments: false })
            .collect(),
    })
}

fn shared(elem: TypeShape) -> TypeShape {
    TypeShape::Reference { mutable: false, elem: Box::new(elem) }
}

fn slice(elem: TypeShape) -> TypeShape {
    TypeShape::Slice { elem: Box::new(elem) }
}

fn entrypoint(inputs: Vec<ArgShape>, output: ReturnShape) -> SignatureShape {
    SignatureShape { inputs, output }
}

fn good_inputs() -> Vec<ArgShape> {
    vec![
        ArgShape::Typed(shared(slice(path(&["Param"])))),
        ArgShape::Typed(shared(path(&["anoma", "Transaction"]))),
    ]
}

#[test]
fn entrypoint_signature_is_recognised() {
    assert!(verify_signature(&entrypoint(good_inputs(), ReturnShape::Type(path(&["bool"])))));
    // a return type that is not written as a path is let through, as is none at all
    assert!(verify_signature(&entrypoint(good_inputs(), ReturnShape::Default)));
    assert!(verify_signature(&entrypoint(good_inputs(), ReturnShape::Type(TypeShape::Other))));
}

#[test]
fn entrypoint_signature_is_refused() {
    let returns_bool = || ReturnShape::Type(path(&["bool"]));
    assert!(!verify_signature(&entrypoint(vec![], returns_bool())));
    let mut three = good_inputs();
    three.push(ArgShape::Typed(path(&["u8"])));
    assert!(!verify_signature(&entrypoint(three, returns_bool())));
    assert!(!verify_signature(&entrypoint(
        vec![ArgShape::Receiver, ArgShape::Typed(shared(path(&["Transaction"])))],
        returns_bool()
    )));
    let mutable = vec![
        ArgShape::Typed(TypeShape::Reference {
            mutable: true,
            elem: Box::new(slice(path(&["Param"]))),
        }),
        ArgShape::Typed(shared(path(&["Transaction"]))),
    ];
    assert!(!verify_signature(&entrypoint(mutable, returns_bool())));
    let no_slice = vec![
        ArgShape::Typed(shared(path(&["Param"]))),
        ArgShape::Typed(shared(path(&["Transaction"]))),
    ];
    assert!(!verify_signature(&entrypoint(no_slice, returns_bool())));
    let by_value = vec![
        ArgShape::Typed(shared(slice(path(&["Param"])))),
        ArgShape::Typed(path(&["Transaction"])),
    ];
    assert!(!verify_signature(&entrypoint(by_value, returns_bool())));
    let swapped = vec![
        ArgShape::Typed(shared(path(&["Transaction"]))),
        ArgShape::Typed(shared(slice(path(&["Param"])))),
    ];
    assert!(!verify_signature(&entrypoint(swapped, returns_bool())));
    assert!(!verify_signature(&entrypoint(good_inputs(), ReturnShape::Type(path(&["u8"])))));
    assert!(!verify_signature(&entrypoint(
        good_inputs(),
        ReturnShape::Type(path(&["core", "bool"]))
    )));
    assert!(!verify_signature(&entrypoint(
        good_inputs(),
        ReturnShape::Type(TypeShape::Path(PathShape {
            leading_colon: true,
            segments: vec![SegmentShape { ident: "bool".into(), has_arguments: false }],
        }))
    )));
}
