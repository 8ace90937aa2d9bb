use anoma_core::primitives::{Account, Address, Code, Param, Predicate};
use anoma_core::state::{Overlayed, State, StateDiff};

fn at(path: &[&str]) -> Address {
    Address::new(path.iter().map(|s| s.to_string()).collect())
}

fn holding(bytes: &[u8]) -> Account {
    Account { state: bytes.to_vec(), predicates: vec![] }
}

#[test]
fn address_equality_goes_by_segments() {
    assert!(at(&["a", "b"]).same(&at(&["a", "b"])));
    assert!(!at(&["a", "b"]).same(&at(&["a"])));
    assert!(!at(&["a", "b"]).same(&at(&["a", "c"])));
    assert!(at(&[]).same(&at(&[])));
}

#[test]
fn ancestors_are_the_proper_prefixes_nearest_first() {
    let found: Vec<Vec<String>> =
        at(&["a", "b", "c"]).ancestors().into_iter().map(|a| a.segments).collect();
    assert_eq!(found, vec![vec!["a".to_string(), "b".to_string()], vec!["a".to_string()]]);
    assert!(at(&["a"]).ancestors().is_empty());
    assert!(at(&[]).ancestors().is_empty());
    assert_eq!(at(&["a", "b", "c"]).prefix(1).segments, vec!["a".to_string()]);
}

#[test]
fn clones_are_deep() {
    let account = Account {
        state: vec![1, 2],
        predicates: vec![Predicate {
            code: Code::AccountRef(at(&["lib"]), "check".to_string()),
            params: vec![Param::Inline(vec![3]), Param::AccountRef(at(&["a", "b"]))],
        }],
    };
    let copy = account.clone();
    assert_eq!(copy.state, vec![1, 2]);
    assert_eq!(copy.predicates.len(), 1);
    match &copy.predicates[0].code {
        Code::AccountRef(address, entry) => {
            assert!(address.same(&at(&["lib"])));
            assert_eq!(entry, "check");
        }
        other => panic!("unexpected code {:?}", other),
    }
    assert!(matches!(&copy.predicates[0].params[0], Param::Inline(b) if b == &vec![3]));
    assert!(
        matches!(&copy.predicates[0].params[1], Param::AccountRef(a) if a.same(&at(&["a", "b"])))
    );
}

#[test]
fn later_mutation_replaces_earlier() {
    let mut diff = StateDiff::new();
    assert!(diff.change(&at(&["a"])).is_none());
    diff.set(at(&["a"]), holding(&[1]));
    diff.set(at(&["a"]), holding(&[2]));
    assert_eq!(diff.get(&at(&["a"])).unwrap().state, vec![2]);
    diff.remove(at(&["a"]));
    assert!(diff.get(&at(&["a"])).is_none());
    assert!(matches!(diff.change(&at(&["a"])), Some(None)));
}

#[test]
fn apply_lays_the_later_diff_on_top() {
    let mut acc = StateDiff::new();
    acc.set(at(&["a"]), holding(&[1]));
    acc.set(at(&["b"]), holding(&[2]));
    let mut later = StateDiff::new();
    later.set(at(&["b"]), holding(&[3]));
    later.remove(at(&["a"]));
    later.set(at(&["c"]), holding(&[4]));
    acc.apply(&later);
    assert!(acc.get(&at(&["a"])).is_none());
    assert_eq!(acc.get(&at(&["b"])).unwrap().state, vec![3]);
    assert_eq!(acc.get(&at(&["c"])).unwrap().state, vec![4]);
}

#[test]
fn diffs_on_different_accounts_commute() {
    let mut d1 = StateDiff::new();
    d1.set(at(&["a"]), holding(&[1]));
    let mut d2 = StateDiff::new();
    d2.set(at(&["b"]), holding(&[2]));
    let mut one = StateDiff::new();
    one.apply(&d1);
    one.apply(&d2);
    let mut other = StateDiff::new();
    other.apply(&d2);
    other.apply(&d1);
    for path in [["a"], ["b"], ["c"]] {
        assert_eq!(
            one.get(&at(&path)).map(|a| a.state),
            other.get(&at(&path)).map(|a| a.state)
        );
    }
}

#[test]
fn overlay_reads_through_to_the_base() {
    let mut base = StateDiff::new();
    base.set(at(&["a"]), holding(&[1]));
    base.set(at(&["b"]), holding(&[2]));
    let mut diff = StateDiff::new();
    diff.set(at(&["b"]), holding(&[9]));
    diff.remove(at(&["a"]));
    diff.set(at(&["c"]), holding(&[7]));
    let view = Overlayed::new(&base, &diff);
    assert!(view.get(&at(&["a"])).is_none());
    assert_eq!(view.get(&at(&["b"])).unwrap().state, vec![9]);
    assert_eq!(view.get(&at(&["c"])).unwrap().state, vec![7]);
    assert!(view.get(&at(&["d"])).is_none());
    let empty = StateDiff::new();
    let plain = Overlayed::new(&base, &empty);
    assert_eq!(plain.get(&at(&["a"])).unwrap().state, vec![1]);
}
