use anoma_core::primitives::{
    Account, AccountChange, Address, Code, Intent, Param, Predicate, Proposal, Transaction,
};
use anoma_core::refs::{contains_address, TransactionRefs};
use anoma_core::rows::BfsRows;
use petgraph::graph::DiGraph;
use anoma_core::schedule::{execute_many, fold_results, restore_order, Schedule};
use anoma_core::state::{Overlayed, State, StateDiff};

fn addr(path: &str) -> Address {
    Address::new(path.split('/').filter(|s| !s.is_empty()).map(|s| s.to_string()).collect())
}

fn account(state: &[u8], reads: &[&str]) -> Account {
    Account {
        state: state.to_vec(),
        predicates: vec![Predicate {
            code: Code::Inline(vec![0]),
            params: reads.iter().map(|r| Param::AccountRef(addr(r))).collect(),
        }],
    }
}

fn write_tx(targets: &[&str], tag: u8) -> Transaction {
    Transaction {
        proposals: targets
            .iter()
            .map(|t| Proposal { address: addr(t), change: AccountChange::ReplaceState(vec![tag]) })
            .collect(),
        intents: vec![],
    }
}

/// Writes to every proposed account the tag of the proposal, followed by the
/// state bytes of every account its predicate parameters refer to, as seen
/// when the transaction runs. A tag of 255 makes the transaction fail.
fn run_tx(
    tx: Transaction,
    view: &Overlayed<StateDiff>,
    _cache: &StateDiff,
) -> Result<StateDiff, String> {
    let mut diff = StateDiff::new();
    for proposal in tx.proposals {
        let tag = match proposal.change {
            AccountChange::ReplaceState(bytes) => bytes[0],
            _ => 0,
        };
        if tag == 255 {
            return Err(format!("rejected {:?}", proposal.address.segments));
        }
        let mut bytes = vec![tag];
        let mut predicates = vec![];
        if let Some(existing) = view.get(&proposal.address) {
            for predicate in &existing.predicates {
                for param in &predicate.params {
                    if let Param::AccountRef(read) = param {
                        if let Some(seen) = view.get(read) {
                            bytes.extend_from_slice(&seen.state);
                        }
                    }
                }
            }
            predicates = existing.predicates;
        }
        diff.set(proposal.address, Account { state: bytes, predicates });
    }
    Ok(diff)
}

fn base_state() -> StateDiff {
    let mut state = StateDiff::new();
    state.set(addr("/a"), account(&[10], &[]));
    state.set(addr("/b"), account(&[20], &[]));
    state.set(addr("/c"), account(&[30], &["/a"]));
    state.set(addr("/x"), account(&[40], &["/x"]));
    state
}

#[test]
fn refs_separate_reads_from_writes() {
    let state = base_state();
    let tx = write_tx(&["/c"], 1);
    let refs = TransactionRefs::new(&tx, &state);
    assert!(contains_address(refs.writes(), &addr("/c")));
    assert!(contains_address(refs.reads(), &addr("/a")));
    assert_eq!(refs.reads().len(), 1);
    assert_eq!(refs.writes().len(), 1);
}

#[test]
fn forest_of_three_transactions() {
    let state = base_state();
    let txs = vec![write_tx(&["/a"], 1), write_tx(&["/b"], 2), write_tx(&["/c"], 3)];
    let schedule = Schedule::new(&state, txs);
    assert_eq!(schedule.edge_list(), vec![(0, 2)]);
    let mut roots = schedule.root_list().clone();
    roots.sort();
    assert_eq!(roots, vec![0, 1]);

    let mut rows = BfsRows::new(schedule.graph(), 0);
    assert_eq!(rows.next(schedule.graph()), Some(vec![0]));
    assert_eq!(rows.next(schedule.graph()), Some(vec![2]));
    assert_eq!(rows.next(schedule.graph()), None);
    assert_eq!(rows.next(schedule.graph()), None);

    let mut alone = BfsRows::new(schedule.graph(), 1);
    assert_eq!(alone.next(schedule.graph()), Some(vec![1]));
    assert_eq!(alone.next(schedule.graph()), None);
}

#[test]
fn results_come_in_submission_order() {
    let state = base_state();
    let cache = StateDiff::new();
    let txs = vec![write_tx(&["/a"], 1), write_tx(&["/b"], 2), write_tx(&["/c"], 3)];
    let out = execute_many(&state, &cache, txs, run_tx);
    assert_eq!(out.len(), 3);
    let r0 = out[0].as_ref().unwrap();
    let r1 = out[1].as_ref().unwrap();
    let r2 = out[2].as_ref().unwrap();
    assert_eq!(r0.get(&addr("/a")).unwrap().state, vec![1]);
    assert_eq!(r1.get(&addr("/b")).unwrap().state, vec![2]);
    // the third transaction read /a after the first had written it
    assert_eq!(r2.get(&addr("/c")).unwrap().state, vec![3, 1]);
}

#[test]
fn second_writer_sees_first() {
    let state = base_state();
    let cache = StateDiff::new();
    let txs = vec![write_tx(&["/x"], 7), write_tx(&["/x"], 8)];
    let schedule = Schedule::new(&state, txs);
    assert_eq!(schedule.edge_list(), vec![(0, 1)]);
    assert_eq!(schedule.root_list(), &vec![0]);
    let out = schedule.run(&state, &cache, &run_tx);
    assert_eq!(out[0].as_ref().unwrap().get(&addr("/x")).unwrap().state, vec![7, 40]);
    assert_eq!(out[1].as_ref().unwrap().get(&addr("/x")).unwrap().state, vec![8, 7, 40]);
}

#[test]
fn failure_leaves_later_rows_on_base_state() {
    let state = base_state();
    let cache = StateDiff::new();
    let txs = vec![write_tx(&["/x"], 255), write_tx(&["/x"], 8)];
    let out = execute_many(&state, &cache, txs, run_tx);
    assert!(out[0].is_err());
    assert_eq!(out[1].as_ref().unwrap().get(&addr("/x")).unwrap().state, vec![8, 40]);
}

#[test]
fn intents_contribute_reads() {
    let state = base_state();
    let tx = Transaction {
        proposals: vec![],
        intents: vec![Intent {
            expectations: vec![Predicate {
                code: Code::AccountRef(addr("/b"), "check".to_string()),
                params: vec![Param::Inline(vec![1]), Param::AccountRef(addr("/a"))],
            }],
        }],
    };
    let refs = TransactionRefs::new(&tx, &state);
    assert_eq!(refs.writes().len(), 0);
    assert_eq!(refs.reads().len(), 2);
    assert!(contains_address(refs.reads(), &addr("/a")));
    assert!(contains_address(refs.reads(), &addr("/b")));
}

#[test]
fn reading_the_same_account_is_no_dependency() {
    let mut state = base_state();
    state.set(addr("/d"), account(&[50], &["/a"]));
    let txs = vec![write_tx(&["/c"], 1), write_tx(&["/d"], 2)];
    let first = TransactionRefs::new(&txs[0], &state);
    let second = TransactionRefs::new(&txs[1], &state);
    assert!(contains_address(first.reads(), &addr("/a")));
    assert!(contains_address(second.reads(), &addr("/a")));
    assert!(!second.depends_on(&first));
    assert!(!first.depends_on(&second));
    let schedule = Schedule::new(&state, txs);
    assert!(schedule.edge_list().is_empty());
    assert_eq!(schedule.root_list().len(), 2);
}

#[test]
fn dependence_follows_writes() {
    let state = base_state();
    let writes_a = TransactionRefs::new(&write_tx(&["/a"], 1), &state);
    let reads_a = TransactionRefs::new(&write_tx(&["/c"], 2), &state);
    let writes_a_too = TransactionRefs::new(&write_tx(&["/a", "/b"], 3), &state);
    assert!(reads_a.depends_on(&writes_a));
    assert!(!writes_a.depends_on(&reads_a));
    assert!(writes_a_too.depends_on(&writes_a));
    assert!(writes_a.depends_on(&writes_a_too));
}

#[test]
fn ancestors_contribute_reads_and_written_accounts_do_not() {
    let mut state = StateDiff::new();
    state.set(addr("/token"), account(&[1], &["/oracle", "/token/usd"]));
    state.set(addr("/token/usd"), account(&[2], &["/registry"]));
    state.set(addr("/token/usd/alice"), account(&[3], &["/limits"]));
    let refs = TransactionRefs::new(&write_tx(&["/token/usd/alice"], 1), &state);
    let mut reads: Vec<String> = refs.reads().iter().map(|a| a.segments.join("/")).collect();
    reads.sort();
    assert_eq!(reads, vec!["limits", "oracle", "registry", "token/usd"]);

    // an account that is written counts as written only
    let refs = TransactionRefs::new(&write_tx(&["/token/usd/alice", "/token/usd"], 1), &state);
    let mut reads: Vec<String> = refs.reads().iter().map(|a| a.segments.join("/")).collect();
    reads.sort();
    assert_eq!(reads, vec!["limits", "oracle", "registry"]);

    // an account that the state does not hold yet has its ancestors consulted all the same
    let refs = TransactionRefs::new(&write_tx(&["/token/usd/bob"], 1), &state);
    let mut reads: Vec<String> = refs.reads().iter().map(|a| a.segments.join("/")).collect();
    reads.sort();
    assert_eq!(reads, vec!["oracle", "registry", "token/usd"]);
    assert_eq!(refs.writes().len(), 1);

    // where no ancestor is held either, nothing is consulted
    let refs = TransactionRefs::new(&write_tx(&["/coin/eur/bob"], 1), &state);
    assert!(refs.reads().is_empty());
}

#[test]
fn missing_account_under_a_held_ancestor_reads_what_the_ancestor_names() {
    let mut state = StateDiff::new();
    state.set(addr("/p"), account(&[1], &["/x"]));
    let refs = TransactionRefs::new(&write_tx(&["/p/a"], 1), &state);
    assert_eq!(refs.writes().len(), 1);
    assert!(contains_address(refs.writes(), &addr("/p/a")));
    assert_eq!(refs.reads().len(), 1);
    assert!(contains_address(refs.reads(), &addr("/x")));
}

#[test]
fn only_the_nearest_conflict_is_linked() {
    let state = base_state();
    let cache = StateDiff::new();
    // t0 writes /a; t1 writes /b; t2 writes /b and /c, and reads /a through /c
    let txs = || vec![write_tx(&["/a"], 1), write_tx(&["/b"], 2), write_tx(&["/b", "/c"], 3)];
    let batch = txs();
    let last = TransactionRefs::new(&batch[2], &state);
    assert!(last.depends_on(&TransactionRefs::new(&batch[0], &state)));
    assert!(last.depends_on(&TransactionRefs::new(&batch[1], &state)));
    let schedule = Schedule::new(&state, batch);
    assert_eq!(schedule.edge_list(), vec![(1, 2)]);
    let mut roots = schedule.root_list().clone();
    roots.sort();
    assert_eq!(roots, vec![0, 1]);
    // the third transaction runs in the tree of the second: it reads /a as the base holds it
    let out = execute_many(&state, &cache, txs(), run_tx);
    assert_eq!(out[2].as_ref().unwrap().get(&addr("/c")).unwrap().state, vec![3, 10]);
}

#[test]
fn rows_of_a_deeper_tree() {
    let state = StateDiff::new();
    let txs = vec![
        write_tx(&["/a", "/b"], 0),
        write_tx(&["/a"], 1),
        write_tx(&["/b"], 2),
        write_tx(&["/a"], 3),
        write_tx(&["/b"], 4),
        write_tx(&["/a", "/z"], 5),
        write_tx(&["/q"], 6),
    ];
    let schedule = Schedule::new(&state, txs);
    assert_eq!(schedule.edge_list(), vec![(3, 5), (2, 4), (1, 3), (0, 2), (0, 1)]);
    let mut roots = schedule.root_list().clone();
    roots.sort();
    assert_eq!(roots, vec![0, 6]);
    let mut rows = BfsRows::new(schedule.graph(), 0);
    assert_eq!(rows.next(schedule.graph()), Some(vec![0]));
    assert_eq!(rows.next(schedule.graph()), Some(vec![1, 2]));
    assert_eq!(rows.next(schedule.graph()), Some(vec![3, 4]));
    assert_eq!(rows.next(schedule.graph()), Some(vec![5]));
    assert_eq!(rows.next(schedule.graph()), None);
}

#[test]
fn every_transaction_runs_exactly_once() {
    let state = base_state();
    let cache = StateDiff::new();
    let txs: Vec<Transaction> = (0..40u8)
        .map(|n| write_tx(&[["/a", "/b", "/c", "/x", "/y"][n as usize % 5]], n))
        .collect();
    let runs = std::cell::RefCell::new(vec![0u32; 40]);
    let out = execute_many(&state, &cache, txs, |tx: Transaction, view: &Overlayed<StateDiff>, c: &StateDiff| {
        if let AccountChange::ReplaceState(bytes) = &tx.proposals[0].change {
            runs.borrow_mut()[bytes[0] as usize] += 1;
        }
        run_tx(tx, view, c)
    });
    assert_eq!(out.len(), 40);
    assert!(runs.borrow().iter().all(|n| *n == 1));
    for (n, result) in out.iter().enumerate() {
        let path = ["/a", "/b", "/c", "/x", "/y"][n % 5];
        let written = result.as_ref().unwrap().get(&addr(path)).unwrap();
        assert_eq!(written.state[0], n as u8);
    }
}

#[test]
fn empty_batch_gives_no_results() {
    let state = base_state();
    let cache = StateDiff::new();
    let out = execute_many(&state, &cache, vec![], run_tx);
    assert!(out.is_empty());
}

#[test]
fn tree_run_empties_its_slots() {
    let state = base_state();
    let cache = StateDiff::new();
    let txs = vec![write_tx(&["/a"], 1), write_tx(&["/b"], 2), write_tx(&["/c"], 3)];
    let mut schedule = Schedule::new(&state, txs);
    let trees = schedule.trees();
    assert_eq!(trees.len(), 2);
    let mut positions = vec![];
    for tree in trees {
        for (result, ix) in tree.run(&mut schedule, &state, &cache, &run_tx) {
            assert!(result.is_ok());
            positions.push(ix);
        }
    }
    positions.sort();
    assert_eq!(positions, vec![0, 1, 2]);
    assert!((0..3).all(|v| schedule.is_taken(v)));
    assert!(schedule.take(0).is_none());
    assert!(schedule.take(7).is_none());
}

#[test]
fn take_hands_a_transaction_out_once() {
    let state = base_state();
    let mut schedule = Schedule::new(&state, vec![write_tx(&["/a"], 1)]);
    assert!(!schedule.is_taken(0));
    assert!(schedule.take(0).is_some());
    assert!(schedule.is_taken(0));
    assert!(schedule.take(0).is_none());
}

#[test]
fn failed_transaction_contributes_nothing_to_later_rows() {
    let state = base_state();
    let cache = StateDiff::new();
    // /x <- ok, /x <- fails, /x <- ok: the third sees the first but not the second
    let txs = vec![write_tx(&["/x"], 1), write_tx(&["/x"], 255), write_tx(&["/x"], 3)];
    let out = execute_many(&state, &cache, txs, run_tx);
    assert!(out[0].is_ok());
    assert_eq!(out[1].as_ref().err().unwrap(), "rejected [\"x\"]");
    assert_eq!(out[2].as_ref().unwrap().get(&addr("/x")).unwrap().state, vec![3, 1, 40]);
}

#[test]
fn independent_transactions_give_the_same_results_in_either_order() {
    let state = base_state();
    let cache = StateDiff::new();
    let one = execute_many(
        &state,
        &cache,
        vec![write_tx(&["/a"], 1), write_tx(&["/b"], 2), write_tx(&["/x"], 3)],
        run_tx,
    );
    let other = execute_many(
        &state,
        &cache,
        vec![write_tx(&["/x"], 3), write_tx(&["/b"], 2), write_tx(&["/a"], 1)],
        run_tx,
    );
    for (path, (i, j)) in [("/a", (0, 2)), ("/b", (1, 1)), ("/x", (2, 0))] {
        let left = one[i].as_ref().unwrap().get(&addr(path)).unwrap().state;
        let right = other[j].as_ref().unwrap().get(&addr(path)).unwrap().state;
        assert_eq!(left, right);
    }
}

fn diff_with(path: &str, byte: u8) -> StateDiff {
    let mut diff = StateDiff::new();
    diff.set(addr(path), account(&[byte], &[]));
    diff
}

#[test]
fn results_are_put_back_in_batch_order() {
    let gathered: Vec<(Result<StateDiff, String>, usize)> =
        vec![(Ok(diff_with("/c", 2)), 2), (Err("no".into()), 0), (Ok(diff_with("/b", 1)), 1)];
    let out = restore_order(gathered, 3).unwrap();
    assert_eq!(out.len(), 3);
    assert_eq!(out[0].as_ref().err().unwrap(), "no");
    assert_eq!(out[1].as_ref().unwrap().get(&addr("/b")).unwrap().state, vec![1]);
    assert_eq!(out[2].as_ref().unwrap().get(&addr("/c")).unwrap().state, vec![2]);

    let twice: Vec<(Result<StateDiff, String>, usize)> =
        vec![(Err("a".into()), 0), (Err("b".into()), 0)];
    assert!(restore_order(twice, 2).is_none());
    let beyond: Vec<(Result<StateDiff, String>, usize)> = vec![(Err("a".into()), 1)];
    assert!(restore_order(beyond, 1).is_none());
    let missing: Vec<(Result<StateDiff, String>, usize)> = vec![(Err("a".into()), 1)];
    assert!(restore_order(missing, 2).is_none());
    let none: Vec<(Result<StateDiff, String>, usize)> = vec![];
    assert_eq!(restore_order(none, 0).unwrap().len(), 0);
}

#[test]
fn row_is_folded_in_order_without_its_failures() {
    let mut acc = diff_with("/a", 1);
    let results: Vec<(Result<StateDiff, String>, usize)> = vec![
        (Ok(diff_with("/a", 2)), 4),
        (Err("rejected".into()), 5),
        (Ok(diff_with("/b", 3)), 6),
        (Ok(diff_with("/a", 4)), 7),
    ];
    fold_results(&mut acc, &results);
    assert_eq!(acc.get(&addr("/a")).unwrap().state, vec![4]);
    assert_eq!(acc.get(&addr("/b")).unwrap().state, vec![3]);
}

fn graph_of(nodes: usize, edges: &[(usize, usize)]) -> DiGraph<usize, ()> {
    let mut graph = DiGraph::new();
    let ids: Vec<_> = (0..nodes).map(|n| graph.add_node(n)).collect();
    for (a, b) in edges {
        graph.add_edge(ids[*a], ids[*b], ());
    }
    graph
}

fn rows_from(graph: &DiGraph<usize, ()>, start: usize) -> Vec<Vec<usize>> {
    let mut iter = BfsRows::try_new(graph, start).unwrap();
    let mut rows = vec![];
    while let Some(row) = iter.next(graph) {
        rows.push(row);
        assert!(rows.len() <= graph.node_count());
    }
    assert_eq!(iter.next(graph), None);
    rows
}

#[test]
fn rows_of_a_diamond_hold_each_node_once() {
    let graph = graph_of(4, &[(0, 1), (0, 2), (1, 3), (2, 3)]);
    // the successors of a node come in the reverse of the order in which its edges were added
    assert_eq!(rows_from(&graph, 0), vec![vec![0], vec![2, 1], vec![3]]);
    assert_eq!(rows_from(&graph, 1), vec![vec![1], vec![3]]);
    assert_eq!(rows_from(&graph, 3), vec![vec![3]]);
}

#[test]
fn rows_of_a_graph_with_cycles_and_doubled_edges() {
    let graph = graph_of(4, &[(0, 1), (1, 0), (1, 1), (0, 1), (1, 2), (2, 0), (2, 3), (3, 3)]);
    assert_eq!(rows_from(&graph, 0), vec![vec![0], vec![1], vec![2], vec![3]]);
    assert_eq!(rows_from(&graph, 2), vec![vec![2], vec![3, 0], vec![1]]);
}

#[test]
fn rows_put_a_node_in_the_row_of_its_shortest_path() {
    // 0 -> 1 -> 2 -> 3 and the shortcut 0 -> 3; 4 is not reached
    let graph = graph_of(5, &[(0, 1), (1, 2), (2, 3), (0, 3), (4, 0)]);
    assert_eq!(rows_from(&graph, 0), vec![vec![0], vec![3, 1], vec![2]]);
    assert_eq!(rows_from(&graph, 4), vec![vec![4], vec![0], vec![3, 1], vec![2]]);
}

#[test]
fn traversal_starts_only_at_a_node_of_the_graph() {
    let graph = graph_of(2, &[(0, 1)]);
    assert!(BfsRows::try_new(&graph, 1).is_some());
    assert!(BfsRows::try_new(&graph, 2).is_none());
    assert!(BfsRows::try_new(&graph_of(0, &[]), 0).is_none());
}

#[test]
fn rows_follow_the_walk_of_a_graph_that_lost_an_edge() {
    let mut graph = graph_of(4, &[(0, 1), (0, 2), (0, 3)]);
    let first = graph.find_edge(0.into(), 1.into()).unwrap();
    graph.remove_edge(first);
    let walk: Vec<usize> = graph.neighbors(0.into()).map(|n| n.index()).collect();
    assert_eq!(walk, vec![3, 2]);
    assert_eq!(rows_from(&graph, 0), vec![vec![0], vec![3, 2]]);
}
