use std::collections::HashMap;

use ledgerstats::ledger::graph::ROOT;
use ledgerstats::ledger::references::Edge;
use ledgerstats::ledger::search::search;
use ledgerstats::ledger::{Depths, Element, Graph, Transaction, Transactions, TxId};

type AdjacencyMatrix = HashMap<TxId, HashMap<TxId, Element>>;

fn adjacency_matrix(graph: &Graph) -> AdjacencyMatrix {
    let mut matrix = AdjacencyMatrix::new();
    graph.for_each(|i, j, e| {
        let before = matrix.entry(*i).or_default().insert(*j, *e);
        assert_eq!(before, None);
    });
    matrix
}

fn sample() -> Transactions {
    let mut transactions = Transactions::new();

    transactions.insert(2, Transaction::new(1, 1, 0));
    transactions.insert(3, Transaction::new(1, 2, 0));
    transactions.insert(4, Transaction::new(2, 2, 1));
    transactions.insert(5, Transaction::new(3, 3, 2));
    transactions.insert(6, Transaction::new(3, 4, 3));

    transactions
}

#[test]
fn empty_transactions_list() {
    let graph = Graph::new(&Transactions::new());

    assert_eq!(graph.size(), 1);

    assert_eq!(graph.get(0, 0), None);
    assert_eq!(graph.get(0, 1), None);
    assert_eq!(graph.get(1, 1), None);
    assert_eq!(graph.get(1, 2), None);

    assert_eq!(*graph.depths(), Depths::from([(1, 0)]));

    assert_eq!(graph.is_valid_index(0), false);
    assert_eq!(graph.is_valid_index(1), true);
    assert_eq!(graph.is_valid_index(2), false);
}

#[test]
fn sample_transactions_list() {
    let mut transactions = Transactions::new();

    transactions.insert(2, Transaction::new(1, 1, 0));
    transactions.insert(3, Transaction::new(1, 2, 0));
    transactions.insert(4, Transaction::new(2, 2, 1));
    transactions.insert(5, Transaction::new(3, 3, 2));
    transactions.insert(6, Transaction::new(3, 4, 3));

    let graph = Graph::new(&transactions);

    assert_eq!(graph.size(), 6);

    let mut adjacency_matrix = AdjacencyMatrix::new();

    adjacency_matrix.insert(2, HashMap::from([(1, Element::new(2))]));
    adjacency_matrix.insert(3, HashMap::from([(1, Element::new(1)), (2, Element::new(1))]));
    adjacency_matrix.insert(4, HashMap::from([(2, Element::new(2))]));
    adjacency_matrix.insert(5, HashMap::from([(3, Element::new(2))]));
    adjacency_matrix.insert(6, HashMap::from([(3, Element::new(1)), (4, Element::new(1))]));

    assert_eq!(self::adjacency_matrix(&graph), adjacency_matrix);

    assert_eq!(
        *graph.depths(),
        Depths::from([(1, 0), (2, 1), (3, 1), (4, 2), (5, 2), (6, 2)])
    );

    assert_eq!(graph.is_valid_index(0), false);
    assert_eq!(graph.is_valid_index(1), true);
    assert_eq!(graph.is_valid_index(6), true);
    assert_eq!(graph.is_valid_index(7), false);
}

#[test]
fn add_ref_to_graph() {
    let mut graph = Graph::new(&Transactions::new());

    assert_eq!(graph.size(), 1);
    assert_eq!(graph.get(1, 1), None);

    graph.add_ref(0, 1, 1);
    graph.add_ref(2, 1, 1);

    assert_eq!(graph.size(), 1);
    assert_eq!(graph.get(1, 1), None);

    graph.add_ref(1, 1, 1);

    assert_eq!(graph.size(), 1);
    assert_eq!(graph.get(1, 1).unwrap(), &Element::new(2));
}

#[test]
fn element_new_keeps_the_references() {
    assert_eq!(Element::new(5), Element { references: 5 });
    assert_eq!(Element::new(0), Element::default());
}

#[test]
fn size_is_one_more_than_the_transactions() {
    for n in 0..20usize {
        let mut transactions = Transactions::new();
        for id in 2..n + 2 {
            transactions.insert(id, Transaction::new(id - 1, 1, 0));
        }
        let graph = Graph::new(&transactions);
        assert_eq!(graph.size(), transactions.len() + 1);
        assert_eq!(graph.depths().len(), graph.size());
    }
}

#[test]
fn root_depth_is_zero() {
    let mut graph = Graph::new(&sample());
    assert_eq!(graph.depths()[&ROOT], 0);

    graph.add_ref(1, 1, 2);
    graph.add_ref(1, 6, 6);
    assert!(graph.try_calculate_depths());
    assert_eq!(graph.depths()[&ROOT], 0);
    assert_eq!(graph.depths()[&6], 2);
}

#[test]
fn equal_parents_make_one_approval_of_two_references() {
    let mut transactions = Transactions::new();
    transactions.insert(2, Transaction::new(1, 1, 17));
    let graph = Graph::new(&transactions);

    assert_eq!(graph.get(2, 1), Some(&Element::new(2)));
    assert_eq!(graph.edges(), vec![(2, 1, Element::new(2))]);
}

#[test]
fn different_parents_make_two_approvals_of_one_reference() {
    let graph = Graph::new(&sample());

    assert_eq!(graph.get(3, 1), Some(&Element::new(1)));
    assert_eq!(graph.get(3, 2), Some(&Element::new(1)));
    assert_eq!(graph.get(3, 3), None);
    assert_eq!(graph.get(1, 3), None);
}

#[test]
fn edges_hold_each_approval_once() {
    let graph = Graph::new(&sample());
    let mut edges: Vec<Edge> = graph.edges();
    edges.sort_by_key(|edge| (edge.0, edge.1));

    assert_eq!(
        edges,
        vec![
            (2, 1, Element::new(2)),
            (3, 1, Element::new(1)),
            (3, 2, Element::new(1)),
            (4, 2, Element::new(2)),
            (5, 3, Element::new(2)),
            (6, 3, Element::new(1)),
            (6, 4, Element::new(1)),
        ]
    );

    let mut visited: Vec<Edge> = Vec::new();
    graph.for_each(|i, j, e| visited.push((*i, *j, *e)));
    visited.sort_by_key(|edge| (edge.0, edge.1));
    assert_eq!(visited, edges);
}

#[test]
fn a_transaction_with_an_invalid_identifier_leaves_the_graph_unrooted() {
    let mut transactions = Transactions::new();
    transactions.insert(2, Transaction::new(1, 1, 0));
    transactions.insert(3, Transaction::new(1, 5, 0));
    assert!(Graph::try_new(&transactions).is_none());

    let mut transactions = Transactions::new();
    transactions.insert(2, Transaction::new(1, 1, 0));
    transactions.insert(3, Transaction::new(0, 1, 0));
    assert!(Graph::try_new(&transactions).is_none());

    let mut transactions = Transactions::new();
    transactions.insert(2, Transaction::new(1, 1, 0));
    transactions.insert(9, Transaction::new(1, 1, 0));
    assert!(Graph::try_new(&transactions).is_none());

    let mut transactions = Transactions::new();
    transactions.insert(1, Transaction::new(1, 1, 0));
    assert!(Graph::try_new(&transactions).is_none());

    let mut transactions = Transactions::new();
    transactions.insert(2, Transaction::new(1, 1, 0));
    transactions.insert(3, Transaction::new(1, 3, 0));
    assert!(Graph::try_new(&transactions).is_some());
}

#[test]
fn try_new_refuses_a_graph_that_is_not_rooted() {
    let mut transactions = Transactions::new();
    transactions.insert(2, Transaction::new(2, 2, 0));
    assert!(Graph::try_new(&transactions).is_none());

    let mut transactions = Transactions::new();
    transactions.insert(2, Transaction::new(3, 3, 0));
    transactions.insert(3, Transaction::new(2, 2, 0));
    assert!(Graph::try_new(&transactions).is_none());

    let mut transactions = Transactions::new();
    transactions.insert(2, Transaction::new(3, 3, 0));
    transactions.insert(3, Transaction::new(1, 2, 0));
    let graph = Graph::try_new(&transactions).unwrap();
    assert_eq!(*graph.depths(), Depths::from([(1, 0), (2, 2), (3, 1)]));
}

#[test]
fn depth_is_the_length_of_the_shortest_chain() {
    let mut transactions = Transactions::new();
    transactions.insert(2, Transaction::new(1, 1, 0));
    transactions.insert(3, Transaction::new(2, 2, 0));
    transactions.insert(4, Transaction::new(3, 3, 0));
    transactions.insert(5, Transaction::new(4, 1, 0));
    transactions.insert(6, Transaction::new(5, 4, 0));
    transactions.insert(7, Transaction::new(6, 3, 0));

    let graph = Graph::new(&transactions);

    assert_eq!(
        *graph.depths(),
        Depths::from([(1, 0), (2, 1), (3, 2), (4, 3), (5, 1), (6, 2), (7, 3)])
    );
}

#[test]
fn search_finds_what_reaches_the_root() {
    let mut graph = Graph::new(&Transactions::new());
    assert_eq!(search(&graph), vec![Some(0)]);

    let mut transactions = Transactions::new();
    transactions.insert(2, Transaction::new(1, 1, 0));
    transactions.insert(3, Transaction::new(2, 2, 0));
    transactions.insert(4, Transaction::new(3, 3, 0));
    graph = Graph::new(&transactions);
    assert_eq!(search(&graph), vec![Some(0), Some(1), Some(2), Some(3)]);
}

#[test]
fn try_calculate_depths_follows_added_references() {
    let mut transactions = Transactions::new();
    transactions.insert(2, Transaction::new(1, 1, 0));
    transactions.insert(3, Transaction::new(2, 2, 0));
    transactions.insert(4, Transaction::new(3, 3, 0));
    let mut graph = Graph::new(&transactions);
    assert_eq!(
        *graph.depths(),
        Depths::from([(1, 0), (2, 1), (3, 2), (4, 3)])
    );

    graph.add_ref(4, 1, 2);
    assert_eq!(
        *graph.depths(),
        Depths::from([(1, 0), (2, 1), (3, 2), (4, 3)])
    );
    assert_eq!(graph.get(4, 1), Some(&Element::new(1)));
    assert_eq!(graph.get(4, 2), Some(&Element::new(1)));
    assert_eq!(graph.get(4, 3), Some(&Element::new(2)));

    assert!(graph.try_calculate_depths());
    assert_eq!(
        *graph.depths(),
        Depths::from([(1, 0), (2, 1), (3, 2), (4, 1)])
    );

    graph.calculate_depths();
    assert_eq!(
        *graph.depths(),
        Depths::from([(1, 0), (2, 1), (3, 2), (4, 1)])
    );
}

#[test]
fn add_ref_counts_each_reference() {
    let mut graph = Graph::new(&sample());

    graph.add_ref(2, 1, 3);
    graph.add_ref(2, 1, 3);
    graph.add_ref(2, 7, 1);
    graph.add_ref(7, 1, 1);
    graph.add_ref(2, 1, 0);

    assert_eq!(graph.get(2, 1), Some(&Element::new(4)));
    assert_eq!(graph.get(2, 3), Some(&Element::new(2)));
    assert_eq!(graph.get(2, 7), None);
    assert_eq!(graph.get(7, 1), None);
    assert_eq!(graph.size(), 6);
}

#[test]
fn build_gives_any_transactions_their_graph() {
    let mut transactions = Transactions::new();
    transactions.insert(2, Transaction::new(3, 3, 0));
    transactions.insert(3, Transaction::new(2, 7, 0));
    transactions.insert(0, Transaction::new(1, 1, 0));
    transactions.insert(9, Transaction::new(1, 1, 0));
    transactions.insert(5, Transaction::new(0, 1, 0));

    let mut graph = Graph::build(&transactions);

    assert_eq!(graph.size(), transactions.len() + 1);
    assert_eq!(graph.edges(), vec![(2, 3, Element::new(2))]);
    assert_eq!(*graph.depths(), Depths::new());
    assert_eq!(
        search(&graph),
        vec![Some(0), None, None, None, None, None]
    );
    assert!(!graph.try_calculate_depths());
    assert_eq!(*graph.depths(), Depths::new());
}
