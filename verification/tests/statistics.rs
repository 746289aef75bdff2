use ledgerstats::ledger::{Ledger, Ratio, Transaction, Transactions};

fn value(ratio: Ratio) -> f32 {
    ratio.numerator as f32 / ratio.denominator as f32
}

#[test]
fn sample_statistics() {
    let mut transactions = Transactions::new();

    transactions.insert(2, Transaction::new(1, 1, 0));
    transactions.insert(3, Transaction::new(1, 2, 0));
    transactions.insert(4, Transaction::new(2, 2, 1));
    transactions.insert(5, Transaction::new(3, 3, 2));
    transactions.insert(6, Transaction::new(3, 4, 3));

    let ledger = Ledger::new(transactions);

    assert_eq!(value(ledger.avg_dag_depth()), 1.3333334);
    assert_eq!(value(ledger.avg_txs_per_depth()), 2.5);
    assert_eq!(value(ledger.avg_ref()), 1.6666666);
    assert_eq!(value(ledger.avg_txs_per_ts()), 1.25);
}

#[test]
fn empty_txs_list_statistics() {
    let transactions = Transactions::new();

    let ledger = Ledger::new(transactions);

    assert_eq!(value(ledger.avg_dag_depth()), 0.0);
    assert_eq!(value(ledger.avg_txs_per_depth()), 0.0);
    assert_eq!(value(ledger.avg_ref()), 0.0);
    assert_eq!(value(ledger.avg_txs_per_ts()), 0.0);
}

#[test]
fn graph_with_zero_timestamps_statistics() {
    let mut transactions = Transactions::new();

    transactions.insert(2, Transaction::new(1, 1, 0));
    transactions.insert(3, Transaction::new(2, 2, 0));
    transactions.insert(4, Transaction::new(3, 3, 0));
    transactions.insert(5, Transaction::new(4, 4, 0));
    transactions.insert(6, Transaction::new(5, 5, 0));
    transactions.insert(7, Transaction::new(6, 6, 0));

    let ledger = Ledger::new(transactions);

    assert_eq!(value(ledger.avg_dag_depth()), 3.0);
    assert_eq!(value(ledger.avg_txs_per_depth()), 1.0);
    assert_eq!(value(ledger.avg_ref()), 1.7142857);
    assert_eq!(value(ledger.avg_txs_per_ts()), 6.0);
}

#[test]
fn one_more_graph_statistics() {
    let mut transactions = Transactions::new();

    transactions.insert(2, Transaction::new(1, 1, 1));
    transactions.insert(3, Transaction::new(1, 1, 1));
    transactions.insert(4, Transaction::new(2, 2, 3));
    transactions.insert(5, Transaction::new(2, 2, 3));
    transactions.insert(6, Transaction::new(3, 3, 5));
    transactions.insert(7, Transaction::new(3, 3, 5));

    let ledger = Ledger::new(transactions);

    assert_eq!(value(ledger.avg_dag_depth()), 1.4285715);
    assert_eq!(value(ledger.avg_txs_per_depth()), 3.0);
    assert_eq!(value(ledger.avg_ref()), 1.7142857);
    assert_eq!(value(ledger.avg_txs_per_ts()), 2.0);
}

#[test]
fn sample_ratios() {
    let mut transactions = Transactions::new();

    transactions.insert(2, Transaction::new(1, 1, 0));
    transactions.insert(3, Transaction::new(1, 2, 0));
    transactions.insert(4, Transaction::new(2, 2, 1));
    transactions.insert(5, Transaction::new(3, 3, 2));
    transactions.insert(6, Transaction::new(3, 4, 3));

    let ledger = Ledger::new(transactions);

    assert_eq!(
        ledger.avg_dag_depth(),
        Ratio {
            numerator: 8,
            denominator: 6
        }
    );
    assert_eq!(
        ledger.avg_txs_per_depth(),
        Ratio {
            numerator: 5,
            denominator: 2
        }
    );
    assert_eq!(
        ledger.avg_ref(),
        Ratio {
            numerator: 10,
            denominator: 6
        }
    );
    assert_eq!(
        ledger.avg_txs_per_ts(),
        Ratio {
            numerator: 5,
            denominator: 4
        }
    );
}

#[test]
fn empty_ratios_are_none_by_one() {
    let ledger = Ledger::new(Transactions::new());
    let zero = Ratio {
        numerator: 0,
        denominator: 1,
    };

    assert_eq!(ledger.avg_dag_depth(), zero);
    assert_eq!(ledger.avg_txs_per_depth(), zero);
    assert_eq!(ledger.avg_ref(), zero);
    assert_eq!(ledger.avg_txs_per_ts(), zero);
}

#[test]
fn the_accessors_hand_out_what_the_ledger_was_made_of() {
    let mut transactions = Transactions::new();
    transactions.insert(2, Transaction::new(1, 1, 4));
    transactions.insert(3, Transaction::new(2, 1, 5));
    transactions.insert(4, Transaction::new(3, 3, 5));

    let ledger = Ledger::try_new(transactions.clone()).unwrap();

    assert_eq!(*ledger.transactions(), transactions);
    assert_eq!(ledger.graph().size(), 4);
    assert_eq!(ledger.graph().depths()[&4], 2);
    assert_eq!(
        ledger.avg_ref(),
        Ratio {
            numerator: 6,
            denominator: 4
        }
    );
    assert_eq!(
        ledger.avg_txs_per_ts(),
        Ratio {
            numerator: 3,
            denominator: 2
        }
    );
}

#[test]
fn try_new_refuses_transactions_that_do_not_reach_the_root() {
    let mut transactions = Transactions::new();
    transactions.insert(2, Transaction::new(3, 3, 0));
    transactions.insert(3, Transaction::new(2, 2, 0));

    assert!(Ledger::try_new(transactions).is_none());
}
