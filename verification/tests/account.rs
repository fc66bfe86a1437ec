use std::collections::HashSet;
use ledger::account::Account;
use ledger::libs::Amount;
use ledger::transaction::Transaction;
use ledger::transaction_logs::TransactionLogs;

fn amount(units: i128) -> Amount {
    Amount::from_units(units)
}

#[test]
fn deposit_transaction_already_exists() {
    let mut account = Account {
        available: amount(50000),
        held: amount(100000),
        locked: false,
    };

    let transaction = Transaction {
        id: 1,
        client_id: 1,
        amount: amount(0),
    };

    let mut transaction_logs = TransactionLogs::new();

    transaction_logs.add(&Transaction {
        id: 1,
        client_id: 1,
        amount: amount(0),
    });

    account.deposit(&transaction, &mut transaction_logs);

    assert!(
        account
            == Account {
                available: amount(50000),
                held: amount(100000),
                locked: false,
            }
    );

    let mut expected_transaction_logs = TransactionLogs::new();

    expected_transaction_logs.add(&Transaction {
        id: 1,
        client_id: 1,
        amount: amount(0),
    });

    assert!(transaction_logs.0 == expected_transaction_logs.0);
}

#[test]
fn deposit_ok() {
    let mut account = Account {
        available: amount(50000),
        held: amount(100000),
        locked: false,
    };

    let transaction = Transaction {
        id: 1,
        client_id: 1,
        amount: amount(70000),
    };

    let mut transaction_logs = TransactionLogs::new();

    account.deposit(&transaction, &mut transaction_logs);

    assert!(
        account
            == Account {
                available: amount(120000),
                held: amount(100000),
                locked: false,
            }
    );

    let mut expected_transaction_logs = TransactionLogs::new();

    expected_transaction_logs.add(&Transaction {
        id: 1,
        client_id: 1,
        amount: amount(70000),
    });

    assert!(transaction_logs.0 == expected_transaction_logs.0);
}

#[test]
fn withdrawal_transaction_already_exists() {
    let mut account = Account {
        available: amount(50000),
        held: amount(100000),
        locked: false,
    };

    let transaction = Transaction {
        id: 1,
        client_id: 1,
        amount: amount(0),
    };

    let mut transaction_logs = TransactionLogs::new();

    transaction_logs.add(&Transaction {
        id: 1,
        client_id: 1,
        amount: amount(0),
    });

    account.withdrawal(&transaction, &mut transaction_logs);

    assert!(
        account
            == Account {
                available: amount(50000),
                held: amount(100000),
                locked: false,
            }
    );

    let mut expected_transaction_logs = TransactionLogs::new();

    expected_transaction_logs.add(&Transaction {
        id: 1,
        client_id: 1,
        amount: amount(0),
    });

    assert!(transaction_logs.0 == expected_transaction_logs.0);
}

#[test]
fn withdrawal_ok() {
    let mut account = Account {
        available: amount(50000),
        held: amount(100000),
        locked: false,
    };

    let transaction = Transaction {
        id: 1,
        client_id: 1,
        amount: amount(30000),
    };

    let mut transaction_logs = TransactionLogs::new();

    account.withdrawal(&transaction, &mut transaction_logs);

    assert!(
        account
            == Account {
                available: amount(20000),
                held: amount(100000),
                locked: false,
            }
    );

    let mut expected_transaction_logs = TransactionLogs::new();

    expected_transaction_logs.add(&Transaction {
        id: 1,
        client_id: 1,
        amount: amount(30000),
    });

    assert!(transaction_logs.0 == expected_transaction_logs.0);
}

#[test]
fn withdrawal_underfunded_not_logged() {
    let mut account = Account {
        available: amount(20000),
        held: amount(0),
        locked: false,
    };

    let transaction = Transaction {
        id: 1,
        client_id: 1,
        amount: amount(30000),
    };

    let mut transaction_logs = TransactionLogs::new();

    account.withdrawal(&transaction, &mut transaction_logs);

    assert!(account.available == amount(20000));
    assert!(transaction_logs.0.is_empty());

    account.deposit(
        &Transaction {
            id: 2,
            client_id: 1,
            amount: amount(20000),
        },
        &mut transaction_logs,
    );
    account.withdrawal(&transaction, &mut transaction_logs);

    assert!(account.available == amount(10000));
    assert!(transaction_logs.0.contains_key(&1));
}

#[test]
fn dispute_transaction_does_not_exist() {
    let mut account = Account {
        available: amount(50000),
        held: amount(100000),
        locked: false,
    };

    let transaction = Transaction {
        id: 1,
        client_id: 1,
        amount: amount(0),
    };

    let mut disputes = HashSet::new();
    disputes.insert(2);

    let mut transaction_logs = TransactionLogs::new();

    account.dispute(&transaction, &mut transaction_logs, &mut disputes);

    assert!(
        account
            == Account {
                available: amount(50000),
                held: amount(100000),
                locked: false,
            }
    );

    let mut expected_disputes = HashSet::new();
    expected_disputes.insert(2);
    assert!(disputes == expected_disputes);

    assert!(transaction_logs.0 == TransactionLogs::new().0);
}

#[test]
fn dispute_transaction_exists_but_not_owned() {
    let mut account = Account {
        available: amount(50000),
        held: amount(100000),
        locked: false,
    };

    let transaction = Transaction {
        id: 1,
        client_id: 1,
        amount: amount(0),
    };

    let mut disputes = HashSet::new();
    disputes.insert(2);

    let mut transaction_logs = TransactionLogs::new();

    transaction_logs.add(&Transaction {
        id: 1,
        client_id: 2,
        amount: amount(10000),
    });

    account.dispute(&transaction, &mut transaction_logs, &mut disputes);

    assert!(
        account
            == Account {
                available: amount(50000),
                held: amount(100000),
                locked: false,
            }
    );

    let mut expected_disputes = HashSet::new();
    expected_disputes.insert(2);
    assert!(disputes == expected_disputes);

    let mut expected_transaction_logs = TransactionLogs::new();

    expected_transaction_logs.add(&Transaction {
        id: 1,
        client_id: 2,
        amount: amount(10000),
    });

    assert!(transaction_logs.0 == expected_transaction_logs.0);
}

#[test]
fn dispute_ok() {
    let mut account = Account {
        available: amount(50000),
        held: amount(100000),
        locked: false,
    };

    let transaction = Transaction {
        id: 1,
        client_id: 1,
        amount: amount(0),
    };

    let mut disputes = HashSet::new();
    disputes.insert(2);

    let mut transaction_logs = TransactionLogs::new();

    transaction_logs.add(&Transaction {
        id: 1,
        client_id: 1,
        amount: amount(30000),
    });

    account.dispute(&transaction, &mut transaction_logs, &mut disputes);

    assert!(
        account
            == Account {
                available: amount(20000),
                held: amount(130000),
                locked: false,
            }
    );

    let mut expected_disputes = HashSet::new();
    expected_disputes.insert(1);
    expected_disputes.insert(2);
    assert!(disputes == expected_disputes);

    let mut expected_transaction_logs = TransactionLogs::new();

    expected_transaction_logs.add(&Transaction {
        id: 1,
        client_id: 1,
        amount: amount(30000),
    });

    assert!(transaction_logs.0 == expected_transaction_logs.0);
}

#[test]
fn resolve_transaction_does_not_exist() {
    let mut account = Account {
        available: amount(20000),
        held: amount(130000),
        locked: false,
    };

    let transaction = Transaction {
        id: 1,
        client_id: 1,
        amount: amount(0),
    };

    let mut disputes = HashSet::new();
    disputes.insert(2);

    let mut transaction_logs = TransactionLogs::new();

    account.resolve(&transaction, &mut transaction_logs, &mut disputes);

    assert!(
        account
            == Account {
                available: amount(20000),
                held: amount(130000),
                locked: false,
            }
    );

    let mut expected_disputes = HashSet::new();
    expected_disputes.insert(2);
    assert!(disputes == expected_disputes);

    assert!(transaction_logs.0 == TransactionLogs::new().0);
}

#[test]
fn resolve_transaction_exists_but_not_owned() {
    let mut account = Account {
        available: amount(20000),
        held: amount(130000),
        locked: false,
    };

    let transaction = Transaction {
        id: 1,
        client_id: 1,
        amount: amount(0),
    };

    let mut disputes = HashSet::new();
    disputes.insert(1);
    disputes.insert(2);

    let mut transaction_logs = TransactionLogs::new();

    transaction_logs.add(&Transaction {
        id: 1,
        client_id: 2,
        amount: amount(10000),
    });

    account.resolve(&transaction, &mut transaction_logs, &mut disputes);

    assert!(
        account
            == Account {
                available: amount(20000),
                held: amount(130000),
                locked: false,
            }
    );

    let mut expected_disputes = HashSet::new();
    expected_disputes.insert(1);
    expected_disputes.insert(2);
    assert!(disputes == expected_disputes);

    let mut expected_transaction_logs = TransactionLogs::new();

    expected_transaction_logs.add(&Transaction {
        id: 1,
        client_id: 2,
        amount: amount(10000),
    });

    assert!(transaction_logs.0 == expected_transaction_logs.0);
}

#[test]
fn resolve_dispute_does_not_exist() {
    let mut account = Account {
        available: amount(20000),
        held: amount(130000),
        locked: false,
    };

    let transaction = Transaction {
        id: 1,
        client_id: 1,
        amount: amount(0),
    };

    let mut disputes = HashSet::new();
    disputes.insert(1);
    disputes.insert(2);

    let mut transaction_logs = TransactionLogs::new();

    transaction_logs.add(&Transaction {
        id: 1,
        client_id: 1,
        amount: amount(30000),
    });

    disputes.remove(&1);

    account.resolve(&transaction, &mut transaction_logs, &mut disputes);

    assert!(
        account
            == Account {
                available: amount(20000),
                held: amount(130000),
                locked: false,
            }
    );

    let mut expected_disputes = HashSet::new();
    expected_disputes.insert(2);
    assert!(disputes == expected_disputes);

    let mut expected_transaction_logs = TransactionLogs::new();

    expected_transaction_logs.add(&Transaction {
        id: 1,
        client_id: 1,
        amount: amount(30000),
    });

    assert!(transaction_logs.0 == expected_transaction_logs.0);
}

#[test]
fn resolve_ok() {
    let mut account = Account {
        available: amount(20000),
        held: amount(130000),
        locked: false,
    };

    let transaction = Transaction {
        id: 1,
        client_id: 1,
        amount: amount(0),
    };

    let mut disputes = HashSet::new();
    disputes.insert(1);
    disputes.insert(2);

    let mut transaction_logs = TransactionLogs::new();

    transaction_logs.add(&Transaction {
        id: 1,
        client_id: 1,
        amount: amount(30000),
    });

    account.resolve(&transaction, &mut transaction_logs, &mut disputes);

    assert!(
        account
            == Account {
                available: amount(50000),
                held: amount(100000),
                locked: false,
            }
    );

    let mut expected_disputes = HashSet::new();
    expected_disputes.insert(2);
    assert!(disputes == expected_disputes);

    let mut expected_transaction_logs = TransactionLogs::new();

    expected_transaction_logs.add(&Transaction {
        id: 1,
        client_id: 1,
        amount: amount(30000),
    });

    assert!(transaction_logs.0 == expected_transaction_logs.0);
}

#[test]
fn chargeback_transaction_does_not_exist() {
    let mut account = Account {
        available: amount(20000),
        held: amount(130000),
        locked: false,
    };

    let transaction = Transaction {
        id: 1,
        client_id: 1,
        amount: amount(0),
    };

    let mut disputes = HashSet::new();
    disputes.insert(2);

    let mut transaction_logs = TransactionLogs::new();

    account.chargeback(&transaction, &mut transaction_logs, &mut disputes);

    assert!(
        account
            == Account {
                available: amount(20000),
                held: amount(130000),
                locked: false,
            }
    );

    let mut expected_disputes = HashSet::new();
    expected_disputes.insert(2);
    assert!(disputes == expected_disputes);

    assert!(transaction_logs.0 == TransactionLogs::new().0);
}

#[test]
fn chargeback_transaction_exists_but_not_owned() {
    let mut account = Account {
        available: amount(20000),
        held: amount(130000),
        locked: false,
    };

    let transaction = Transaction {
        id: 1,
        client_id: 1,
        amount: amount(0),
    };

    let mut disputes = HashSet::new();
    disputes.insert(1);
    disputes.insert(2);

    let mut transaction_logs = TransactionLogs::new();

    transaction_logs.add(&Transaction {
        id: 1,
        client_id: 2,
        amount: amount(10000),
    });

    account.chargeback(&transaction, &mut transaction_logs, &mut disputes);

    assert!(
        account
            == Account {
                available: amount(20000),
                held: amount(130000),
                locked: false,
            }
    );

    let mut expected_disputes = HashSet::new();
    expected_disputes.insert(1);
    expected_disputes.insert(2);
    assert!(disputes == expected_disputes);

    let mut expected_transaction_logs = TransactionLogs::new();

    expected_transaction_logs.add(&Transaction {
        id: 1,
        client_id: 2,
        amount: amount(10000),
    });

    assert!(transaction_logs.0 == expected_transaction_logs.0);
}

#[test]
fn chargeback_dispute_does_not_exist() {
    let mut account = Account {
        available: amount(20000),
        held: amount(130000),
        locked: false,
    };

    let transaction = Transaction {
        id: 1,
        client_id: 1,
        amount: amount(0),
    };

    let mut disputes = HashSet::new();
    disputes.insert(1);
    disputes.insert(2);

    let mut transaction_logs = TransactionLogs::new();

    transaction_logs.add(&Transaction {
        id: 1,
        client_id: 1,
        amount: amount(30000),
    });

    disputes.remove(&1);

    account.chargeback(&transaction, &mut transaction_logs, &mut disputes);

    assert!(
        account
            == Account {
                available: amount(20000),
                held: amount(130000),
                locked: false,
            }
    );

    let mut expected_disputes = HashSet::new();
    expected_disputes.insert(2);
    assert!(disputes == expected_disputes);

    let mut expected_transaction_logs = TransactionLogs::new();

    expected_transaction_logs.add(&Transaction {
        id: 1,
        client_id: 1,
        amount: amount(30000),
    });

    assert!(transaction_logs.0 == expected_transaction_logs.0);
}

#[test]
fn chargeback_ok() {
    let mut account = Account {
        available: amount(20000),
        held: amount(130000),
        locked: false,
    };

    let transaction = Transaction {
        id: 1,
        client_id: 1,
        amount: amount(0),
    };

    let mut disputes = HashSet::new();
    disputes.insert(1);
    disputes.insert(2);

    let mut transaction_logs = TransactionLogs::new();

    transaction_logs.add(&Transaction {
        id: 1,
        client_id: 1,
        amount: amount(30000),
    });

    account.chargeback(&transaction, &mut transaction_logs, &mut disputes);

    assert!(
        account
            == Account {
                available: amount(20000),
                held: amount(100000),
                locked: true,
            }
    );

    let mut expected_disputes = HashSet::new();
    expected_disputes.insert(2);
    assert!(disputes == expected_disputes);

    let mut expected_transaction_logs = TransactionLogs::new();

    expected_transaction_logs.add(&Transaction {
        id: 1,
        client_id: 1,
        amount: amount(30000),
    });

    assert!(transaction_logs.0 == expected_transaction_logs.0);
}

#[test]
fn deposit_twice_same_id() {
    let mut account = Account {
        available: amount(0),
        held: amount(0),
        locked: false,
    };

    let transaction = Transaction {
        id: 1,
        client_id: 1,
        amount: amount(50000),
    };

    let mut transaction_logs = TransactionLogs::new();

    account.deposit(&transaction, &mut transaction_logs);
    let after_once = account;
    account.deposit(&transaction, &mut transaction_logs);

    assert!(account == after_once);
    assert!(account.available == amount(50000));
    assert!(transaction_logs.len() == 1);
}

#[test]
fn dispute_conserves_total() {
    let mut account = Account {
        available: amount(50000),
        held: amount(100000),
        locked: false,
    };

    let transaction = Transaction {
        id: 1,
        client_id: 1,
        amount: amount(0),
    };

    let mut disputes = HashSet::new();
    let mut transaction_logs = TransactionLogs::new();

    transaction_logs.add(&Transaction {
        id: 1,
        client_id: 1,
        amount: amount(30000),
    });

    let total_before = account.available.units + account.held.units;
    account.dispute(&transaction, &mut transaction_logs, &mut disputes);
    let total_after = account.available.units + account.held.units;

    assert!(total_before == total_after);
}

#[test]
fn saturating_arithmetic_clamps() {
    let top = Amount::from_units(i128::MAX);
    let one = Amount::from_units(1);
    assert!(top.saturating_add(one) == top);
    let bottom = Amount::from_units(i128::MIN);
    assert!(bottom.saturating_sub(one) == bottom);
    assert!(Amount::from_units(30000).saturating_sub(one) == Amount::from_units(29999));
}
