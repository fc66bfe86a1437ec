use csv::StringRecord;
use ledger::libs::Amount;
use ledger::transaction::{parse_amount, truncate_units, Transaction};

#[test]
fn two_cols() {
    let record = StringRecord::from(vec!["desposit", "1"]);
    let transaction = Transaction::parse_record(&StringRecord::from(record));

    assert!(transaction == None);
}

#[test]
fn invalid_id() {
    let record = StringRecord::from(vec!["desposit", "invalid-id", "1", "1.0"]);
    let transaction = Transaction::parse_record(&StringRecord::from(record));

    assert!(transaction == None);
}

#[test]
fn invalid_client_id() {
    let record = StringRecord::from(vec!["desposit", "1", "invalid-client-id", "1.0"]);
    let transaction = Transaction::parse_record(&StringRecord::from(record));

    assert!(transaction == None);
}

#[test]
fn three_cols() {
    let record = StringRecord::from(vec!["despute", "1", "1"]);
    let transaction = Transaction::parse_record(&StringRecord::from(record));

    let expected_transaction = Transaction {
        id: 1,
        client_id: 1,
        amount: Amount::from_units(0),
    };

    assert!(transaction == Some(expected_transaction));
}

#[test]
fn invalid_amount() {
    let record = StringRecord::from(vec!["desposit", "1", "1", "invalid-amount"]);
    let transaction = Transaction::parse_record(&StringRecord::from(record));

    assert!(transaction == None);
}

#[test]
fn negative_amount() {
    let record = StringRecord::from(vec!["despute", "1", "1", "-5.0"]);
    let transaction = Transaction::parse_record(&StringRecord::from(record));

    assert!(transaction == None);
}

#[test]
fn parse_record_ok() {
    let record = StringRecord::from(vec!["despute", "1", "1", "1.0"]);
    let transaction = Transaction::parse_record(&StringRecord::from(record));

    let expected_transaction = Transaction {
        id: 1,
        client_id: 1,
        amount: Amount::from_units(10000),
    };

    assert!(transaction == Some(expected_transaction));
}

#[test]
fn parse_record_truncates_amount() {
    let record = StringRecord::from(vec!["deposit", "7", "42", "1.23456"]);
    let transaction = Transaction::parse_record(&StringRecord::from(record));

    let expected_transaction = Transaction {
        id: 42,
        client_id: 7,
        amount: Amount::from_units(12345),
    };

    assert!(transaction == Some(expected_transaction));
}

#[test]
fn parse_record_zero_amount() {
    let record = StringRecord::from(vec!["deposit", "1", "1", "0.0"]);
    let transaction = Transaction::parse_record(&StringRecord::from(record));

    assert!(transaction == None);
}

#[test]
fn truncate_units_toward_zero() {
    assert!(truncate_units(123456, 5) == 12345);
    assert!(truncate_units(-123456, 5) == -12345);
    assert!(truncate_units(5, 0) == 50000);
    assert!(truncate_units(31415926, 7) == 31415);
    assert!(truncate_units(-9999, 8) == 0);
}

#[test]
fn parse_amount_reads_the_text() {
    assert!(parse_amount("1.5") == Some(Amount::from_units(15000)));
    assert!(parse_amount("-0.0001") == Some(Amount::from_units(-1)));
    assert!(parse_amount("250") == Some(Amount::from_units(2500000)));
    assert!(parse_amount("not-a-number") == None);
}
