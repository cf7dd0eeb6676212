use cheatcodes::error::Error;
use cheatcodes::projection::{project_rows, Row};
use cheatcodes::session::Session;
use std::collections::HashSet;

/// A stand-in for the engine: the committed rows of one one-column table.
struct Table {
    rows: Vec<Vec<u8>>,
}

/// A stand-in for an open transaction: the rows it inserted so far.
struct Pending {
    rows: Vec<Vec<u8>>,
}

fn as_rows(values: &[Vec<u8>]) -> Vec<Row> {
    values.iter().map(|v| Row { columns: vec![("value".to_string(), v.clone())] }).collect()
}

fn connected() -> Session<Table, Pending> {
    let mut s = Session::new();
    s.connect(Table { rows: Vec::new() });
    s
}

#[test]
fn operations_before_connect_fail() {
    let mut s: Session<Table, Pending> = Session::new();
    assert!(!s.is_connected());
    assert!(matches!(s.connection(), Err(Error::NotConnected)));
    assert!(matches!(s.open_transaction(Pending { rows: vec![] }), Err(Error::NotConnected)));
    assert!(matches!(s.register_transaction(1, Pending { rows: vec![] }), Err(Error::NotConnected)));
    assert!(matches!(s.transaction(1), Err(Error::NotConnected)));
    assert!(matches!(s.close_transaction(1), Err(Error::NotConnected)));
    assert!(matches!(s.close_any_transaction(), Err(Error::NotConnected)));
}

#[test]
fn unknown_id_is_not_found() {
    let mut s = connected();
    assert!(matches!(s.transaction(42), Err(Error::NotFound(_))));
    assert!(matches!(s.close_transaction(42), Err(Error::NotFound(_))));
}

#[test]
fn registered_id_routes_until_closed() {
    let mut s = connected();
    assert_eq!(s.register_transaction(7, Pending { rows: vec![] }).unwrap(), 7);
    assert_eq!(s.open_count(), 1);
    s.transaction(7).unwrap().rows.push(vec![1]);
    assert_eq!(s.transaction(7).unwrap().rows, vec![vec![1u8]]);
    let closed = s.close_transaction(7).unwrap();
    assert_eq!(closed.rows, vec![vec![1u8]]);
    assert_eq!(s.open_count(), 0);
    assert!(matches!(s.transaction(7), Err(Error::NotFound(_))));
    assert!(matches!(s.close_transaction(7), Err(Error::NotFound(_))));
    assert!(matches!(s.register_transaction(7, Pending { rows: vec![] }), Err(Error::DuplicateId)));
    assert!(matches!(s.transaction(7), Err(Error::NotFound(_))));
}

#[test]
fn duplicate_id_is_refused_while_open() {
    let mut s = connected();
    s.register_transaction(3, Pending { rows: vec![] }).unwrap();
    assert!(matches!(s.register_transaction(3, Pending { rows: vec![vec![9]] }), Err(Error::DuplicateId)));
    assert!(s.transaction(3).unwrap().rows.is_empty());
}

#[test]
fn opened_ids_are_all_distinct() {
    let mut s = connected();
    let mut seen = HashSet::new();
    for _ in 0..200 {
        let id = s.open_transaction(Pending { rows: vec![] }).unwrap();
        assert!(seen.insert(id));
    }
    assert_eq!(s.open_count(), 200);
}

#[test]
fn closing_all_empties_the_session() {
    let mut s = connected();
    let a = s.open_transaction(Pending { rows: vec![] }).unwrap();
    let b = s.open_transaction(Pending { rows: vec![] }).unwrap();
    let mut closed = Vec::new();
    while let Some((id, _)) = s.close_any_transaction().unwrap() {
        closed.push(id);
    }
    closed.sort();
    let mut expected = vec![a, b];
    expected.sort();
    assert_eq!(closed, expected);
    assert_eq!(s.open_count(), 0);
    assert!(matches!(s.transaction(a), Err(Error::NotFound(_))));
    assert!(matches!(s.close_transaction(b), Err(Error::NotFound(_))));
}

#[test]
fn rolled_back_insert_is_invisible() {
    let mut s = connected();
    let id = s.open_transaction(Pending { rows: vec![] }).unwrap();
    // INSERT INTO t VALUES ($1) inside the transaction.
    s.transaction(id).unwrap().rows.push(b"hello".to_vec());
    let inside = {
        let committed = s.connection().unwrap().rows.clone();
        let mut all = committed;
        all.extend(s.transaction(id).unwrap().rows.clone());
        project_rows(&as_rows(&all), &vec!["value".to_string()]).unwrap()
    };
    assert_eq!(inside, vec![vec![b"hello".to_vec()]]);
    // Rollback: the pending rows are dropped.
    drop(s.close_transaction(id).unwrap());
    let after = project_rows(&as_rows(&s.connection().unwrap().rows), &vec!["value".to_string()]).unwrap();
    assert!(after.is_empty());
    assert!(matches!(s.transaction(id), Err(Error::NotFound(_))));
}

#[test]
fn two_transactions_committed_together() {
    let mut s = connected();
    let a = s.open_transaction(Pending { rows: vec![] }).unwrap();
    let b = s.open_transaction(Pending { rows: vec![] }).unwrap();
    assert_ne!(a, b);
    s.transaction(a).unwrap().rows.push(vec![1]);
    s.transaction(b).unwrap().rows.push(vec![2]);
    while let Some((_, t)) = s.close_any_transaction().unwrap() {
        s.connection().unwrap().rows.extend(t.rows);
    }
    assert_eq!(s.open_count(), 0);
    let mut visible = project_rows(&as_rows(&s.connection().unwrap().rows), &vec!["value".to_string()]).unwrap();
    visible.sort();
    assert_eq!(visible, vec![vec![vec![1u8]], vec![vec![2u8]]]);
}

#[test]
fn error_messages() {
    assert_eq!(Error::NotFound("Transaction not found".to_string()).message(), "Not found: Transaction not found");
    assert_eq!(Error::Postgres("boom".to_string()).message(), "PostgreSQL error: boom");
    assert_eq!(Error::NotConnected.message(), "Not connected");
    assert_eq!(Error::Connection("refused".to_string()).message(), "Connection error: refused");
    assert_eq!(Error::MissingColumn("c".to_string()).message(), "Missing column: c");
    assert_eq!(Error::DuplicateId.message(), "Duplicate transaction id");
}
