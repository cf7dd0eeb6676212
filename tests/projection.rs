use cheatcodes::error::Error;
use cheatcodes::projection::{project_opt, project_row, project_rows, Row};

fn row(cols: &[(&str, &[u8])]) -> Row {
    Row { columns: cols.iter().map(|(n, v)| (n.to_string(), v.to_vec())).collect() }
}

fn names(ns: &[&str]) -> Vec<String> {
    ns.iter().map(|n| n.to_string()).collect()
}

#[test]
fn row_projected_in_requested_order_with_duplicates() {
    let r = row(&[("a", b"1"), ("b", b"22"), ("c", b"")]);
    let got = project_row(&r, &names(&["c", "a", "a", "b"])).unwrap();
    assert_eq!(got, vec![b"".to_vec(), b"1".to_vec(), b"1".to_vec(), b"22".to_vec()]);
}

#[test]
fn first_column_of_a_repeated_name_wins() {
    let r = row(&[("x", b"first"), ("x", b"second")]);
    assert_eq!(project_row(&r, &names(&["x"])).unwrap(), vec![b"first".to_vec()]);
}

#[test]
fn missing_column_names_the_first_missing() {
    let r = row(&[("a", b"1")]);
    match project_row(&r, &names(&["a", "zz", "yy"])) {
        Err(Error::MissingColumn(n)) => assert_eq!(n, "zz"),
        other => panic!("unexpected {:?}", other),
    }
}

#[test]
fn no_selection_gives_empty_row() {
    let r = row(&[("a", b"1")]);
    assert!(project_row(&r, &names(&[])).unwrap().is_empty());
}

#[test]
fn rows_keep_engine_order() {
    let rows = vec![row(&[("id", b"2"), ("v", b"b")]), row(&[("v", b"a"), ("id", b"1")])];
    let got = project_rows(&rows, &names(&["v", "id"])).unwrap();
    assert_eq!(got, vec![vec![b"b".to_vec(), b"2".to_vec()], vec![b"a".to_vec(), b"1".to_vec()]]);
}

#[test]
fn no_rows_never_fail() {
    assert!(project_rows(&vec![], &names(&["anything"])).unwrap().is_empty());
}

#[test]
fn missing_column_in_any_row_fails() {
    let rows = vec![row(&[("v", b"a")]), row(&[("w", b"b")])];
    match project_rows(&rows, &names(&["v"])) {
        Err(Error::MissingColumn(n)) => assert_eq!(n, "v"),
        other => panic!("unexpected {:?}", other),
    }
}

#[test]
fn optional_row() {
    assert!(project_opt(&None, &names(&["v"])).unwrap().is_none());
    let one = Some(row(&[("v", b"7"), ("w", b"8")]));
    assert_eq!(project_opt(&one, &names(&["w"])).unwrap(), Some(vec![b"8".to_vec()]));
    match project_opt(&one, &names(&["nope"])) {
        Err(Error::MissingColumn(n)) => assert_eq!(n, "nope"),
        other => panic!("unexpected {:?}", other),
    }
}
