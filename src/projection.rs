//! Result projection: picks the caller's columns out of each result row, in
//! the caller's order, as raw bytes.
use vstd::prelude::*;
use crate::error::Error;

verus! {

/// One result row: each column's name and raw bytes, in the engine's column
/// order.
pub struct Row {
    pub columns: Vec<(String, Vec<u8>)>,
}

/// Bytes of the first column named `name` at or after index `k`.
pub open spec fn cell_from(cols: Seq<(String, Vec<u8>)>, name: Seq<char>, k: int) -> Option<
    Seq<u8>,
>
    decreases cols.len() - k,
{
    if k < 0 || k >= cols.len() {
        None
    } else if cols[k].0@ == name {
        Some(cols[k].1@)
    } else {
        cell_from(cols, name, k + 1)
    }
}

impl Row {
    /// Bytes of the first column named `name`, if the row has one.
    pub open spec fn cell(&self, name: Seq<char>) -> Option<Seq<u8>> {
        cell_from(self.columns@, name, 0)
    }
}

pub open spec fn names(selects: Seq<String>) -> Seq<Seq<char>> {
    selects.map_values(|s: String| s@)
}

pub open spec fn bytes_view(v: Seq<Vec<u8>>) -> Seq<Seq<u8>> {
    v.map_values(|b: Vec<u8>| b@)
}

pub open spec fn rows_view(v: Seq<Vec<Vec<u8>>>) -> Seq<Seq<Seq<u8>>> {
    v.map_values(|r: Vec<Vec<u8>>| bytes_view(r@))
}

/// The selected columns of `row`, in the order of `sels`; or the first
/// selected name the row lacks.
pub open spec fn projection(row: Row, sels: Seq<Seq<char>>) -> Result<Seq<Seq<u8>>, Seq<char>>
    decreases sels.len(),
{
    if sels.len() == 0 {
        Ok(seq![])
    } else {
        match projection(row, sels.drop_last()) {
            Err(n) => Err(n),
            Ok(v) => match row.cell(sels.last()) {
                None => Err(sels.last()),
                Some(b) => Ok(v.push(b)),
            },
        }
    }
}

/// Each row projected, in the order of `rows`; or the first missing name of
/// the first row that lacks one.
pub open spec fn projection_all(rows: Seq<Row>, sels: Seq<Seq<char>>) -> Result<
    Seq<Seq<Seq<u8>>>,
    Seq<char>,
>
    decreases rows.len(),
{
    if rows.len() == 0 {
        Ok(seq![])
    } else {
        match projection_all(rows.drop_last(), sels) {
            Err(n) => Err(n),
            Ok(v) => match projection(rows.last(), sels) {
                Err(n) => Err(n),
                Ok(p) => Ok(v.push(p)),
            },
        }
    }
}

/// Bytes of the first column named `name`.
fn find_cell(row: &Row, name: &String) -> (r: Option<Vec<u8>>)
    ensures
        match row.cell(name@) {
            Some(b) => r matches Some(v) && v@ == b,
            None => r is None,
        },
{
    let n = row.columns.len();
    let mut k: usize = 0;
    while k < n
        invariant
            n == row.columns@.len(),
            k <= n,
            row.cell(name@) == cell_from(row.columns@, name@, k as int),
        decreases n - k,
    {
        if row.columns[k].0 == *name {
            let b = row.columns[k].1.clone();
            assert(b@ =~= row.columns@[k as int].1@);
            return Some(b);
        }
        k = k + 1;
    }
    None
}

/// The columns `selects` of `row`, in that order, as raw bytes. Fails with
/// `MissingColumn` naming the first selected column the row lacks.
pub fn project_row(row: &Row, selects: &Vec<String>) -> (r: Result<Vec<Vec<u8>>, Error>)
    ensures
        match projection(*row, names(selects@)) {
            Ok(v) => r matches Ok(w) && bytes_view(w@) == v,
            Err(n) => r matches Err(Error::MissingColumn(m)) && m@ == n,
        },
{
    let ghost sels = names(selects@);
    let n = selects.len();
    let mut out: Vec<Vec<u8>> = Vec::new();
    let mut i: usize = 0;
    assert(sels.take(0) =~= Seq::<Seq<char>>::empty());
    assert(bytes_view(out@) =~= Seq::<Seq<u8>>::empty());
    while i < n
        invariant
            n == selects@.len(),
            sels == names(selects@),
            i <= n,
            projection(*row, sels.take(i as int)) == Ok::<Seq<Seq<u8>>, Seq<char>>(
                bytes_view(out@),
            ),
        decreases n - i,
    {
        assert(sels.take(i as int + 1).drop_last() =~= sels.take(i as int));
        assert(sels.take(i as int + 1).last() == selects@[i as int]@);
        match find_cell(row, &selects[i]) {
            None => {
                assert(projection(*row, sels.take(i as int + 1)) is Err);
                proof {
                    lemma_projection_err_prefix(*row, sels, i as int + 1);
                }
                return Err(Error::MissingColumn(selects[i].clone()));
            },
            Some(b) => {
                let ghost before = out@;
                out.push(b);
                assert(bytes_view(out@) =~= bytes_view(before).push(b@));
            },
        }
        i = i + 1;
    }
    assert(sels.take(n as int) =~= sels);
    Ok(out)
}

/// A missing name in a prefix is the missing name of the whole list.
proof fn lemma_projection_err_prefix(row: Row, sels: Seq<Seq<char>>, j: int)
    requires
        0 <= j <= sels.len(),
        projection(row, sels.take(j)) is Err,
    ensures
        projection(row, sels) == projection(row, sels.take(j)),
    decreases sels.len() - j,
{
    if j < sels.len() {
        assert(sels.take(j + 1).drop_last() =~= sels.take(j));
        lemma_projection_err_prefix(row, sels, j + 1);
    } else {
        assert(sels.take(j) =~= sels);
    }
}

/// Each of `rows` projected to the columns `selects`, in the engine's row
/// order. Fails with `MissingColumn` as soon as one row lacks a selected
/// column; no rows give no failure.
pub fn project_rows(rows: &Vec<Row>, selects: &Vec<String>) -> (r: Result<Vec<Vec<Vec<u8>>>, Error>)
    ensures
        match projection_all(rows@, names(selects@)) {
            Ok(v) => r matches Ok(w) && rows_view(w@) == v,
            Err(n) => r matches Err(Error::MissingColumn(m)) && m@ == n,
        },
{
    let ghost sels = names(selects@);
    let n = rows.len();
    let mut out: Vec<Vec<Vec<u8>>> = Vec::new();
    let mut i: usize = 0;
    assert(rows@.take(0) =~= Seq::<Row>::empty());
    assert(rows_view(out@) =~= Seq::<Seq<Seq<u8>>>::empty());
    while i < n
        invariant
            n == rows@.len(),
            sels == names(selects@),
            i <= n,
            projection_all(rows@.take(i as int), sels) == Ok::<Seq<Seq<Seq<u8>>>, Seq<char>>(
                rows_view(out@),
            ),
        decreases n - i,
    {
        assert(rows@.take(i as int + 1).drop_last() =~= rows@.take(i as int));
        assert(rows@.take(i as int + 1).last() == rows@[i as int]);
        match project_row(&rows[i], selects) {
            Err(e) => {
                proof {
                    lemma_projection_all_err_prefix(rows@, sels, i as int + 1);
                }
                return Err(e);
            },
            Ok(p) => {
                let ghost before = out@;
                out.push(p);
                assert(rows_view(out@) =~= rows_view(before).push(bytes_view(p@)));
            },
        }
        i = i + 1;
    }
    assert(rows@.take(n as int) =~= rows@);
    Ok(out)
}

proof fn lemma_projection_all_err_prefix(rows: Seq<Row>, sels: Seq<Seq<char>>, j: int)
    requires
        0 <= j <= rows.len(),
        projection_all(rows.take(j), sels) is Err,
    ensures
        projection_all(rows, sels) == projection_all(rows.take(j), sels),
    decreases rows.len() - j,
{
    if j < rows.len() {
        assert(rows.take(j + 1).drop_last() =~= rows.take(j));
        lemma_projection_all_err_prefix(rows, sels, j + 1);
    } else {
        assert(rows.take(j) =~= rows);
    }
}

/// The columns `selects` of the row, if there is one: no row gives
/// `Ok(None)`; a row gives its projection, or `MissingColumn` for the first
/// selected column it lacks.
pub fn project_opt(row: &Option<Row>, selects: &Vec<String>) -> (r: Result<
    Option<Vec<Vec<u8>>>,
    Error,
>)
    ensures
        match row {
            None => r matches Ok(None),
            Some(x) => match projection(*x, names(selects@)) {
                Ok(v) => r matches Ok(Some(w)) && bytes_view(w@) == v,
                Err(n) => r matches Err(Error::MissingColumn(m)) && m@ == n,
            },
        },
{
    match row {
        None => Ok(None),
        Some(x) => match project_row(x, selects) {
            Ok(w) => Ok(Some(w)),
            Err(e) => Err(e),
        },
    }
}

} // verus!
