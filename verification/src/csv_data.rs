//! Columns of numbers read from CSV text: the records that the `csv` crate
//! parses, turned into columns.

use vstd::prelude::*;
use crate::morse::strings_view;

verus! {

/// What `csv` parses from `bytes` with its default settings (a header row that
/// is skipped, commas between fields): the fields of each record after the
/// header, or nothing when it reports an error.
pub uninterp spec fn csv_records_of(bytes: Seq<u8>) -> Option<Seq<Seq<Seq<char>>>>;

/// The fields of each record, as character sequences.
pub open spec fn records_view(records: Seq<Vec<String>>) -> Seq<Seq<Seq<char>>> {
    records.map_values(|r: Vec<String>| strings_view(r@))
}

/// Calls `csv::Reader::from_reader` on `bytes` and collects `records()`, each
/// record as its fields. Its contract claims that the result is the named
/// parse of `bytes`: the records when every one was read, `None` at the first
/// error, as `records()` stops the original reading with `?` there.
#[verifier::external_body]
fn csv_records(bytes: &[u8]) -> (r: Option<Vec<Vec<String>>>)
    ensures
        r is Some <==> csv_records_of(bytes@) is Some,
        r matches Some(records) ==> records_view(records@) == csv_records_of(bytes@)->0,
{
    let mut reader = csv::Reader::from_reader(bytes);
    reader
        .records()
        .map(|rec| rec.map(|fields| fields.iter().map(String::from).collect::<Vec<String>>()))
        .collect::<Result<Vec<Vec<String>>, csv::Error>>()
        .ok()
}

/// Column `j` of the records that have `n` fields, in record order.
pub open spec fn column_of(rows: Seq<Seq<Seq<char>>>, n: nat, j: int) -> Seq<Seq<char>>
    decreases rows.len(),
{
    if rows.len() == 0 {
        Seq::empty()
    } else {
        let prev = column_of(rows.drop_last(), n, j);
        if rows.last().len() == n {
            prev.push(rows.last()[j])
        } else {
            prev
        }
    }
}

/// The columns of `rows`: as many as the first record has fields, each holding
/// that field of every record of the same width, in record order.
pub open spec fn columns_of(rows: Seq<Seq<Seq<char>>>) -> Seq<Seq<Seq<char>>> {
    if rows.len() == 0 {
        Seq::empty()
    } else {
        Seq::new(rows[0].len(), |j: int| column_of(rows, rows[0].len(), j))
    }
}

/// Turns records into columns. The first record fixes the number of columns;
/// a record with another number of fields is skipped.
pub fn columns_from_records(records: &Vec<Vec<String>>) -> (cols: Vec<Vec<String>>)
    ensures
        records_view(cols@) == columns_of(records_view(records@)),
{
    let ghost rows = records_view(records@);
    let mut cols: Vec<Vec<String>> = Vec::new();
    if records.len() == 0 {
        assert(records_view(cols@) =~= columns_of(rows));
        return cols;
    }
    let ncols = records[0].len();
    while cols.len() < ncols
        invariant
            cols.len() <= ncols,
            forall|j: int| 0 <= j < cols.len() ==> #[trigger] cols[j]@.len() == 0,
        decreases ncols - cols.len(),
    {
        cols.push(Vec::new());
    }
    let mut i: usize = 0;
    while i < records.len()
        invariant
            records.len() > 0,
            rows == records_view(records@),
            ncols == records[0].len(),
            i <= records.len(),
            cols.len() == ncols,
            forall|j: int|
                0 <= j < ncols ==> #[trigger] strings_view(cols[j]@) == column_of(
                    rows.take(i as int),
                    ncols as nat,
                    j,
                ),
        decreases records.len() - i,
    {
        let record = &records[i];
        proof {
            assert(rows.take(i + 1).drop_last() =~= rows.take(i as int));
            assert(rows.take(i + 1).last() == strings_view(record@));
        }
        if record.len() == ncols {
            let mut j: usize = 0;
            while j < ncols
                invariant
                    0 < records.len(),
                    i < records.len(),
                    record == records[i as int],
                    record.len() == ncols,
                    ncols == records[0].len(),
                    rows == records_view(records@),
                    rows.take(i + 1).len() == i + 1,
                    rows.take(i + 1).drop_last() == rows.take(i as int),
                    rows.take(i + 1).last() == strings_view(record@),
                    j <= ncols,
                    cols.len() == ncols,
                    forall|k: int|
                        0 <= k < j ==> #[trigger] strings_view(cols[k]@) == column_of(
                            rows.take(i + 1),
                            ncols as nat,
                            k,
                        ),
                    forall|k: int|
                        j <= k < ncols ==> #[trigger] strings_view(cols[k]@) == column_of(
                            rows.take(i as int),
                            ncols as nat,
                            k,
                        ),
                decreases ncols - j,
            {
                let v = record[j].clone();
                assert(strings_view(record@).len() == ncols);
                assert(strings_view(record@)[j as int] == record@[j as int]@);
                assert(column_of(rows.take(i + 1), ncols as nat, j as int) == column_of(
                    rows.take(i as int),
                    ncols as nat,
                    j as int,
                ).push(record@[j as int]@));
                let mut col = Vec::new();
                std::mem::swap(&mut col, &mut cols[j]);
                let ghost col_before = col@;
                col.push(v);
                assert(strings_view(col@) =~= strings_view(col_before).push(record@[j as int]@));
                cols.set(j, col);
                j = j + 1;
            }
        } else {
            assert(strings_view(record@).len() != ncols);
            assert forall|k: int| 0 <= k < ncols implies #[trigger] strings_view(cols[k]@) == column_of(
                rows.take(i + 1),
                ncols as nat,
                k,
            ) by {}
        }
        i = i + 1;
    }
    assert(rows.take(records.len() as int) =~= rows);
    assert(records_view(cols@) =~= columns_of(rows));
    cols
}

/// The columns of the CSV text `bytes`, as `columns_from_records` makes them
/// from the records that `csv` parses; `None` when it reports an error.
pub fn csv_columns(bytes: &[u8]) -> (r: Option<Vec<Vec<String>>>)
    ensures
        r is Some <==> csv_records_of(bytes@) is Some,
        r matches Some(cols) ==> records_view(cols@) == columns_of(csv_records_of(bytes@)->0),
{
    match csv_records(bytes) {
        Some(records) => Some(columns_from_records(&records)),
        None => None,
    }
}

} // verus!
