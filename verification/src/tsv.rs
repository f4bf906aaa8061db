//! Loading a data set from tab-separated text: from the fields that the
//! reader finds to the table of their numbers.

use vstd::prelude::*;
use crate::dataset::{is_table_of, table, DataSet, LoadError};
use crate::decimal::{fixed_of_text, parse_fixed};
use crate::reader::{fields, names, read_headers, read_records, tsv_headers, tsv_records};

verus! {

/// The number that each field of each record writes.
pub open spec fn values(records: Seq<Seq<Seq<u8>>>) -> Seq<Seq<i64>> {
    Seq::new(records.len(), |i: int| Seq::new(records[i].len(), |j: int| fixed_of_text(records[i][j])))
}

/// Reads the number of every field of a record.
pub fn parse_record(record: &Vec<Vec<u8>>) -> (row: Vec<i64>)
    ensures
        row.len() == record.len(),
        forall|j: int| 0 <= j < row.len() ==> #[trigger] row[j] == fixed_of_text(record[j]@),
{
    let mut row: Vec<i64> = Vec::new();
    let mut j: usize = 0;
    while j < record.len()
        invariant
            j <= record.len(),
            row.len() == j,
            forall|m: int| 0 <= m < j ==> #[trigger] row[m] == fixed_of_text(record[m]@),
        decreases record.len() - j,
    {
        row.push(parse_fixed(record[j].as_slice()));
        j += 1;
    }
    row
}

impl DataSet {
    /// Builds a data set from records of text fields. A field that writes no
    /// number gives a cell that is not a number; it is no error.
    ///
    /// Fails when there is no record, when a record has another number of
    /// fields than the first, or when the table is too large.
    pub fn from_records(headers: Option<Vec<String>>, records: &Vec<Vec<Vec<u8>>>) -> (r: Result<
        DataSet,
        LoadError,
    >)
        ensures
            is_table_of(values(fields(records@)), r),
            r matches Ok(ds) ==> ds.headers == headers,
    {
        let mut rows: Vec<Vec<i64>> = Vec::new();
        let mut i: usize = 0;
        while i < records.len()
            invariant
                i <= records.len(),
                rows.len() == i,
                forall|m: int| 0 <= m < i ==> #[trigger] rows[m]@ == values(fields(records@))[m],
            decreases records.len() - i,
        {
            let row: Vec<i64> = parse_record(&records[i]);
            assert(row@ =~= values(fields(records@))[i as int]);
            rows.push(row);
            i += 1;
        }
        assert(table(rows@) =~= values(fields(records@)));
        DataSet::from_rows(&rows, headers)
    }

    /// Loads a data set from tab-separated text whose first line names the
    /// columns.
    ///
    /// Fails with `Malformed` when the text cannot be split into records,
    /// and otherwise as [`DataSet::from_records`] does on its records.
    pub fn from_tsv(content: &[u8]) -> (r: Result<DataSet, LoadError>)
        ensures
            match tsv_records(content@) {
                Some(records) => is_table_of(values(records), r),
                None => r == Err::<DataSet, LoadError>(LoadError::Malformed),
            },
            r matches Ok(ds) ==> names(ds.headers) == tsv_headers(content@),
    {
        let headers: Option<Vec<String>> = read_headers(content);
        match read_records(content) {
            Ok(records) => DataSet::from_records(headers, &records),
            Err(_) => Err(LoadError::Malformed),
        }
    }
}

} // verus!
