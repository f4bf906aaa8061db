//! Splitting tab-separated text into records and fields, which the `csv`
//! crate does.
//!
//! Nothing here is proved. What the reader of the `csv` crate returns for a
//! given text goes by the names [`tsv_headers`] and [`tsv_records`], and the
//! two functions of this file say no more than that they return it.

use vstd::prelude::*;

verus! {

#[verifier::external_type_specification]
#[verifier::external_body]
pub struct ExCsvError(csv::Error);

/// The fields of the first line of the text, or `None` where the reader of
/// the `csv` crate cannot give them as strings.
pub uninterp spec fn tsv_headers(content: Seq<u8>) -> Option<Seq<Seq<char>>>;

/// The records after the first line of the text, each as the bytes of its
/// fields, or `None` where the reader of the `csv` crate fails on one.
pub uninterp spec fn tsv_records(content: Seq<u8>) -> Option<Seq<Seq<Seq<u8>>>>;

/// The characters of each column name.
pub open spec fn names(headers: Option<Vec<String>>) -> Option<Seq<Seq<char>>> {
    match headers {
        Some(h) => Some(Seq::new(h@.len(), |i: int| h@[i]@)),
        None => None,
    }
}

/// The bytes of each field of each record.
pub open spec fn fields(records: Seq<Vec<Vec<u8>>>) -> Seq<Seq<Seq<u8>>> {
    Seq::new(records.len(), |i: int| Seq::new(records[i]@.len(), |j: int| records[i]@[j]@))
}

/// `csv::Reader::headers` of a reader over the text that `csv::ReaderBuilder`
/// makes with a tab as delimiter and a header line. The result is a function
/// of the text, named [`tsv_headers`]; an error of the reader becomes `None`.
#[verifier::external_body]
pub(crate) fn read_headers(content: &[u8]) -> (r: Option<Vec<String>>)
    ensures
        names(r) == tsv_headers(content@),
{
    let mut reader = csv::ReaderBuilder::new().delimiter(b'\t').has_headers(true).from_reader(content);
    match reader.headers() {
        Ok(record) => Some(record.iter().map(|field| field.to_string()).collect()),
        Err(_) => None,
    }
}

/// `csv::Reader::records` of a reader made in the same way, read to the end
/// or to the first error. The result is a function of the text, named
/// [`tsv_records`].
#[verifier::external_body]
pub(crate) fn read_records(content: &[u8]) -> (r: Result<Vec<Vec<Vec<u8>>>, csv::Error>)
    ensures
        match r {
            Ok(records) => tsv_records(content@) == Some(fields(records@)),
            Err(_) => tsv_records(content@) is None,
        },
{
    let mut reader = csv::ReaderBuilder::new().delimiter(b'\t').has_headers(true).from_reader(content);
    let mut records = Vec::new();
    for record in reader.records() {
        records.push(record?.iter().map(|field| field.as_bytes().to_vec()).collect());
    }
    Ok(records)
}

} // verus!
