//! Reading comma-separated text into headers and rows.
//!
//! The parsing itself is done by the `csv` crate. What it returns is named
//! here by two functions of the input bytes, and nothing more is claimed of
//! it than that the same bytes always parse to the same result.

use vstd::prelude::*;
use crate::error::CompareError;

verus! {

/// The error type of the `csv` crate, carried through without being read.
#[verifier::external_type_specification]
#[verifier::external_body]
pub struct ExCsvError(csv::Error);

/// The header that the `csv` reader, in its default configuration, finds in
/// `data`: the fields of the first record, or `None` where the reader reports
/// an error for it.
pub uninterp spec fn csv_header(data: Seq<u8>) -> Option<Seq<Seq<char>>>;

/// The records that the `csv` reader, in its default configuration, finds in
/// `data` after the header, or `None` where the reader reports an error for
/// one of them.
pub uninterp spec fn csv_records(data: Seq<u8>) -> Option<Seq<Seq<Seq<char>>>>;

/// Calls `csv::Reader::from_reader` on the bytes and `Reader::headers` on the
/// reader, and copies the fields of the header record into strings.
///
/// Trusted: that the outcome is the one named by [`csv_header`], that is, a
/// function of the bytes alone.
#[verifier::external_body]
fn parse_header(data: &[u8]) -> (r: Result<Vec<String>, csv::Error>)
    ensures
        match r {
            Ok(names) => csv_header(data@) == Some(names.deep_view()),
            Err(_) => csv_header(data@) is None,
        },
{
    let mut reader = csv::Reader::from_reader(data);
    let record = reader.headers()?;
    Ok(record.iter().map(String::from).collect())
}

/// Calls `csv::Reader::from_reader` on the bytes and `Reader::records` on the
/// reader, and copies the fields of each record into strings, up to the first
/// record for which the reader reports an error.
///
/// Trusted: that the outcome is the one named by [`csv_records`], that is, a
/// function of the bytes alone.
#[verifier::external_body]
fn parse_records(data: &[u8]) -> (r: Result<Vec<Vec<String>>, csv::Error>)
    ensures
        match r {
            Ok(rows) => csv_records(data@) == Some(rows.deep_view()),
            Err(_) => csv_records(data@) is None,
        },
{
    let mut reader = csv::Reader::from_reader(data);
    let mut rows: Vec<Vec<String>> = Vec::new();
    for record in reader.records() {
        rows.push(record?.iter().map(String::from).collect());
    }
    Ok(rows)
}

/// The header row of comma-separated text.
pub fn read_header(data: &[u8]) -> (r: Result<Vec<String>, CompareError>)
    ensures
        match csv_header(data@) {
            Some(names) => r matches Ok(v) && v.deep_view() == names,
            None => r matches Err(e) && e@ == crate::error::ErrorView::SourceUnreadable,
        },
{
    match parse_header(data) {
        Ok(names) => Ok(names),
        Err(_) => Err(CompareError::SourceUnreadable),
    }
}

/// The rows of comma-separated text that follow its header row.
pub fn read_rows(data: &[u8]) -> (r: Result<Vec<Vec<String>>, CompareError>)
    ensures
        match csv_records(data@) {
            Some(rows) => r matches Ok(v) && v.deep_view() == rows,
            None => r matches Err(e) && e@ == crate::error::ErrorView::SourceUnreadable,
        },
{
    match parse_records(data) {
        Ok(rows) => Ok(rows),
        Err(_) => Err(CompareError::SourceUnreadable),
    }
}

} // verus!
