//! The whole comparison: validate the headers, index both tables, compare the
//! indexes.

use vstd::prelude::*;
use crate::diff::{diff, diff_spec, DiffResult, DiffView};
use crate::error::{CompareError, ErrorView};
use crate::index::{aligned, index, index_spec, lemma_index_succeeds};
use crate::names::not_among;
use crate::schema::{validate, validate_spec};
use crate::source::{csv_header, csv_records, read_header, read_rows};

verus! {

/// What comparing two tables gives once their headers are known to agree and
/// the value columns are fixed.
pub open spec fn compare_rows_spec(
    header1: Seq<Seq<char>>,
    rows1: Seq<Seq<Seq<char>>>,
    header2: Seq<Seq<char>>,
    rows2: Seq<Seq<Seq<char>>>,
    primary_keys: Seq<Seq<char>>,
    value_columns: Seq<Seq<char>>,
) -> Result<DiffView, ErrorView> {
    match index_spec(rows1, header1, primary_keys, value_columns) {
        Err(error) => Err(error),
        Ok(left) => match index_spec(rows2, header2, primary_keys, value_columns) {
            Err(error) => Err(error),
            Ok(right) => Ok(diff_spec(left, right)),
        },
    }
}

/// What [`compare`] returns.
pub open spec fn compare_spec(
    header1: Seq<Seq<char>>,
    rows1: Seq<Seq<Seq<char>>>,
    header2: Seq<Seq<char>>,
    rows2: Seq<Seq<Seq<char>>>,
    primary_keys: Seq<Seq<char>>,
) -> Result<DiffView, ErrorView> {
    match validate_spec(header1, header2, primary_keys) {
        Err(error) => Err(error),
        Ok(value_columns) => compare_rows_spec(
            header1,
            rows1,
            header2,
            rows2,
            primary_keys,
            value_columns,
        ),
    }
}

/// What [`compare_csv`] returns, given what the reader finds in the two
/// texts. The headers are read and validated before any row is looked at.
pub open spec fn compare_csv_spec(
    header1: Option<Seq<Seq<char>>>,
    rows1: Option<Seq<Seq<Seq<char>>>>,
    header2: Option<Seq<Seq<char>>>,
    rows2: Option<Seq<Seq<Seq<char>>>>,
    primary_keys: Seq<Seq<char>>,
) -> Result<DiffView, ErrorView> {
    match (header1, header2) {
        (Some(h1), Some(h2)) => match validate_spec(h1, h2, primary_keys) {
            Err(error) => Err(error),
            Ok(value_columns) => match (rows1, rows2) {
                (Some(r1), Some(r2)) => compare_rows_spec(
                    h1,
                    r1,
                    h2,
                    r2,
                    primary_keys,
                    value_columns,
                ),
                _ => Err(ErrorView::SourceUnreadable),
            },
        },
        _ => Err(ErrorView::SourceUnreadable),
    }
}

/// Whether a result of comparing is the expected one.
pub open spec fn is_compared(
    r: Result<DiffResult, CompareError>,
    expected: Result<DiffView, ErrorView>,
) -> bool {
    match expected {
        Ok(found) => r matches Ok(d) && d@ == found,
        Err(error) => r matches Err(e) && e@ == error,
    }
}

/// On tables whose rows are aligned with their headers, the comparison is
/// carried out exactly when the headers pass validation: when they name the
/// same set of columns and every key column is among them.
pub proof fn lemma_compare_succeeds(
    header1: Seq<Seq<char>>,
    rows1: Seq<Seq<Seq<char>>>,
    header2: Seq<Seq<char>>,
    rows2: Seq<Seq<Seq<char>>>,
    primary_keys: Seq<Seq<char>>,
)
    requires
        header1.len() <= usize::MAX,
        header2.len() <= usize::MAX,
        aligned(header1, rows1),
        aligned(header2, rows2),
    ensures
        compare_spec(header1, rows1, header2, rows2, primary_keys) is Ok <==> validate_spec(
            header1,
            header2,
            primary_keys,
        ) is Ok,
        compare_spec(header1, rows1, header2, rows2, primary_keys) is Ok <==> header1.to_set()
            == header2.to_set() && primary_keys.to_set().subset_of(header1.to_set()),
{
    if let Ok(value_columns) = validate_spec(header1, header2, primary_keys) {
        assert forall|n: Seq<char>| value_columns.to_set().contains(n) implies header1.to_set().contains(
            n,
        ) by {
            header1.lemma_filter_contains_rev(not_among(primary_keys), n);
        }
        lemma_index_succeeds(rows1, header1, primary_keys, value_columns);
        lemma_index_succeeds(rows2, header2, primary_keys, value_columns);
    }
}

/// Indexes both tables by the primary key and compares the two indexes.
fn compare_rows(
    header1: &Vec<String>,
    rows1: &Vec<Vec<String>>,
    header2: &Vec<String>,
    rows2: &Vec<Vec<String>>,
    primary_keys: &Vec<String>,
    value_columns: &Vec<String>,
) -> (r: Result<DiffResult, CompareError>)
    ensures
        is_compared(
            r,
            compare_rows_spec(
                header1.deep_view(),
                rows1.deep_view(),
                header2.deep_view(),
                rows2.deep_view(),
                primary_keys.deep_view(),
                value_columns.deep_view(),
            ),
        ),
{
    let left = match index(rows1, header1, primary_keys, value_columns) {
        Ok(map) => map,
        Err(e) => {
            return Err(e);
        },
    };
    let right = match index(rows2, header2, primary_keys, value_columns) {
        Ok(map) => map,
        Err(e) => {
            return Err(e);
        },
    };
    Ok(diff(&left, &right))
}

/// Compares two tables by a composite primary key. The headers must name the
/// same set of columns and hold every key column. The result lists the keys
/// that only one table holds, and the keys that both hold with values that
/// disagree in some column.
pub fn compare(
    header1: &Vec<String>,
    rows1: &Vec<Vec<String>>,
    header2: &Vec<String>,
    rows2: &Vec<Vec<String>>,
    primary_keys: &Vec<String>,
) -> (r: Result<DiffResult, CompareError>)
    ensures
        is_compared(
            r,
            compare_spec(
                header1.deep_view(),
                rows1.deep_view(),
                header2.deep_view(),
                rows2.deep_view(),
                primary_keys.deep_view(),
            ),
        ),
{
    match validate(header1, header2, primary_keys) {
        Ok(value_columns) => compare_rows(
            header1,
            rows1,
            header2,
            rows2,
            primary_keys,
            &value_columns,
        ),
        Err(e) => Err(e),
    }
}

/// Compares two comma-separated texts by a composite primary key. Both
/// headers are read and validated first; the rows are read only when the
/// headers agree.
pub fn compare_csv(data1: &[u8], data2: &[u8], primary_keys: &Vec<String>) -> (r: Result<
    DiffResult,
    CompareError,
>)
    ensures
        is_compared(
            r,
            compare_csv_spec(
                csv_header(data1@),
                csv_records(data1@),
                csv_header(data2@),
                csv_records(data2@),
                primary_keys.deep_view(),
            ),
        ),
{
    let header1 = match read_header(data1) {
        Ok(header) => header,
        Err(e) => {
            return Err(e);
        },
    };
    let header2 = match read_header(data2) {
        Ok(header) => header,
        Err(e) => {
            return Err(e);
        },
    };
    let value_columns = match validate(&header1, &header2, primary_keys) {
        Ok(names) => names,
        Err(e) => {
            return Err(e);
        },
    };
    let rows1 = match read_rows(data1) {
        Ok(rows) => rows,
        Err(e) => {
            return Err(e);
        },
    };
    let rows2 = match read_rows(data2) {
        Ok(rows) => rows,
        Err(e) => {
            return Err(e);
        },
    };
    compare_rows(&header1, &rows1, &header2, &rows2, primary_keys, &value_columns)
}

} // verus!
