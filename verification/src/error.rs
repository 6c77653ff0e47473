//! The ways a comparison can fail.

use vstd::prelude::*;

verus! {

/// Why a comparison could not be carried out.
#[derive(Debug, PartialEq, Eq)]
pub enum CompareError {
    /// A table could not be parsed.
    SourceUnreadable,
    /// The two headers do not name the same set of columns. The fields hold
    /// the names found in one header only, in that header's order.
    SchemaMismatch { only_left: Vec<String>, only_right: Vec<String> },
    /// Some requested key columns are absent from a header. The field holds
    /// them in the order in which they were requested.
    MissingKeyColumn { columns: Vec<String> },
    /// A requested column has no position in a header or in a row.
    ColumnNotFound,
}

/// The mathematical value of a [`CompareError`].
pub enum ErrorView {
    SourceUnreadable,
    SchemaMismatch { only_left: Seq<Seq<char>>, only_right: Seq<Seq<char>> },
    MissingKeyColumn { columns: Seq<Seq<char>> },
    ColumnNotFound,
}

impl View for CompareError {
    type V = ErrorView;

    open spec fn view(&self) -> ErrorView {
        match *self {
            CompareError::SourceUnreadable => ErrorView::SourceUnreadable,
            CompareError::SchemaMismatch { only_left, only_right } => ErrorView::SchemaMismatch {
                only_left: only_left.deep_view(),
                only_right: only_right.deep_view(),
            },
            CompareError::MissingKeyColumn { columns } => ErrorView::MissingKeyColumn {
                columns: columns.deep_view(),
            },
            CompareError::ColumnNotFound => ErrorView::ColumnNotFound,
        }
    }
}

} // verus!
