//! Checking that two headers describe the same columns.

use vstd::prelude::*;
use crate::error::{CompareError, ErrorView};
use crate::mapping::{get_mapping_from_header, keys_match, lemma_header_mapping};
use crate::names::{lemma_none_left, names_not_in, not_among};

verus! {

/// What [`validate`] returns for two headers and a list of key columns.
///
/// The headers must name the same set of columns, in any order, and every key
/// column must be among them. The value columns are then the columns of the
/// first header that are no key columns, in that header's order.
pub open spec fn validate_spec(
    header_a: Seq<Seq<char>>,
    header_b: Seq<Seq<char>>,
    key_columns: Seq<Seq<char>>,
) -> Result<Seq<Seq<char>>, ErrorView> {
    if header_a.to_set() != header_b.to_set() {
        Err(
            ErrorView::SchemaMismatch {
                only_left: header_a.filter(not_among(header_b)),
                only_right: header_b.filter(not_among(header_a)),
            },
        )
    } else if !key_columns.to_set().subset_of(header_a.to_set()) {
        Err(ErrorView::MissingKeyColumn { columns: key_columns.filter(not_among(header_a)) })
    } else {
        Ok(header_a.filter(not_among(key_columns)))
    }
}

/// Confirms that two headers name the same set of columns and that both hold
/// every key column, and returns the names of the value columns.
pub fn validate(header_a: &Vec<String>, header_b: &Vec<String>, key_columns: &Vec<String>) -> (r:
    Result<Vec<String>, CompareError>)
    ensures
        match validate_spec(header_a.deep_view(), header_b.deep_view(), key_columns.deep_view()) {
            Ok(names) => r matches Ok(v) && v.deep_view() == names,
            Err(error) => r matches Err(e) && e@ == error,
        },
        r is Ok <==> header_a.deep_view().to_set() == header_b.deep_view().to_set()
            && key_columns.deep_view().to_set().subset_of(
            header_a.deep_view().to_set().intersect(header_b.deep_view().to_set()),
        ),
{
    let ghost a = header_a.deep_view();
    let ghost b = header_b.deep_view();
    let ghost keys = key_columns.deep_view();
    let map_a = get_mapping_from_header(header_a);
    let map_b = get_mapping_from_header(header_b);
    proof {
        assert(a.len() == header_a.len() && b.len() == header_b.len());
        lemma_header_mapping(a);
        lemma_header_mapping(b);
    }
    if !keys_match(&map_a, &map_b) {
        let only_left = names_not_in(header_a, header_b);
        let only_right = names_not_in(header_b, header_a);
        return Err(CompareError::SchemaMismatch { only_left, only_right });
    }
    let missing = names_not_in(key_columns, header_a);
    proof {
        lemma_none_left(keys, a);
    }
    if missing.len() > 0 {
        return Err(CompareError::MissingKeyColumn { columns: missing });
    }
    Ok(names_not_in(header_a, key_columns))
}

} // verus!
