//! Building a [`KeyedMap`] from the rows of a table.

use vstd::prelude::*;
use crate::error::{CompareError, ErrorView};
use crate::keyed::{
    distinct_keys,
    has_key,
    insert_entry,
    keys_of,
    lemma_insert_entry_distinct,
    lookup,
    EntryView,
    KeyedMap,
};
use crate::mapping::{
    binds_all,
    get_col_indizes,
    get_mapping_from_header,
    header_mapping,
    lemma_header_mapping,
    positions_of,
};
use crate::source::{csv_header, csv_records, read_header, read_rows};

verus! {

/// Whether every one of the positions exists in a row of `len` cells.
pub open spec fn fits(len: nat, cols: Seq<usize>) -> bool {
    forall|i: int| 0 <= i < cols.len() ==> cols[i] < len
}

/// The key of a row: its cells at the key positions, in the order of those
/// positions.
pub open spec fn key_of(row: Seq<Seq<char>>, key_cols: Seq<usize>) -> Seq<Seq<char>> {
    key_cols.map_values(|c: usize| row[c as int])
}

/// The values of a row: for each value position the column's name in the
/// header and the row's cell, in the order of those positions.
pub open spec fn values_of(header: Seq<Seq<char>>, row: Seq<Seq<char>>, val_cols: Seq<usize>) -> Seq<
    (Seq<char>, Seq<char>),
> {
    val_cols.map_values(|c: usize| (header[c as int], row[c as int]))
}

/// The entry that a row gives.
pub open spec fn entry_of(
    header: Seq<Seq<char>>,
    row: Seq<Seq<char>>,
    key_cols: Seq<usize>,
    val_cols: Seq<usize>,
) -> EntryView {
    EntryView { key: key_of(row, key_cols), values: values_of(header, row, val_cols) }
}

/// Whether every value position exists in the header, and every key and value
/// position in every row.
pub open spec fn rows_fit(
    header: Seq<Seq<char>>,
    rows: Seq<Seq<Seq<char>>>,
    key_cols: Seq<usize>,
    val_cols: Seq<usize>,
) -> bool {
    &&& fits(header.len(), val_cols)
    &&& forall|i: int|
        0 <= i < rows.len() ==> fits(#[trigger] rows[i].len(), key_cols) && fits(
            rows[i].len(),
            val_cols,
        )
}

/// The entries that the rows give when they are stored one after the other.
pub open spec fn index_entries(
    header: Seq<Seq<char>>,
    rows: Seq<Seq<Seq<char>>>,
    key_cols: Seq<usize>,
    val_cols: Seq<usize>,
) -> Seq<EntryView>
    decreases rows.len(),
{
    if rows.len() == 0 {
        Seq::empty()
    } else {
        insert_entry(
            index_entries(header, rows.drop_last(), key_cols, val_cols),
            entry_of(header, rows.last(), key_cols, val_cols),
        )
    }
}

/// What [`index_rows`] returns.
pub open spec fn index_rows_spec(
    header: Seq<Seq<char>>,
    rows: Seq<Seq<Seq<char>>>,
    key_cols: Seq<usize>,
    val_cols: Seq<usize>,
) -> Result<Seq<EntryView>, ErrorView> {
    if rows_fit(header, rows, key_cols, val_cols) {
        Ok(index_entries(header, rows, key_cols, val_cols))
    } else {
        Err(ErrorView::ColumnNotFound)
    }
}

/// What [`index`] returns.
pub open spec fn index_spec(
    rows: Seq<Seq<Seq<char>>>,
    header: Seq<Seq<char>>,
    key_columns: Seq<Seq<char>>,
    value_columns: Seq<Seq<char>>,
) -> Result<Seq<EntryView>, ErrorView> {
    let mapping = header_mapping(header);
    if binds_all(mapping, key_columns) && binds_all(mapping, value_columns) {
        index_rows_spec(
            header,
            rows,
            positions_of(mapping, key_columns),
            positions_of(mapping, value_columns),
        )
    } else {
        Err(ErrorView::ColumnNotFound)
    }
}

/// Whether a result of indexing is the expected one.
pub open spec fn is_indexed(
    r: Result<KeyedMap, CompareError>,
    expected: Result<Seq<EntryView>, ErrorView>,
) -> bool {
    match expected {
        Ok(entries) => r matches Ok(m) && m@ == entries,
        Err(error) => r matches Err(e) && e@ == error,
    }
}

/// The keys of the rows, in the order of the rows.
pub open spec fn row_keys(rows: Seq<Seq<Seq<char>>>, key_cols: Seq<usize>) -> Seq<Seq<Seq<char>>> {
    rows.map_values(|row: Seq<Seq<char>>| key_of(row, key_cols))
}

/// Whether no row after row `i` carries the key of row `i`.
pub open spec fn last_with_key(rows: Seq<Seq<Seq<char>>>, key_cols: Seq<usize>, i: int) -> bool {
    forall|j: int| i < j < rows.len() ==> key_of(rows[j], key_cols) != key_of(rows[i], key_cols)
}

/// What holds of the entries that indexing gives: no key occurs twice; there
/// are never more entries than rows, and as many exactly when no two rows
/// share a key; and the values stored for a key are those of the last row
/// that carries it.
pub open spec fn indexes_rows(
    entries: Seq<EntryView>,
    header: Seq<Seq<char>>,
    rows: Seq<Seq<Seq<char>>>,
    key_cols: Seq<usize>,
    val_cols: Seq<usize>,
) -> bool {
    &&& distinct_keys(entries)
    &&& keys_of(entries).to_set() == row_keys(rows, key_cols).to_set()
    &&& entries.len() <= rows.len()
    &&& entries.len() == rows.len() <==> row_keys(rows, key_cols).no_duplicates()
    &&& forall|i: int|
        0 <= i < rows.len() && #[trigger] last_with_key(rows, key_cols, i) ==> lookup(
            entries,
            key_of(rows[i], key_cols),
        ) == Some(values_of(header, rows[i], val_cols))
}

/// Indexing gives one entry for each distinct key among the rows: never more
/// entries than rows, and as many exactly when no two rows share a key.
pub proof fn lemma_index_key_count(
    header: Seq<Seq<char>>,
    rows: Seq<Seq<Seq<char>>>,
    key_cols: Seq<usize>,
    val_cols: Seq<usize>,
)
    ensures
        distinct_keys(index_entries(header, rows, key_cols, val_cols)),
        keys_of(index_entries(header, rows, key_cols, val_cols)).to_set() == row_keys(
            rows,
            key_cols,
        ).to_set(),
        keys_of(index_entries(header, rows, key_cols, val_cols)).to_set().len() == index_entries(
            header,
            rows,
            key_cols,
            val_cols,
        ).len(),
        index_entries(header, rows, key_cols, val_cols).len() <= rows.len(),
        index_entries(header, rows, key_cols, val_cols).len() == rows.len() <==> row_keys(
            rows,
            key_cols,
        ).no_duplicates(),
    decreases rows.len(),
{
    let entries = index_entries(header, rows, key_cols, val_cols);
    let keys = row_keys(rows, key_cols);
    if rows.len() == 0 {
        assert(keys_of(entries).to_set() =~= keys.to_set());
    } else {
        let rest = rows.drop_last();
        let before = index_entries(header, rest, key_cols, val_cols);
        let entry = entry_of(header, rows.last(), key_cols, val_cols);
        let rest_keys = row_keys(rest, key_cols);
        lemma_index_key_count(header, rest, key_cols, val_cols);
        lemma_insert_entry_distinct(before, entry);
        assert(keys =~= rest_keys.push(entry.key));
        assert(has_key(before, entry.key) <==> rest_keys.contains(entry.key)) by {
            assert(keys_of(before).to_set().contains(entry.key) <==> rest_keys.to_set().contains(
                entry.key,
            ));
        }
        assert forall|k: Seq<Seq<char>>|
            keys_of(entries).to_set().contains(k) <==> keys.to_set().contains(k) by {
            assert(has_key(entries, k) <==> (has_key(before, k) || k == entry.key));
            assert(keys_of(before).to_set().contains(k) <==> rest_keys.to_set().contains(k));
            if rest_keys.contains(k) {
                assert(keys[rest_keys.index_of(k)] == k);
            }
            if k == entry.key {
                assert(keys[rest.len() as int] == k);
            }
            if keys.contains(k) {
                let i = keys.index_of(k);
                if i < rest.len() {
                    assert(rest_keys[i] == k);
                }
            }
        }
        if rest_keys.contains(entry.key) {
            let i = rest_keys.index_of(entry.key);
            assert(keys[i] == keys[rest.len() as int]);
        } else if rest_keys.no_duplicates() {
            assert(keys.no_duplicates());
        } else {
            let (i, j) = choose|i: int, j: int|
                0 <= i < rest_keys.len() && 0 <= j < rest_keys.len() && i != j && rest_keys[i]
                    == rest_keys[j];
            assert(keys[i] == keys[j]);
        }
    }
    keys_of(entries).unique_seq_to_set();
}

/// Last write wins: the values stored for a key are those of the last row
/// that carries the key.
pub proof fn lemma_last_write_wins(
    header: Seq<Seq<char>>,
    rows: Seq<Seq<Seq<char>>>,
    key_cols: Seq<usize>,
    val_cols: Seq<usize>,
    i: int,
)
    requires
        0 <= i < rows.len(),
        last_with_key(rows, key_cols, i),
    ensures
        lookup(index_entries(header, rows, key_cols, val_cols), key_of(rows[i], key_cols)) == Some(
            values_of(header, rows[i], val_cols),
        ),
    decreases rows.len(),
{
    let rest = rows.drop_last();
    let before = index_entries(header, rest, key_cols, val_cols);
    let entry = entry_of(header, rows.last(), key_cols, val_cols);
    lemma_index_key_count(header, rest, key_cols, val_cols);
    lemma_insert_entry_distinct(before, entry);
    if i < rows.len() - 1 {
        assert forall|j: int| i < j < rest.len() implies key_of(rest[j], key_cols) != key_of(
            rest[i],
            key_cols,
        ) by {
            assert(rest[j] == rows[j]);
        }
        lemma_last_write_wins(header, rest, key_cols, val_cols, i);
    }
}

/// The entries that indexing gives are as [`indexes_rows`] says.
pub proof fn lemma_index_entries(
    header: Seq<Seq<char>>,
    rows: Seq<Seq<Seq<char>>>,
    key_cols: Seq<usize>,
    val_cols: Seq<usize>,
)
    ensures
        indexes_rows(
            index_entries(header, rows, key_cols, val_cols),
            header,
            rows,
            key_cols,
            val_cols,
        ),
{
    lemma_index_key_count(header, rows, key_cols, val_cols);
    assert forall|i: int| 0 <= i < rows.len() && #[trigger] last_with_key(
        rows,
        key_cols,
        i,
    ) implies lookup(
        index_entries(header, rows, key_cols, val_cols),
        key_of(rows[i], key_cols),
    ) == Some(values_of(header, rows[i], val_cols)) by {
        lemma_last_write_wins(header, rows, key_cols, val_cols, i);
    }
}

/// Indexing by name takes each cell from a position at which the name stands
/// in the header: the positions exist in the header, a row's key holds the
/// cells under the key columns, and each of its values stands beside the name
/// that was asked for.
pub proof fn lemma_columns_by_name(
    header: Seq<Seq<char>>,
    row: Seq<Seq<char>>,
    columns: Seq<Seq<char>>,
)
    requires
        header.len() <= usize::MAX,
        binds_all(header_mapping(header), columns),
    ensures
        fits(header.len(), positions_of(header_mapping(header), columns)),
        forall|i: int|
            0 <= i < columns.len() ==> header[#[trigger] positions_of(
                header_mapping(header),
                columns,
            )[i] as int] == columns[i],
        key_of(row, positions_of(header_mapping(header), columns)) == columns.map_values(
            |n: Seq<char>| row[header_mapping(header)[n] as int],
        ),
        values_of(header, row, positions_of(header_mapping(header), columns)) == columns.map_values(
            |n: Seq<char>| (n, row[header_mapping(header)[n] as int]),
        ),
{
    lemma_header_mapping(header);
    let mapping = header_mapping(header);
    assert forall|i: int| 0 <= i < columns.len() implies header.contains(columns[i]) by {
        assert(header.to_set().contains(columns[i]));
    }
    assert(key_of(row, positions_of(mapping, columns)) =~= columns.map_values(
        |n: Seq<char>| row[mapping[n] as int],
    ));
    assert(values_of(header, row, positions_of(mapping, columns)) =~= columns.map_values(
        |n: Seq<char>| (n, row[mapping[n] as int]),
    ));
}

/// Whether every row has a cell for each column of the header, and no more.
pub open spec fn aligned(header: Seq<Seq<char>>, rows: Seq<Seq<Seq<char>>>) -> bool {
    forall|i: int| 0 <= i < rows.len() ==> (#[trigger] rows[i]).len() == header.len()
}

/// A header's mapping binds every one of the named columns exactly when each
/// of them stands in the header.
pub proof fn lemma_binds_all(header: Seq<Seq<char>>, columns: Seq<Seq<char>>)
    requires
        header.len() <= usize::MAX,
    ensures
        binds_all(header_mapping(header), columns) <==> columns.to_set().subset_of(header.to_set()),
{
    lemma_header_mapping(header);
    let mapping = header_mapping(header);
    if binds_all(mapping, columns) {
        assert forall|n: Seq<char>| columns.to_set().contains(n) implies header.to_set().contains(
            n,
        ) by {
            let i = columns.index_of(n);
            assert(mapping.contains_key(columns[i]));
        }
    }
    if columns.to_set().subset_of(header.to_set()) {
        assert forall|i: int| 0 <= i < columns.len() implies mapping.contains_key(
            #[trigger] columns[i],
        ) by {
            assert(columns.to_set().contains(columns[i]));
        }
    }
}

/// On rows that are aligned with their header, indexing by name succeeds
/// exactly when every named column stands in the header.
pub proof fn lemma_index_succeeds(
    rows: Seq<Seq<Seq<char>>>,
    header: Seq<Seq<char>>,
    key_columns: Seq<Seq<char>>,
    value_columns: Seq<Seq<char>>,
)
    requires
        header.len() <= usize::MAX,
        aligned(header, rows),
    ensures
        index_spec(rows, header, key_columns, value_columns) is Ok <==> key_columns.to_set().subset_of(
            header.to_set(),
        ) && value_columns.to_set().subset_of(header.to_set()),
{
    let mapping = header_mapping(header);
    lemma_header_mapping(header);
    lemma_binds_all(header, key_columns);
    lemma_binds_all(header, value_columns);
    if binds_all(mapping, key_columns) && binds_all(mapping, value_columns) {
        let any_row = Seq::<Seq<char>>::empty();
        lemma_columns_by_name(header, any_row, key_columns);
        lemma_columns_by_name(header, any_row, value_columns);
        let key_cols = positions_of(mapping, key_columns);
        let val_cols = positions_of(mapping, value_columns);
        assert forall|i: int| 0 <= i < rows.len() implies fits(
            #[trigger] rows[i].len(),
            key_cols,
        ) && fits(rows[i].len(), val_cols) by {
            assert(rows[i].len() == header.len());
        }
    }
}

/// Whether every one of the positions exists in a row of `len` cells.
fn check_fits(len: usize, cols: &Vec<usize>) -> (r: bool)
    ensures
        r == fits(len as nat, cols@),
{
    let mut i: usize = 0;
    while i < cols.len()
        invariant
            i <= cols.len(),
            forall|j: int| 0 <= j < i ==> cols[j] < len,
        decreases cols.len() - i,
    {
        if cols[i] >= len {
            return false;
        }
        i += 1;
    }
    true
}

/// The cells of a row at the key positions.
fn pick_key(row: &Vec<String>, key_cols: &Vec<usize>) -> (r: Vec<String>)
    requires
        fits(row.len() as nat, key_cols@),
    ensures
        r.deep_view() == key_of(row.deep_view(), key_cols@),
{
    let mut key: Vec<String> = Vec::new();
    let mut i: usize = 0;
    while i < key_cols.len()
        invariant
            i <= key_cols.len(),
            fits(row.len() as nat, key_cols@),
            key.len() == i,
            forall|j: int| 0 <= j < i ==> key[j]@ == row[key_cols[j] as int]@,
        decreases key_cols.len() - i,
    {
        key.push(row[key_cols[i]].clone());
        i += 1;
    }
    key
}

/// The names and cells of a row at the value positions.
fn pick_values(header: &Vec<String>, row: &Vec<String>, val_cols: &Vec<usize>) -> (r: Vec<
    (String, String),
>)
    requires
        fits(header.len() as nat, val_cols@),
        fits(row.len() as nat, val_cols@),
    ensures
        r.deep_view() == values_of(header.deep_view(), row.deep_view(), val_cols@),
{
    let mut values: Vec<(String, String)> = Vec::new();
    let mut i: usize = 0;
    while i < val_cols.len()
        invariant
            i <= val_cols.len(),
            fits(header.len() as nat, val_cols@),
            fits(row.len() as nat, val_cols@),
            values.len() == i,
            forall|j: int|
                0 <= j < i ==> values[j].0@ == header[val_cols[j] as int]@ && values[j].1@
                    == row[val_cols[j] as int]@,
        decreases val_cols.len() - i,
    {
        let c = val_cols[i];
        values.push((header[c].clone(), row[c].clone()));
        i += 1;
    }
    values
}

/// Indexes rows by the cells at the key positions. Each row is stored under
/// its key with its cells at the value positions, named by the header; a later
/// row replaces an earlier one with the same key. Fails when a position does
/// not exist in the header or in a row.
pub fn index_rows(
    header: &Vec<String>,
    rows: &Vec<Vec<String>>,
    key_cols: &Vec<usize>,
    val_cols: &Vec<usize>,
) -> (r: Result<KeyedMap, CompareError>)
    ensures
        is_indexed(r, index_rows_spec(header.deep_view(), rows.deep_view(), key_cols@, val_cols@)),
        r matches Ok(m) ==> indexes_rows(
            m@,
            header.deep_view(),
            rows.deep_view(),
            key_cols@,
            val_cols@,
        ),
{
    let ghost h = header.deep_view();
    let ghost all = rows.deep_view();
    if !check_fits(header.len(), val_cols) {
        return Err(CompareError::ColumnNotFound);
    }
    let mut map = KeyedMap::new();
    let mut i: usize = 0;
    while i < rows.len()
        invariant
            i <= rows.len(),
            h == header.deep_view(),
            all == rows.deep_view(),
            fits(header.len() as nat, val_cols@),
            rows_fit(h, all.take(i as int), key_cols@, val_cols@),
            map@ == index_entries(h, all.take(i as int), key_cols@, val_cols@),
        decreases rows.len() - i,
    {
        let row = &rows[i];
        if !check_fits(row.len(), key_cols) || !check_fits(row.len(), val_cols) {
            assert(all[i as int].len() == row.len());
            return Err(CompareError::ColumnNotFound);
        }
        let key = pick_key(row, key_cols);
        let values = pick_values(header, row, val_cols);
        map.insert(key, values);
        proof {
            let next = all.take(i as int + 1);
            assert(next.drop_last() =~= all.take(i as int));
            assert forall|j: int| 0 <= j < next.len() implies fits(
                #[trigger] next[j].len(),
                key_cols@,
            ) && fits(next[j].len(), val_cols@) by {
                if j < i {
                    assert(next[j] == all.take(i as int)[j]);
                }
            }
        }
        i += 1;
    }
    proof {
        assert(all.take(i as int) =~= all);
        lemma_index_entries(h, all, key_cols@, val_cols@);
    }
    Ok(map)
}

/// Indexes the rows of a table by the named key columns. Each row is stored
/// under the cells of its key columns, in the order in which those are named,
/// with the cells of its value columns beside their names; a later row
/// replaces an earlier one with the same key. Fails when the header lacks a
/// named column or a row lacks a cell for one.
pub fn index(
    rows: &Vec<Vec<String>>,
    header: &Vec<String>,
    key_columns: &Vec<String>,
    value_columns: &Vec<String>,
) -> (r: Result<KeyedMap, CompareError>)
    ensures
        is_indexed(
            r,
            index_spec(
                rows.deep_view(),
                header.deep_view(),
                key_columns.deep_view(),
                value_columns.deep_view(),
            ),
        ),
        r matches Ok(m) ==> indexes_rows(
            m@,
            header.deep_view(),
            rows.deep_view(),
            positions_of(header_mapping(header.deep_view()), key_columns.deep_view()),
            positions_of(header_mapping(header.deep_view()), value_columns.deep_view()),
        ),
{
    let mapping = get_mapping_from_header(header);
    let key_cols = match get_col_indizes(&mapping, key_columns) {
        Ok(cols) => cols,
        Err(e) => {
            return Err(e);
        },
    };
    let val_cols = match get_col_indizes(&mapping, value_columns) {
        Ok(cols) => cols,
        Err(e) => {
            return Err(e);
        },
    };
    index_rows(header, rows, &key_cols, &val_cols)
}

/// Reads comma-separated text into a map from the cells at the key positions
/// to the cells at the value positions, each beside its column's name.
pub fn read_csv_into_map(data: &[u8], key_cols: &Vec<usize>, val_cols: &Vec<usize>) -> (r: Result<
    KeyedMap,
    CompareError,
>)
    ensures
        match (csv_header(data@), csv_records(data@)) {
            (Some(header), Some(rows)) => is_indexed(
                r,
                index_rows_spec(header, rows, key_cols@, val_cols@),
            ),
            _ => r matches Err(e) && e@ == ErrorView::SourceUnreadable,
        },
        r matches Ok(m) ==> csv_header(data@) matches Some(header) && csv_records(data@) matches Some(
            rows,
        ) && indexes_rows(m@, header, rows, key_cols@, val_cols@),
{
    let header = match read_header(data) {
        Ok(header) => header,
        Err(e) => {
            return Err(e);
        },
    };
    let rows = match read_rows(data) {
        Ok(rows) => rows,
        Err(e) => {
            return Err(e);
        },
    };
    index_rows(&header, &rows, key_cols, val_cols)
}

} // verus!
