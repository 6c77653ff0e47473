//! Comparing two keyed maps.

use vstd::prelude::*;
use crate::keyed::{
    distinct_keys,
    has_key,
    key_index,
    keys_of,
    lemma_key_index,
    Entry,
    EntryView,
    KeyedMap,
};
use crate::names::{clone_names, clone_pairs, pairs_equal};

verus! {

/// The values of an entry as a map from column names to cells. Two entries
/// agree when these maps are equal: the same names, and the same cell for each
/// name, whatever the order of the columns.
pub open spec fn value_map(values: Seq<(Seq<char>, Seq<char>)>) -> Map<Seq<char>, Seq<char>>
    decreases values.len(),
{
    if values.len() == 0 {
        Map::empty()
    } else {
        value_map(values.drop_last()).insert(values.last().0, values.last().1)
    }
}

/// A name that stands in a list of values is bound by its map, to the cell
/// beside its last occurrence.
pub proof fn lemma_value_map_bound(values: Seq<(Seq<char>, Seq<char>)>, i: int)
    requires
        0 <= i < values.len(),
    ensures
        value_map(values).contains_key(values[i].0),
        (forall|j: int| i < j < values.len() ==> values[j].0 != values[i].0) ==> value_map(
            values,
        )[values[i].0] == values[i].1,
    decreases values.len(),
{
    if i < values.len() - 1 {
        lemma_value_map_bound(values.drop_last(), i);
        if forall|j: int| i < j < values.len() ==> values[j].0 != values[i].0 {
            assert forall|j: int| i < j < values.drop_last().len() implies values.drop_last()[j].0
                != values.drop_last()[i].0 by {
                assert(values.drop_last()[j] == values[j]);
            }
        }
    }
}

/// A name that is bound by the map of a list of values stands in the list.
pub proof fn lemma_value_map_names(values: Seq<(Seq<char>, Seq<char>)>, name: Seq<char>)
    requires
        value_map(values).contains_key(name),
    ensures
        exists|i: int| 0 <= i < values.len() && values[i].0 == name,
    decreases values.len(),
{
    if values.len() > 0 {
        if values.last().0 == name {
            assert(values[values.len() - 1].0 == name);
        } else {
            lemma_value_map_names(values.drop_last(), name);
            let i = choose|i: int| 0 <= i < values.drop_last().len() && values.drop_last()[i].0
                == name;
        }
    }
}

/// The cell that a list of values holds for a column name.
pub fn cell_of<'a>(values: &'a Vec<(String, String)>, name: &String) -> (r: Option<&'a String>)
    ensures
        match r {
            Some(cell) => value_map(values.deep_view()).contains_key(name@) && value_map(
                values.deep_view(),
            )[name@] == cell@,
            None => !value_map(values.deep_view()).contains_key(name@),
        },
{
    let ghost all = values.deep_view();
    let mut i: usize = values.len();
    while i > 0
        invariant
            i <= values.len(),
            all == values.deep_view(),
            forall|j: int| i <= j < values.len() ==> all[j].0 != name@,
        decreases i,
    {
        i -= 1;
        if values[i].0 == *name {
            proof {
                lemma_value_map_bound(all, i as int);
            }
            return Some(&values[i].1);
        }
    }
    proof {
        if value_map(all).contains_key(name@) {
            lemma_value_map_names(all, name@);
        }
    }
    None
}

/// Whether two lists of values hold the same cell for every column name.
pub fn values_match(left: &Vec<(String, String)>, right: &Vec<(String, String)>) -> (r: bool)
    ensures
        r == (value_map(left.deep_view()) == value_map(right.deep_view())),
{
    if pairs_equal(left, right) {
        return true;
    }
    let ghost l = left.deep_view();
    let ghost r = right.deep_view();
    let mut i: usize = 0;
    while i < left.len()
        invariant
            i <= left.len(),
            l == left.deep_view(),
            r == right.deep_view(),
            forall|j: int|
                0 <= j < i ==> value_map(l).contains_key(#[trigger] l[j].0) && value_map(
                    r,
                ).contains_key(l[j].0) && value_map(r)[l[j].0] == value_map(l)[l[j].0],
        decreases left.len() - i,
    {
        let name = &left[i].0;
        proof {
            lemma_value_map_bound(l, i as int);
        }
        match (cell_of(left, name), cell_of(right, name)) {
            (Some(a), Some(b)) => {
                if *a != *b {
                    return false;
                }
            },
            _ => {
                return false;
            },
        }
        i += 1;
    }
    let mut k: usize = 0;
    while k < right.len()
        invariant
            k <= right.len(),
            l == left.deep_view(),
            r == right.deep_view(),
            forall|j: int|
                0 <= j < l.len() ==> value_map(l).contains_key(#[trigger] l[j].0) && value_map(
                    r,
                ).contains_key(l[j].0) && value_map(r)[l[j].0] == value_map(l)[l[j].0],
            forall|j: int| 0 <= j < k ==> value_map(l).contains_key(#[trigger] r[j].0),
        decreases right.len() - k,
    {
        let name = &right[k].0;
        proof {
            lemma_value_map_bound(r, k as int);
        }
        if cell_of(left, name).is_none() {
            return false;
        }
        k += 1;
    }
    proof {
        assert forall|n: Seq<char>| #[trigger]
            value_map(l).contains_key(n) implies value_map(r).contains_key(n) && value_map(r)[n]
            == value_map(l)[n] by {
            lemma_value_map_names(l, n);
            let j = choose|j: int| 0 <= j < l.len() && l[j].0 == n;
            assert(value_map(r).contains_key(l[j].0));
        }
        assert forall|n: Seq<char>| #[trigger]
            value_map(r).contains_key(n) implies value_map(l).contains_key(n) by {
            lemma_value_map_names(r, n);
            let j = choose|j: int| 0 <= j < r.len() && r[j].0 == n;
            assert(value_map(l).contains_key(r[j].0));
        }
        assert(value_map(l) =~= value_map(r));
    }
    true
}

/// A key that both maps hold, with the values that each stores for it.
#[derive(Debug, PartialEq, Eq)]
pub struct Mismatch {
    pub key: Vec<String>,
    pub left: Vec<(String, String)>,
    pub right: Vec<(String, String)>,
}

/// The mathematical value of a [`Mismatch`].
pub struct MismatchView {
    pub key: Seq<Seq<char>>,
    pub left: Seq<(Seq<char>, Seq<char>)>,
    pub right: Seq<(Seq<char>, Seq<char>)>,
}

impl DeepView for Mismatch {
    type V = MismatchView;

    open spec fn deep_view(&self) -> MismatchView {
        MismatchView {
            key: self.key.deep_view(),
            left: self.left.deep_view(),
            right: self.right.deep_view(),
        }
    }
}

impl View for Mismatch {
    type V = MismatchView;

    open spec fn view(&self) -> MismatchView {
        self.deep_view()
    }
}

/// The discrepancies between two keyed maps.
#[derive(Debug, PartialEq, Eq)]
pub struct DiffResult {
    /// The keys that only the left map holds, in the left map's order.
    pub only_left: Vec<Vec<String>>,
    /// The keys that only the right map holds, in the right map's order.
    pub only_right: Vec<Vec<String>>,
    /// The keys that both maps hold with values that disagree, in the left
    /// map's order.
    pub value_mismatches: Vec<Mismatch>,
}

/// The mathematical value of a [`DiffResult`].
pub struct DiffView {
    pub only_left: Seq<Seq<Seq<char>>>,
    pub only_right: Seq<Seq<Seq<char>>>,
    pub value_mismatches: Seq<MismatchView>,
}

impl View for DiffResult {
    type V = DiffView;

    open spec fn view(&self) -> DiffView {
        DiffView {
            only_left: self.only_left.deep_view(),
            only_right: self.only_right.deep_view(),
            value_mismatches: self.value_mismatches.deep_view(),
        }
    }
}

/// The predicate "`other` has no entry for this entry's key".
pub open spec fn absent_from(other: Seq<EntryView>) -> spec_fn(EntryView) -> bool {
    |e: EntryView| !has_key(other, e.key)
}

/// The predicate "`other` has an entry for this entry's key, and its values
/// disagree with this entry's".
pub open spec fn disagrees_with(other: Seq<EntryView>) -> spec_fn(EntryView) -> bool {
    |e: EntryView|
        has_key(other, e.key) && value_map(e.values) != value_map(
            other[key_index(other, e.key)].values,
        )
}

/// An entry beside the values that `other` stores for its key.
pub open spec fn mismatch_with(other: Seq<EntryView>) -> spec_fn(EntryView) -> MismatchView {
    |e: EntryView|
        MismatchView {
            key: e.key,
            left: e.values,
            right: other[key_index(other, e.key)].values,
        }
}

/// The keys of `entries` for which `other` has no entry, in the order of
/// `entries`.
pub open spec fn only_in(entries: Seq<EntryView>, other: Seq<EntryView>) -> Seq<Seq<Seq<char>>> {
    keys_of(entries.filter(absent_from(other)))
}

/// The entries of `left` whose key `right` holds with other values, each
/// beside those values, in the order of `left`.
pub open spec fn mismatches(left: Seq<EntryView>, right: Seq<EntryView>) -> Seq<MismatchView> {
    left.filter(disagrees_with(right)).map_values(mismatch_with(right))
}

/// What [`diff`] returns.
pub open spec fn diff_spec(left: Seq<EntryView>, right: Seq<EntryView>) -> DiffView {
    DiffView {
        only_left: only_in(left, right),
        only_right: only_in(right, left),
        value_mismatches: mismatches(left, right),
    }
}

/// Comparing is symmetric in the keys it reports: the keys found only on the
/// left are the keys found only on the right when the sides are exchanged.
pub proof fn lemma_diff_symmetric(left: Seq<EntryView>, right: Seq<EntryView>)
    ensures
        diff_spec(left, right).only_left == diff_spec(right, left).only_right,
        diff_spec(left, right).only_right == diff_spec(right, left).only_left,
{
}

/// A mismatch with its two sides exchanged.
pub open spec fn swapped(mismatch: MismatchView) -> MismatchView {
    MismatchView { key: mismatch.key, left: mismatch.right, right: mismatch.left }
}

/// A mismatch is reported exactly for the entries of `left` whose key `right`
/// holds with other values.
pub proof fn lemma_mismatches_contains(
    left: Seq<EntryView>,
    right: Seq<EntryView>,
    mismatch: MismatchView,
)
    ensures
        mismatches(left, right).contains(mismatch) <==> exists|i: int|
            0 <= i < left.len() && disagrees_with(right)(#[trigger] left[i]) && mismatch
                == mismatch_with(right)(left[i]),
{
    let pred = disagrees_with(right);
    let pair = mismatch_with(right);
    let kept = left.filter(pred);
    if mismatches(left, right).contains(mismatch) {
        let k = choose|k: int| 0 <= k < kept.len() && kept.map_values(pair)[k] == mismatch;
        left.lemma_filter_pred(pred, k);
        left.lemma_filter_contains_rev(pred, kept[k]);
        let i = left.index_of(kept[k]);
        assert(disagrees_with(right)(left[i]) && mismatch == mismatch_with(right)(left[i]));
    }
    if exists|i: int|
        0 <= i < left.len() && disagrees_with(right)(#[trigger] left[i]) && mismatch
            == mismatch_with(right)(left[i]) {
        let i = choose|i: int|
            0 <= i < left.len() && disagrees_with(right)(#[trigger] left[i]) && mismatch
                == mismatch_with(right)(left[i]);
        left.lemma_filter_contains(pred, i);
        let k = kept.index_of(left[i]);
        assert(kept.map_values(pair)[k] == mismatch);
    }
}

/// Comparing is symmetric in the mismatches it reports: exchanging the maps
/// exchanges the two sides of every mismatch, and nothing else.
pub proof fn lemma_mismatches_symmetric(
    left: Seq<EntryView>,
    right: Seq<EntryView>,
    mismatch: MismatchView,
)
    requires
        distinct_keys(left),
        distinct_keys(right),
    ensures
        mismatches(left, right).contains(mismatch) <==> mismatches(right, left).contains(
            swapped(mismatch),
        ),
{
    lemma_mismatches_contains(left, right, mismatch);
    lemma_mismatches_contains(right, left, swapped(mismatch));
    if mismatches(left, right).contains(mismatch) {
        lemma_exchange(left, right, mismatch);
    }
    if mismatches(right, left).contains(swapped(mismatch)) {
        lemma_exchange(right, left, swapped(mismatch));
    }
}

/// An entry of `left` that disagrees with `right` has a partner in `right`
/// that disagrees with `left`, and gives the same mismatch with its sides
/// exchanged.
proof fn lemma_exchange(left: Seq<EntryView>, right: Seq<EntryView>, mismatch: MismatchView)
    requires
        distinct_keys(left),
        distinct_keys(right),
        exists|i: int|
            0 <= i < left.len() && disagrees_with(right)(#[trigger] left[i]) && mismatch
                == mismatch_with(right)(left[i]),
    ensures
        exists|j: int|
            0 <= j < right.len() && disagrees_with(left)(#[trigger] right[j]) && swapped(mismatch)
                == mismatch_with(left)(right[j]),
{
    let i = choose|i: int|
        0 <= i < left.len() && disagrees_with(right)(#[trigger] left[i]) && mismatch
            == mismatch_with(right)(left[i]);
    let j = key_index(right, left[i].key);
    lemma_key_index(left, i);
    lemma_key_index(right, j);
}

/// Comparing a map with itself reports nothing.
pub proof fn lemma_diff_reflexive(entries: Seq<EntryView>)
    requires
        distinct_keys(entries),
    ensures
        diff_spec(entries, entries) == (DiffView {
            only_left: Seq::empty(),
            only_right: Seq::empty(),
            value_mismatches: Seq::empty(),
        }),
{
    let absent = entries.filter(absent_from(entries));
    if absent.len() > 0 {
        entries.lemma_filter_pred(absent_from(entries), 0);
        entries.lemma_filter_contains_rev(absent_from(entries), absent[0]);
        let i = entries.index_of(absent[0]);
        lemma_key_index(entries, i);
    }
    let differing = entries.filter(disagrees_with(entries));
    if differing.len() > 0 {
        entries.lemma_filter_pred(disagrees_with(entries), 0);
        entries.lemma_filter_contains_rev(disagrees_with(entries), differing[0]);
        let i = entries.index_of(differing[0]);
        lemma_key_index(entries, i);
    }
    assert(only_in(entries, entries) =~= Seq::<Seq<Seq<char>>>::empty());
    assert(mismatches(entries, entries) =~= Seq::<MismatchView>::empty());
}

/// The keys of `entries` for which `other` has no entry.
fn keys_only_in(entries: &Vec<Entry>, other: &KeyedMap) -> (r: Vec<Vec<String>>)
    ensures
        r.deep_view() == only_in(entries.deep_view(), other@),
{
    let ghost all = entries.deep_view();
    let ghost pred = absent_from(other@);
    let mut out: Vec<Vec<String>> = Vec::new();
    let mut i: usize = 0;
    proof {
        reveal(Seq::filter);
    }
    while i < entries.len()
        invariant
            i <= entries.len(),
            all == entries.deep_view(),
            pred == absent_from(other@),
            out.deep_view() == only_in(all.take(i as int), other@),
        decreases entries.len() - i,
    {
        let entry = &entries[i];
        proof {
            assert(all.take(i as int + 1) =~= all.take(i as int).push(all[i as int]));
            all.take(i as int).lemma_filter_push(all[i as int], pred);
        }
        if !other.contains_key(&entry.key) {
            out.push(clone_names(&entry.key));
            proof {
                assert(keys_of(all.take(i as int).filter(pred).push(all[i as int])) =~= keys_of(
                    all.take(i as int).filter(pred),
                ).push(all[i as int].key));
            }
        }
        i += 1;
    }
    assert(all.take(i as int) =~= all);
    out
}

/// Compares two keyed maps: which keys only one of them holds, and for which
/// keys that both hold the stored values disagree. Values are compared by
/// column name, not by position.
pub fn diff(left: &KeyedMap, right: &KeyedMap) -> (r: DiffResult)
    ensures
        r@ == diff_spec(left@, right@),
        left@ == right@ ==> r@ == (DiffView {
            only_left: Seq::empty(),
            only_right: Seq::empty(),
            value_mismatches: Seq::empty(),
        }),
{
    let only_left = keys_only_in(left.entries(), right);
    let only_right = keys_only_in(right.entries(), left);
    let entries = left.entries();
    let others = right.entries();
    proof {
        if left@ == right@ {
            lemma_diff_reflexive(left@);
        }
    }
    let ghost all = entries.deep_view();
    let ghost pred = disagrees_with(right@);
    let ghost pair = mismatch_with(right@);
    let mut found: Vec<Mismatch> = Vec::new();
    let mut i: usize = 0;
    proof {
        reveal(Seq::filter);
    }
    while i < entries.len()
        invariant
            i <= entries.len(),
            all == entries.deep_view(),
            others.deep_view() == right@,
            pred == disagrees_with(right@),
            pair == mismatch_with(right@),
            found.deep_view() == mismatches(all.take(i as int), right@),
        decreases entries.len() - i,
    {
        let entry = &entries[i];
        proof {
            assert(all.take(i as int + 1) =~= all.take(i as int).push(all[i as int]));
            all.take(i as int).lemma_filter_push(all[i as int], pred);
        }
        match right.position(&entry.key) {
            Some(j) => {
                let other = &others[j];
                if !values_match(&entry.values, &other.values) {
                    found.push(
                        Mismatch {
                            key: clone_names(&entry.key),
                            left: clone_pairs(&entry.values),
                            right: clone_pairs(&other.values),
                        },
                    );
                    proof {
                        assert(all.take(i as int).filter(pred).push(all[i as int]).map_values(pair)
                            =~= all.take(i as int).filter(pred).map_values(pair).push(
                            pair(all[i as int]),
                        ));
                    }
                }
            },
            None => {},
        }
        i += 1;
    }
    assert(all.take(i as int) =~= all);
    DiffResult { only_left, only_right, value_mismatches: found }
}

} // verus!
