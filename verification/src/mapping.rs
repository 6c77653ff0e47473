//! Maps from column names to column positions.

use vstd::hash_map::StringHashMap;
use vstd::prelude::*;
use vstd::seq_lib::seq_to_set_is_finite;
use vstd::set_lib::lemma_subset_equality;
use crate::error::{CompareError, ErrorView};
use crate::source::{csv_header, read_header};

verus! {

/// A finite map from column names to positions. Beside the map itself the
/// names are kept in a list, each once, so that they can be gone through.
pub struct ColumnMap {
    names: Vec<String>,
    positions: StringHashMap<usize>,
}

impl View for ColumnMap {
    type V = Map<Seq<char>, usize>;

    closed spec fn view(&self) -> Map<Seq<char>, usize> {
        self.positions@
    }
}

impl ColumnMap {
    #[verifier::type_invariant]
    spec fn well_formed(self) -> bool {
        &&& self.names.deep_view().no_duplicates()
        &&& self.positions@.dom() == self.names.deep_view().to_set()
    }

    /// The empty map.
    pub fn new() -> (r: ColumnMap)
        ensures
            r@ == Map::<Seq<char>, usize>::empty(),
    {
        let names: Vec<String> = Vec::new();
        let positions: StringHashMap<usize> = StringHashMap::new();
        assert(positions@.dom() =~= names.deep_view().to_set());
        ColumnMap { names, positions }
    }

    /// Binds `name` to `position`, replacing an earlier binding of the name.
    pub fn insert(&mut self, name: String, position: usize)
        ensures
            final(self)@ == old(self)@.insert(name@, position),
    {
        proof {
            use_type_invariant(&*self);
        }
        let ghost old_names = self.names.deep_view();
        let present = self.positions.contains_key(name.as_str());
        let mut taken = ColumnMap::new();
        std::mem::swap(self, &mut taken);
        let ColumnMap { mut names, mut positions } = taken;
        if !present {
            names.push(name.clone());
            proof {
                assert(names.deep_view() =~= old_names.push(name@));
                old_names.lemma_push_to_set_commute(name@);
            }
        }
        positions.insert(name, position);
        assert(positions@.dom() =~= names.deep_view().to_set());
        *self = ColumnMap { names, positions };
    }

    /// The position bound to `name`, if there is one.
    pub fn get(&self, name: &String) -> (r: Option<usize>)
        ensures
            r == if self@.contains_key(name@) {
                Some(self@[name@])
            } else {
                None
            },
    {
        match self.positions.get(name.as_str()) {
            Some(position) => Some(*position),
            None => None,
        }
    }

    /// Whether `name` is bound.
    pub fn contains_key(&self, name: &String) -> (r: bool)
        ensures
            r == self@.contains_key(name@),
    {
        self.positions.contains_key(name.as_str())
    }

    /// The number of names bound.
    pub fn len(&self) -> (r: usize)
        ensures
            self@.dom().finite(),
            r == self@.dom().len(),
    {
        proof {
            use_type_invariant(self);
            let names = self.names.deep_view();
            seq_to_set_is_finite(names);
            names.unique_seq_to_set();
        }
        self.names.len()
    }
}

/// The map that sends each name of a header to its position. Where a name
/// occurs more than once, its last position stands.
pub open spec fn header_mapping(header: Seq<Seq<char>>) -> Map<Seq<char>, usize>
    decreases header.len(),
{
    if header.len() == 0 {
        Map::empty()
    } else {
        header_mapping(header.drop_last()).insert(header.last(), (header.len() - 1) as usize)
    }
}

/// The names bound by the mapping of a header are the names in the header, and
/// each is sent to the last position at which it stands.
pub proof fn lemma_header_mapping(header: Seq<Seq<char>>)
    requires
        header.len() <= usize::MAX,
    ensures
        header_mapping(header).dom() == header.to_set(),
        forall|n: Seq<char>| #[trigger]
            header.contains(n) ==> 0 <= header_mapping(header)[n] < header.len()
                && header[header_mapping(header)[n] as int] == n,
        forall|j: int|
            0 <= j < header.len() ==> j <= header_mapping(header)[#[trigger] header[j]],
    decreases header.len(),
{
    if header.len() > 0 {
        let rest = header.drop_last();
        lemma_header_mapping(rest);
        assert forall|n: Seq<char>| header.contains(n) <==> (rest.contains(n) || n
            == header.last()) by {
            if header.contains(n) {
                let i = header.index_of(n);
                if i < rest.len() {
                    assert(rest[i] == n);
                }
            }
        }
        assert forall|j: int| 0 <= j < header.len() implies j <= header_mapping(
            header,
        )[#[trigger] header[j]] by {
            if j < rest.len() {
                assert(rest[j] == header[j]);
            }
        }
    }
}

/// The map from each column name of a header to its position.
pub fn get_mapping_from_header(header: &Vec<String>) -> (r: ColumnMap)
    ensures
        r@ == header_mapping(header.deep_view()),
{
    let ghost all = header.deep_view();
    let mut mapping = ColumnMap::new();
    let mut i: usize = 0;
    while i < header.len()
        invariant
            i <= header.len(),
            all == header.deep_view(),
            mapping@ == header_mapping(all.take(i as int)),
        decreases header.len() - i,
    {
        proof {
            assert(all.take(i as int + 1).drop_last() =~= all.take(i as int));
        }
        mapping.insert(header[i].clone(), i);
        i += 1;
    }
    assert(all.take(i as int) =~= all);
    mapping
}

/// The map from each column name in the header row of comma-separated text to
/// its position.
pub fn get_mapping_from_csv(data: &[u8]) -> (r: Result<ColumnMap, CompareError>)
    ensures
        match csv_header(data@) {
            Some(header) => r matches Ok(m) && m@ == header_mapping(header),
            None => r matches Err(e) && e@ == ErrorView::SourceUnreadable,
        },
{
    match read_header(data) {
        Ok(header) => Ok(get_mapping_from_header(&header)),
        Err(e) => Err(e),
    }
}

/// Whether two maps bind the same names.
pub fn keys_match(map1: &ColumnMap, map2: &ColumnMap) -> (r: bool)
    ensures
        r == (map1@.dom() == map2@.dom()),
{
    if map1.len() != map2.len() {
        return false;
    }
    let ghost names = map1.names.deep_view();
    proof {
        use_type_invariant(map1);
    }
    let mut i: usize = 0;
    while i < map1.names.len()
        invariant
            i <= map1.names.len(),
            names == map1.names.deep_view(),
            forall|j: int| 0 <= j < i ==> map2@.contains_key(#[trigger] names[j]),
        decreases map1.names.len() - i,
    {
        if !map2.contains_key(&map1.names[i]) {
            proof {
                use_type_invariant(map1);
                assert(names.to_set().contains(names[i as int]));
            }
            return false;
        }
        i += 1;
    }
    proof {
        assert(map1@.dom().subset_of(map2@.dom()));
        lemma_subset_equality(map1@.dom(), map2@.dom());
    }
    true
}

/// The positions that a mapping gives to the named columns, in the order in
/// which the columns are named.
pub open spec fn positions_of(mapping: Map<Seq<char>, usize>, columns: Seq<Seq<char>>) -> Seq<
    usize,
> {
    columns.map_values(|n: Seq<char>| mapping[n])
}

/// Whether a mapping binds every one of the named columns.
pub open spec fn binds_all(mapping: Map<Seq<char>, usize>, columns: Seq<Seq<char>>) -> bool {
    forall|i: int| 0 <= i < columns.len() ==> mapping.contains_key(#[trigger] columns[i])
}

/// Collects the positions of the named columns from a mapping. Fails when a
/// column is not bound by the mapping.
pub fn get_col_indizes(mapping: &ColumnMap, columns: &Vec<String>) -> (r: Result<
    Vec<usize>,
    CompareError,
>)
    ensures
        match r {
            Ok(cols) => binds_all(mapping@, columns.deep_view()) && cols@ == positions_of(
                mapping@,
                columns.deep_view(),
            ),
            Err(e) => !binds_all(mapping@, columns.deep_view()) && e@
                == ErrorView::ColumnNotFound,
        },
{
    let ghost all = columns.deep_view();
    let mut cols: Vec<usize> = Vec::new();
    let mut i: usize = 0;
    while i < columns.len()
        invariant
            i <= columns.len(),
            all == columns.deep_view(),
            cols.len() == i,
            forall|j: int| 0 <= j < i ==> mapping@.contains_key(#[trigger] all[j]),
            forall|j: int| 0 <= j < i ==> cols[j] == mapping@[all[j]],
        decreases columns.len() - i,
    {
        match mapping.get(&columns[i]) {
            Some(position) => {
                cols.push(position);
            },
            None => {
                assert(!mapping@.contains_key(all[i as int]));
                return Err(CompareError::ColumnNotFound);
            },
        }
        i += 1;
    }
    Ok(cols)
}

} // verus!
