//! The column-oriented key/value storage abstraction and its in-memory
//! backend.
//!
//! [`KeyValueStore`] maps a record key to a set of named byte-valued columns.
//! Writing merges columns into the record without touching the ones not
//! mentioned; reading returns only the requested columns that exist, in
//! request order. [`MemoryKeyValueStore`] implements the contract entirely in
//! this crate; the cloud document-database backend lives outside the library.

use vstd::prelude::*;
use vstd::slice::slice_to_vec;
use crate::storage::{
    assoc_map, distinct_keys, find_pair, lemma_assoc_contains, lemma_assoc_index, upsert_pair,
};
use crate::ServiceError;

verus! {

/// A named byte value attached to a record.
#[derive(Debug, Clone, PartialEq)]
pub struct Column {
    pub name: String,
    pub value: Vec<u8>,
}

impl Column {
    /// A column with the given name and value.
    pub fn new(name: String, value: Vec<u8>) -> (r: Column)
        ensures
            r.name@ == name@,
            r.value@ == value@,
    {
        Column { name, value }
    }
}

/// The name and value of each column in a list.
pub open spec fn col_views(s: Seq<Column>) -> Seq<(Seq<char>, Seq<u8>)> {
    s.map_values(|c: Column| (c.name@, c.value@))
}

/// The name of each requested column.
pub open spec fn names_views(s: Seq<String>) -> Seq<Seq<char>> {
    s.map_values(|n: String| n@)
}

/// The record under `key`, or an empty record when the key is absent.
pub open spec fn record_of(
    m: Map<Seq<char>, Map<Seq<char>, Seq<u8>>>,
    key: Seq<char>,
) -> Map<Seq<char>, Seq<u8>> {
    if m.contains_key(key) {
        m[key]
    } else {
        Map::empty()
    }
}

/// The record after merging `cols` into `rec`, one column at a time; a later
/// column with the same name wins.
pub open spec fn apply_columns(rec: Map<Seq<char>, Seq<u8>>, cols: Seq<Column>) -> Map<
    Seq<char>,
    Seq<u8>,
>
    decreases cols.len(),
{
    if cols.len() == 0 {
        rec
    } else {
        apply_columns(rec, cols.drop_last()).insert(cols.last().name@, cols.last().value@)
    }
}

/// The requested columns that exist in `rec`, in request order; absent names
/// are silently omitted.
pub open spec fn selected_columns(rec: Map<Seq<char>, Seq<u8>>, names: Seq<Seq<char>>) -> Seq<
    (Seq<char>, Seq<u8>),
>
    decreases names.len(),
{
    if names.len() == 0 {
        seq![]
    } else {
        selected_columns(rec, names.drop_last()) + (if rec.contains_key(names.last()) {
            seq![(names.last(), rec[names.last()])]
        } else {
            seq![]
        })
    }
}

/// No name exists in an empty record, so nothing is selected from one.
proof fn lemma_selected_empty(names: Seq<Seq<char>>)
    ensures
        selected_columns(Map::empty(), names) =~= Seq::<(Seq<char>, Seq<u8>)>::empty(),
    decreases names.len(),
{
    if names.len() > 0 {
        lemma_selected_empty(names.drop_last());
    }
}

/// Keyed records of named byte-valued columns.
///
/// A backend is a mapping from record key to a mapping from column name to
/// bytes (`view`). A backend that can never raise `StorageFailure` says so
/// through `reliable`; the cloud backend cannot.
pub trait KeyValueStore: Sized {
    /// The backend's well-formedness; every operation preserves it.
    spec fn inv(&self) -> bool;

    /// The stored records: each key's columns.
    spec fn view(&self) -> Map<Seq<char>, Map<Seq<char>, Seq<u8>>>;

    /// Whether the backend never raises `StorageFailure`.
    spec fn reliable(&self) -> bool;

    /// Merges the given columns into the record at `key`, creating the
    /// record if absent; columns not mentioned keep their previous values.
    fn put(&mut self, key: String, columns: Vec<Column>) -> (r: Result<(), ServiceError>)
        requires
            old(self).inv(),
        ensures
            final(self).inv(),
            final(self).reliable() == old(self).reliable(),
            r is Ok ==> final(self).view() == old(self).view().insert(
                key@,
                apply_columns(record_of(old(self).view(), key@), columns@),
            ),
            r matches Err(e) ==> final(self).view() == old(self).view() && e is StorageFailure,
            old(self).reliable() ==> r is Ok,
    ;

    /// Returns the requested columns that exist for `key`, in request order;
    /// an absent key yields an empty list, not an error.
    fn get(&self, key: String, column_names: Vec<String>) -> (r: Result<
        Vec<Column>,
        ServiceError,
    >)
        requires
            self.inv(),
        ensures
            r matches Ok(v) ==> col_views(v@) == selected_columns(
                record_of(self.view(), key@),
                names_views(column_names@),
            ),
            r matches Err(e) ==> e is StorageFailure,
            self.reliable() ==> r is Ok,
    ;
}

/// The nested mapping an association list of records holds.
pub open spec fn record_map(s: Seq<(String, Vec<(String, Vec<u8>)>)>) -> Map<
    Seq<char>,
    Map<Seq<char>, Seq<u8>>,
>
    decreases s.len(),
{
    if s.len() == 0 {
        Map::empty()
    } else {
        record_map(s.drop_last()).insert(s.last().0@, assoc_map(s.last().1@))
    }
}

/// Whether the records carry pairwise-distinct keys.
pub open spec fn distinct_record_keys(s: Seq<(String, Vec<(String, Vec<u8>)>)>) -> bool {
    forall|i: int, j: int|
        #![trigger s[i], s[j]]
        0 <= i < j < s.len() ==> s[i].0@ != s[j].0@
}

/// A key is in the record map exactly when some record carries it.
proof fn lemma_record_contains(s: Seq<(String, Vec<(String, Vec<u8>)>)>, k: Seq<char>)
    ensures
        record_map(s).contains_key(k) <==> exists|i: int| 0 <= i < s.len() && (#[trigger] s[i]).0@
            == k,
    decreases s.len(),
{
    if s.len() == 0 {
    } else {
        lemma_record_contains(s.drop_last(), k);
        assert(forall|i: int| 0 <= i < s.len() - 1 ==> #[trigger] s.drop_last()[i] == s[i]);
        if s.last().0@ == k {
            assert(s[s.len() - 1].0@ == k);
        } else {
            if record_map(s).contains_key(k) {
                let i = choose|i: int| 0 <= i < s.len() - 1 && (#[trigger] s.drop_last()[i]).0@
                    == k;
                assert(s[i].0@ == k);
            }
            if exists|i: int| 0 <= i < s.len() && (#[trigger] s[i]).0@ == k {
                let i = choose|i: int| 0 <= i < s.len() && (#[trigger] s[i]).0@ == k;
                assert(i < s.len() - 1);
                assert(s.drop_last()[i].0@ == k);
            }
        }
    }
}

/// With distinct keys, the record at `i` is what the map holds for its key.
proof fn lemma_record_index(s: Seq<(String, Vec<(String, Vec<u8>)>)>, i: int)
    requires
        distinct_record_keys(s),
        0 <= i < s.len(),
    ensures
        record_map(s).contains_key(s[i].0@),
        record_map(s)[s[i].0@] == assoc_map(s[i].1@),
    decreases s.len(),
{
    if i == s.len() - 1 {
        assert(s.last() == s[i]);
    } else {
        assert(forall|t: int| 0 <= t < s.len() - 1 ==> #[trigger] s.drop_last()[t] == s[t]);
        assert(distinct_record_keys(s.drop_last()));
        lemma_record_index(s.drop_last(), i);
        assert(s.last().0@ != s[i].0@);
    }
}

/// With distinct keys, removing the record at `i` removes exactly its key.
proof fn lemma_record_remove(s: Seq<(String, Vec<(String, Vec<u8>)>)>, i: int)
    requires
        distinct_record_keys(s),
        0 <= i < s.len(),
    ensures
        record_map(s.remove(i)) == record_map(s).remove(s[i].0@),
    decreases s.len(),
{
    let k = s[i].0@;
    if i == s.len() - 1 {
        assert(s.remove(i) =~= s.drop_last());
        lemma_record_contains(s.drop_last(), k);
        assert(forall|t: int| 0 <= t < s.len() - 1 ==> #[trigger] s.drop_last()[t] == s[t]);
        assert(!record_map(s.drop_last()).contains_key(k));
        assert(record_map(s.drop_last()) =~= record_map(s.drop_last()).insert(
            s.last().0@,
            assoc_map(s.last().1@),
        ).remove(k));
    } else {
        assert(forall|t: int| 0 <= t < s.len() - 1 ==> #[trigger] s.drop_last()[t] == s[t]);
        assert(distinct_record_keys(s.drop_last()));
        lemma_record_remove(s.drop_last(), i);
        assert(s.remove(i).drop_last() =~= s.drop_last().remove(i));
        assert(s.remove(i).last() == s.last());
        assert(record_map(s.remove(i)) == record_map(s.drop_last().remove(i)).insert(
            s.last().0@,
            assoc_map(s.last().1@),
        ));
        assert(s.last().0@ != k);
        assert(record_map(s.drop_last()).remove(k).insert(s.last().0@, assoc_map(s.last().1@))
            =~= record_map(s.drop_last()).insert(s.last().0@, assoc_map(s.last().1@)).remove(k));
    }
}

/// In-memory key/value store: an exclusively owned mapping from record key
/// to a nested mapping from column name to bytes.
pub struct MemoryKeyValueStore {
    records: Vec<(String, Vec<(String, Vec<u8>)>)>,
}

impl MemoryKeyValueStore {
    /// An empty store.
    pub fn new() -> (r: MemoryKeyValueStore)
        ensures
            r.inv(),
            r.view() == Map::<Seq<char>, Map<Seq<char>, Seq<u8>>>::empty(),
            r.reliable(),
    {
        MemoryKeyValueStore { records: Vec::new() }
    }

    /// The index of the record carrying `key`, if one does.
    fn find_record(&self, key: &str) -> (r: Option<usize>)
        ensures
            r matches Some(i) ==> i < self.records@.len() && self.records@[i as int].0@ == key@,
            r is None ==> forall|t: int|
                0 <= t < self.records@.len() ==> (#[trigger] self.records@[t]).0@ != key@,
    {
        let n = self.records.len();
        let mut i: usize = 0;
        while i < n
            invariant
                i <= n,
                n == self.records@.len(),
                forall|t: int| 0 <= t < i ==> (#[trigger] self.records@[t]).0@ != key@,
            decreases n - i,
        {
            if crate::strutil::str_eq(self.records[i].0.as_str(), key) {
                return Some(i);
            }
            i = i + 1;
        }
        None
    }
}

impl Default for MemoryKeyValueStore {
    /// An empty store.
    fn default() -> (r: MemoryKeyValueStore)
        ensures
            r.inv(),
            r.view() == Map::<Seq<char>, Map<Seq<char>, Seq<u8>>>::empty(),
            r.reliable(),
    {
        MemoryKeyValueStore::new()
    }
}

impl KeyValueStore for MemoryKeyValueStore {
    closed spec fn inv(&self) -> bool {
        &&& distinct_record_keys(self.records@)
        &&& forall|i: int|
            0 <= i < self.records@.len() ==> distinct_keys((#[trigger] self.records@[i]).1@)
    }

    closed spec fn view(&self) -> Map<Seq<char>, Map<Seq<char>, Seq<u8>>> {
        record_map(self.records@)
    }

    open spec fn reliable(&self) -> bool {
        true
    }

    fn put(&mut self, key: String, columns: Vec<Column>) -> (r: Result<(), ServiceError>) {
        let ghost pre = self.records@;
        let mut cols: Vec<(String, Vec<u8>)>;
        match self.find_record(key.as_str()) {
            Some(i) => {
                proof {
                    lemma_record_index(pre, i as int);
                    lemma_record_remove(pre, i as int);
                }
                let pair = self.records.remove(i);
                cols = pair.1;
                proof {
                    assert(forall|t: int|
                        0 <= t < pre.len() - 1 ==> #[trigger] pre.remove(i as int)[t] == (
                        if t < i {
                            pre[t]
                        } else {
                            pre[t + 1]
                        }));
                    assert(distinct_record_keys(self.records@));
                    assert(forall|t: int|
                        0 <= t < self.records@.len() ==> distinct_keys(
                            (#[trigger] self.records@[t]).1@,
                        ));
                    assert(forall|t: int|
                        0 <= t < self.records@.len() ==> (#[trigger] self.records@[t]).0@
                            != key@);
                    assert(record_map(self.records@) == record_map(pre).remove(key@));
                    assert(assoc_map(cols@) == record_of(record_map(pre), key@));
                }
            },
            None => {
                cols = Vec::new();
                proof {
                    lemma_record_contains(pre, key@);
                    assert(!record_map(pre).contains_key(key@));
                    assert(assoc_map(cols@) =~= record_of(record_map(pre), key@));
                    assert(record_map(self.records@) =~= record_map(pre).remove(key@));
                }
            },
        }
        let ghost rec0 = assoc_map(cols@);
        let n = columns.len();
        let mut j: usize = 0;
        while j < n
            invariant
                j <= n,
                n == columns@.len(),
                distinct_keys(cols@),
                assoc_map(cols@) == apply_columns(rec0, columns@.take(j as int)),
            decreases n - j,
        {
            let name = columns[j].name.clone();
            let value = slice_to_vec(columns[j].value.as_slice());
            upsert_pair(&mut cols, name, value);
            proof {
                assert(columns@.take(j + 1).drop_last() =~= columns@.take(j as int));
                assert(columns@.take(j + 1).last() == columns@[j as int]);
            }
            j = j + 1;
        }
        proof {
            assert(columns@.take(n as int) =~= columns@);
        }
        let ghost mid = self.records@;
        self.records.push((key, cols));
        proof {
            assert(self.records@.drop_last() =~= mid);
            assert(record_map(self.records@) == record_map(mid).insert(
                self.records@.last().0@,
                assoc_map(self.records@.last().1@),
            ));
            assert(record_map(self.records@) =~= record_map(pre).insert(
                self.records@.last().0@,
                apply_columns(record_of(record_map(pre), self.records@.last().0@), columns@),
            ));
            assert(distinct_record_keys(self.records@)) by {
                assert(forall|t: int|
                    0 <= t < mid.len() ==> #[trigger] self.records@[t] == mid[t]);
            }
            assert(forall|t: int|
                0 <= t < self.records@.len() ==> distinct_keys(
                    (#[trigger] self.records@[t]).1@,
                )) by {
                assert(forall|t: int|
                    0 <= t < mid.len() ==> #[trigger] self.records@[t] == mid[t]);
            }
        }
        Ok(())
    }

    fn get(&self, key: String, column_names: Vec<String>) -> (r: Result<
        Vec<Column>,
        ServiceError,
    >) {
        let mut out: Vec<Column> = Vec::new();
        match self.find_record(key.as_str()) {
            None => {
                proof {
                    lemma_record_contains(self.records@, key@);
                    assert(!record_map(self.records@).contains_key(key@));
                    lemma_selected_empty(names_views(column_names@));
                    assert(col_views(out@) =~= selected_columns(
                        record_of(self.view(), key@),
                        names_views(column_names@),
                    ));
                }
                Ok(out)
            },
            Some(i) => {
                proof {
                    lemma_record_index(self.records@, i as int);
                }
                let rec = &self.records[i].1;
                let ghost recm = assoc_map(rec@);
                let nn = column_names.len();
                let mut j: usize = 0;
                proof {
                    assert(names_views(column_names@).take(0) =~= Seq::<Seq<char>>::empty());
                    assert(col_views(out@) =~= selected_columns(
                        recm,
                        names_views(column_names@).take(0),
                    ));
                }
                while j < nn
                    invariant
                        j <= nn,
                        nn == column_names@.len(),
                        distinct_keys(rec@),
                        recm == assoc_map(rec@),
                        col_views(out@) == selected_columns(
                            recm,
                            names_views(column_names@).take(j as int),
                        ),
                    decreases nn - j,
                {
                    let ghost names = names_views(column_names@);
                    let ghost before = out@;
                    match find_pair(rec, column_names[j].as_str()) {
                        Some(ci) => {
                            proof {
                                lemma_assoc_index(rec@, ci as int);
                            }
                            out.push(
                                Column::new(
                                    rec[ci].0.clone(),
                                    slice_to_vec(rec[ci].1.as_slice()),
                                ),
                            );
                            proof {
                                assert(col_views(out@) =~= col_views(before).push(
                                    (names[j as int], recm[names[j as int]]),
                                ));
                                assert(names.take(j + 1).drop_last() =~= names.take(j as int));
                                assert(names.take(j + 1).last() == names[j as int]);
                                assert(col_views(out@) =~= selected_columns(
                                    recm,
                                    names.take(j + 1),
                                ));
                            }
                        },
                        None => {
                            proof {
                                lemma_assoc_contains(rec@, names[j as int]);
                                assert(!recm.contains_key(names[j as int]));
                                assert(names.take(j + 1).drop_last() =~= names.take(j as int));
                                assert(names.take(j + 1).last() == names[j as int]);
                                assert(col_views(out@) =~= selected_columns(
                                    recm,
                                    names.take(j + 1),
                                ));
                            }
                        },
                    }
                    j = j + 1;
                }
                proof {
                    assert(names_views(column_names@).take(nn as int) =~= names_views(
                        column_names@,
                    ));
                    assert(record_of(self.view(), key@) == recm);
                }
                Ok(out)
            },
        }
    }
}

} // verus!
