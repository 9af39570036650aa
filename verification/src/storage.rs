//! The blob-object storage abstraction and its in-memory and disk backends.
//!
//! [`ObjectStore`] is the narrow capability set the caching policy is built
//! on: `put`, `get` and prefix listing, specified against a map from key to
//! bytes. [`MemoryObjectStore`] implements it entirely in this crate; disk
//! and cloud backends live outside the library and are specified only by the
//! same trait contract.

use vstd::prelude::*;
use crate::strutil::{str_eq, str_starts_with};
use crate::ServiceError;

verus! {

/// Descriptor of a stored blob: its key and nothing else.
#[derive(Debug, Clone)]
pub struct StoredObject {
    pub key: String,
}

/// The key of each listed object.
pub open spec fn stored_keys(s: Seq<StoredObject>) -> Seq<Seq<char>> {
    s.map_values(|o: StoredObject| o.key@)
}

/// The keys of `m` that start with `prefix`.
pub open spec fn keys_with_prefix(m: Map<Seq<char>, Seq<u8>>, prefix: Seq<char>) -> Set<
    Seq<char>,
> {
    m.dom().filter(|k: Seq<char>| prefix.is_prefix_of(k))
}

/// Byte-addressable object storage with prefix listing.
///
/// A backend is a mapping from key to bytes (`view`). A backend that can
/// never raise `StorageFailure` says so through `reliable`; cloud and disk
/// backends cannot.
pub trait ObjectStore: Sized {
    /// The backend's well-formedness; every operation preserves it.
    spec fn inv(&self) -> bool;

    /// The stored objects: each key's current bytes.
    spec fn view(&self) -> Map<Seq<char>, Seq<u8>>;

    /// Whether the backend never raises `StorageFailure`.
    spec fn reliable(&self) -> bool;

    /// Writes (or overwrites) the object at `key`. Once it returns
    /// successfully, the object is visible to every subsequent read.
    fn put_object(&mut self, key: &str, data: Vec<u8>) -> (r: Result<(), ServiceError>)
        requires
            old(self).inv(),
        ensures
            final(self).inv(),
            final(self).reliable() == old(self).reliable(),
            r is Ok ==> final(self).view() == old(self).view().insert(key@, data@),
            r matches Err(e) ==> final(self).view() == old(self).view() && e is StorageFailure,
            old(self).reliable() ==> r is Ok,
    ;

    /// Reads the full object at `key`; `NotFound` exactly when the key is
    /// absent.
    fn get_object(&self, key: &str) -> (r: Result<Vec<u8>, ServiceError>)
        requires
            self.inv(),
        ensures
            r matches Ok(v) ==> self.view().contains_key(key@) && v@ == self.view()[key@],
            r matches Err(e) ==> e is NotFound || e is StorageFailure,
            r matches Err(e) && e is NotFound ==> !self.view().contains_key(key@),
            self.reliable() && self.view().contains_key(key@) ==> r is Ok,
            self.reliable() && !self.view().contains_key(key@) ==> (r matches Err(e)
                && e is NotFound),
    ;

    /// Lists every object whose key starts with `prefix`, each exactly once,
    /// in no particular order. An empty result is not an error.
    fn list_objects(&self, prefix: &str) -> (r: Result<Vec<StoredObject>, ServiceError>)
        requires
            self.inv(),
        ensures
            r matches Ok(v) ==> stored_keys(v@).no_duplicates() && stored_keys(v@).to_set()
                == keys_with_prefix(self.view(), prefix@),
            r matches Err(e) ==> e is StorageFailure,
            self.reliable() ==> r is Ok,
    ;
}

/// The mapping an association list holds; later entries win.
pub open spec fn assoc_map(s: Seq<(String, Vec<u8>)>) -> Map<Seq<char>, Seq<u8>>
    decreases s.len(),
{
    if s.len() == 0 {
        Map::empty()
    } else {
        assoc_map(s.drop_last()).insert(s.last().0@, s.last().1@)
    }
}

/// Whether the entries carry pairwise-distinct keys.
pub open spec fn distinct_keys(s: Seq<(String, Vec<u8>)>) -> bool {
    forall|i: int, j: int|
        #![trigger s[i], s[j]]
        0 <= i < j < s.len() ==> s[i].0@ != s[j].0@
}

/// A key is in the association map exactly when some entry carries it.
pub(crate) proof fn lemma_assoc_contains(s: Seq<(String, Vec<u8>)>, k: Seq<char>)
    ensures
        assoc_map(s).contains_key(k) <==> exists|i: int| 0 <= i < s.len() && (#[trigger] s[i]).0@
            == k,
    decreases s.len(),
{
    if s.len() == 0 {
    } else {
        lemma_assoc_contains(s.drop_last(), k);
        assert(forall|i: int| 0 <= i < s.len() - 1 ==> #[trigger] s.drop_last()[i] == s[i]);
        if s.last().0@ == k {
            assert(s[s.len() - 1].0@ == k);
        } else {
            if assoc_map(s).contains_key(k) {
                let i = choose|i: int| 0 <= i < s.len() - 1 && (#[trigger] s.drop_last()[i]).0@
                    == k;
                assert(s[i].0@ == k);
            }
            if exists|i: int| 0 <= i < s.len() && (#[trigger] s[i]).0@ == k {
                let i = choose|i: int| 0 <= i < s.len() && (#[trigger] s[i]).0@ == k;
                assert(i < s.len() - 1);
                assert(s.drop_last()[i].0@ == k);
            }
        }
    }
}

/// With distinct keys, the entry at `i` is what the map holds for its key.
pub(crate) proof fn lemma_assoc_index(s: Seq<(String, Vec<u8>)>, i: int)
    requires
        distinct_keys(s),
        0 <= i < s.len(),
    ensures
        assoc_map(s).contains_key(s[i].0@),
        assoc_map(s)[s[i].0@] == s[i].1@,
    decreases s.len(),
{
    if i == s.len() - 1 {
        assert(s.last() == s[i]);
    } else {
        assert(forall|t: int| 0 <= t < s.len() - 1 ==> #[trigger] s.drop_last()[t] == s[t]);
        assert(distinct_keys(s.drop_last()));
        lemma_assoc_index(s.drop_last(), i);
        assert(s.last().0@ != s[i].0@);
    }
}

/// With distinct keys, removing the entry at `i` removes exactly its key.
pub(crate) proof fn lemma_assoc_remove(s: Seq<(String, Vec<u8>)>, i: int)
    requires
        distinct_keys(s),
        0 <= i < s.len(),
    ensures
        assoc_map(s.remove(i)) == assoc_map(s).remove(s[i].0@),
    decreases s.len(),
{
    let k = s[i].0@;
    if i == s.len() - 1 {
        assert(s.remove(i) =~= s.drop_last());
        lemma_assoc_contains(s.drop_last(), k);
        assert(forall|t: int| 0 <= t < s.len() - 1 ==> #[trigger] s.drop_last()[t] == s[t]);
        assert(!assoc_map(s.drop_last()).contains_key(k));
        assert(assoc_map(s.drop_last()) =~= assoc_map(s.drop_last()).insert(
            s.last().0@,
            s.last().1@,
        ).remove(k));
    } else {
        assert(forall|t: int| 0 <= t < s.len() - 1 ==> #[trigger] s.drop_last()[t] == s[t]);
        assert(distinct_keys(s.drop_last()));
        lemma_assoc_remove(s.drop_last(), i);
        assert(s.remove(i).drop_last() =~= s.drop_last().remove(i));
        assert(s.remove(i).last() == s.last());
        assert(assoc_map(s.remove(i)) == assoc_map(s.drop_last().remove(i)).insert(
            s.last().0@,
            s.last().1@,
        ));
        assert(s.last().0@ != k);
        assert(assoc_map(s.drop_last()).remove(k).insert(s.last().0@, s.last().1@) =~= assoc_map(
            s.drop_last(),
        ).insert(s.last().0@, s.last().1@).remove(k));
    }
}

/// The index of the entry carrying `key`, if one does.
pub(crate) fn find_pair(entries: &Vec<(String, Vec<u8>)>, key: &str) -> (r: Option<usize>)
    ensures
        r matches Some(i) ==> i < entries@.len() && entries@[i as int].0@ == key@,
        r is None ==> forall|t: int|
            0 <= t < entries@.len() ==> (#[trigger] entries@[t]).0@ != key@,
{
    let n = entries.len();
    let mut i: usize = 0;
    while i < n
        invariant
            i <= n,
            n == entries@.len(),
            forall|t: int| 0 <= t < i ==> (#[trigger] entries@[t]).0@ != key@,
        decreases n - i,
    {
        if str_eq(entries[i].0.as_str(), key) {
            return Some(i);
        }
        i = i + 1;
    }
    None
}

/// Writes (or overwrites) the entry for `key`, keeping the keys distinct.
pub(crate) fn upsert_pair(entries: &mut Vec<(String, Vec<u8>)>, key: String, value: Vec<u8>)
    requires
        distinct_keys(old(entries)@),
    ensures
        distinct_keys(final(entries)@),
        assoc_map(final(entries)@) == assoc_map(old(entries)@).insert(key@, value@),
{
    let ghost pre = entries@;
    match find_pair(entries, key.as_str()) {
        Some(i) => {
            proof {
                lemma_assoc_remove(pre, i as int);
            }
            entries.remove(i);
            proof {
                assert(distinct_keys(entries@)) by {
                    assert(forall|t: int|
                        0 <= t < pre.len() - 1 ==> #[trigger] pre.remove(i as int)[t] == (
                        if t < i {
                            pre[t]
                        } else {
                            pre[t + 1]
                        }));
                }
                assert(forall|t: int|
                    0 <= t < entries@.len() ==> (#[trigger] entries@[t]).0@ != key@) by {
                    assert(forall|t: int|
                        0 <= t < pre.len() - 1 ==> #[trigger] pre.remove(i as int)[t] == (
                        if t < i {
                            pre[t]
                        } else {
                            pre[t + 1]
                        }));
                }
            }
            let ghost mid = entries@;
            entries.push((key, value));
            proof {
                assert(entries@.drop_last() =~= mid);
                assert(assoc_map(entries@) == assoc_map(mid).insert(entries@.last().0@, value@));
                assert(assoc_map(entries@) =~= assoc_map(pre).insert(entries@.last().0@, value@));
                assert(distinct_keys(entries@)) by {
                    assert(forall|t: int| 0 <= t < mid.len() ==> #[trigger] entries@[t] == mid[t]);
                }
            }
        },
        None => {
            let ghost mid = entries@;
            entries.push((key, value));
            proof {
                lemma_assoc_contains(mid, entries@.last().0@);
                assert(entries@.drop_last() =~= mid);
                assert(assoc_map(entries@) == assoc_map(mid).insert(entries@.last().0@, value@));
                assert(distinct_keys(entries@)) by {
                    assert(forall|t: int| 0 <= t < mid.len() ==> #[trigger] entries@[t] == mid[t]);
                }
            }
        },
    }
}

/// In-memory blob store: an exclusively owned mapping from key to bytes.
///
/// Held as an association vector whose keys stay pairwise distinct, so a
/// listing yields each stored object exactly once.
pub struct MemoryObjectStore {
    entries: Vec<(String, Vec<u8>)>,
}

impl MemoryObjectStore {
    /// An empty store.
    pub fn new() -> (r: MemoryObjectStore)
        ensures
            r.inv(),
            r.view() == Map::<Seq<char>, Seq<u8>>::empty(),
            r.reliable(),
    {
        MemoryObjectStore { entries: Vec::new() }
    }

}

impl ObjectStore for MemoryObjectStore {
    closed spec fn inv(&self) -> bool {
        distinct_keys(self.entries@)
    }

    closed spec fn view(&self) -> Map<Seq<char>, Seq<u8>> {
        assoc_map(self.entries@)
    }

    open spec fn reliable(&self) -> bool {
        true
    }

    fn put_object(&mut self, key: &str, data: Vec<u8>) -> (r: Result<(), ServiceError>) {
        upsert_pair(&mut self.entries, key.to_owned(), data);
        Ok(())
    }

    fn get_object(&self, key: &str) -> (r: Result<Vec<u8>, ServiceError>) {
        proof {
            lemma_assoc_contains(self.entries@, key@);
        }
        match find_pair(&self.entries, key) {
            Some(i) => {
                proof {
                    lemma_assoc_index(self.entries@, i as int);
                }
                Ok(vstd::slice::slice_to_vec(self.entries[i].1.as_slice()))
            },
            None => Err(ServiceError::NotFound(key.to_owned())),
        }
    }

    fn list_objects(&self, prefix: &str) -> (r: Result<Vec<StoredObject>, ServiceError>) {
        let mut out: Vec<StoredObject> = Vec::new();
        let n = self.entries.len();
        let mut i: usize = 0;
        while i < n
            invariant
                i <= n,
                n == self.entries@.len(),
                distinct_keys(self.entries@),
                stored_keys(out@).no_duplicates(),
                forall|k: Seq<char>|
                    #[trigger] stored_keys(out@).to_set().contains(k) <==> exists|t: int|
                        0 <= t < i && (#[trigger] self.entries@[t]).0@ == k
                            && prefix@.is_prefix_of(k),
            decreases n - i,
        {
            let e = &self.entries[i];
            if str_starts_with(e.0.as_str(), prefix) {
                let ghost before = out@;
                out.push(StoredObject { key: e.0.clone() });
                proof {
                    assert(stored_keys(out@) =~= stored_keys(before).push(
                        self.entries@[i as int].0@,
                    ));
                    assert(stored_keys(out@).no_duplicates()) by {
                        let ks = stored_keys(before);
                        let nk = self.entries@[i as int].0@;
                        assert(!ks.contains(nk)) by {
                            if ks.contains(nk) {
                                assert(ks.to_set().contains(nk));
                            }
                        }
                        assert(forall|a: int, b: int|
                            #![trigger ks.push(nk)[a], ks.push(nk)[b]]
                            0 <= a < b < ks.push(nk).len() ==> ks.push(nk)[a] != ks.push(nk)[b])
                            by {
                            assert(forall|a: int|
                                0 <= a < ks.len() ==> #[trigger] ks.push(nk)[a] == ks[a]);
                            assert(forall|a: int|
                                0 <= a < ks.len() ==> #[trigger] ks.contains(ks[a]));
                        }
                    }
                    broadcast use vstd::seq_lib::lemma_seq_contains_after_push;

                    let ks = stored_keys(before);
                    let nk = self.entries@[i as int].0@;
                    assert(stored_keys(out@) == ks.push(nk));
                    assert forall|k: Seq<char>|
                        #[trigger] stored_keys(out@).to_set().contains(k) <==> exists|t: int|
                            0 <= t < i + 1 && (#[trigger] self.entries@[t]).0@ == k
                                && prefix@.is_prefix_of(k) by {
                        if stored_keys(out@).to_set().contains(k) {
                            if k == nk {
                                assert(self.entries@[i as int].0@ == k && prefix@.is_prefix_of(
                                    k,
                                ));
                            } else {
                                assert(ks.contains(k));
                                assert(ks.to_set().contains(k));
                            }
                        }
                        if exists|t: int|
                            0 <= t < i + 1 && (#[trigger] self.entries@[t]).0@ == k
                                && prefix@.is_prefix_of(k) {
                            let t = choose|t: int|
                                0 <= t < i + 1 && (#[trigger] self.entries@[t]).0@ == k
                                    && prefix@.is_prefix_of(k);
                            if t == i {
                                assert(stored_keys(out@).contains(nk));
                            } else {
                                assert(ks.to_set().contains(k));
                                assert(ks.contains(k));
                            }
                        }
                    }
                }
            } else {
                proof {
                    assert forall|k: Seq<char>|
                        #[trigger] stored_keys(out@).to_set().contains(k) <==> exists|t: int|
                            0 <= t < i + 1 && (#[trigger] self.entries@[t]).0@ == k
                                && prefix@.is_prefix_of(k) by {
                        if exists|t: int|
                            0 <= t < i + 1 && (#[trigger] self.entries@[t]).0@ == k
                                && prefix@.is_prefix_of(k) {
                            let t = choose|t: int|
                                0 <= t < i + 1 && (#[trigger] self.entries@[t]).0@ == k
                                    && prefix@.is_prefix_of(k);
                            assert(t != i);
                        }
                    }
                }
            }
            i = i + 1;
        }
        proof {
            assert(stored_keys(out@).to_set() =~= keys_with_prefix(
                assoc_map(self.entries@),
                prefix@,
            )) by {
                assert forall|k: Seq<char>|
                    keys_with_prefix(assoc_map(self.entries@), prefix@).contains(k)
                        == #[trigger] stored_keys(out@).to_set().contains(k) by {
                    lemma_assoc_contains(self.entries@, k);
                }
            }
        }
        Ok(out)
    }
}

/// Disk-backed blob store: the key-to-path mapping under a base directory.
///
/// Only the path arithmetic lives here; reading and writing the files is
/// input/output and stays outside the library, specified by the
/// [`ObjectStore`] contract.
#[derive(Debug, Clone)]
pub struct DiskObjectStore {
    base_path: String,
}

impl DiskObjectStore {
    /// The configured base directory.
    pub closed spec fn base(&self) -> Seq<char> {
        self.base_path@
    }

    /// A store rooted at the default base directory, `./storage`.
    pub fn new() -> (r: DiskObjectStore)
        ensures
            r.base() == "./storage"@,
    {
        DiskObjectStore { base_path: "./storage".to_owned() }
    }

    /// A store rooted at `base_path`.
    pub fn with_base_path(base_path: String) -> (r: DiskObjectStore)
        ensures
            r.base() == base_path@,
    {
        DiskObjectStore { base_path }
    }

    /// The file path an object key maps to: the key appended to the base
    /// directory with a slash between.
    pub fn key_to_path(&self, key: &str) -> (r: String)
        ensures
            r@ == self.base() + seq!['/'] + key@,
    {
        proof {
            reveal_strlit("/");
            assert("/"@ =~= seq!['/']);
        }
        let mut p = self.base_path.clone();
        p.append("/");
        p.append(key);
        p
    }

    /// The object key a file path maps back to: the path relative to the
    /// base directory, or nothing when the path lies outside it.
    pub fn path_to_key(&self, path: &str) -> (r: Option<String>)
        ensures
            (self.base() + seq!['/']).is_prefix_of(path@) ==> (r matches Some(k) && k@
                == path@.skip(self.base().len() as int + 1)),
            !(self.base() + seq!['/']).is_prefix_of(path@) ==> r is None,
    {
        proof {
            reveal_strlit("/");
            assert("/"@ =~= seq!['/']);
        }
        let mut p = self.base_path.clone();
        p.append("/");
        if str_starts_with(path, p.as_str()) {
            let start = p.as_str().unicode_len();
            let end = path.unicode_len();
            let rest = path.substring_char(start, end);
            proof {
                assert(rest@ =~= path@.skip(self.base().len() as int + 1));
            }
            Some(rest.to_owned())
        } else {
            None
        }
    }
}

impl Default for DiskObjectStore {
    /// A store rooted at the default base directory.
    fn default() -> (r: DiskObjectStore)
        ensures
            r.base() == "./storage"@,
    {
        DiskObjectStore::new()
    }
}

} // verus!
