//! The time-bucketed generate-or-reuse caching policy.
//!
//! [`AppState`] holds a blob store and a key/value store and decides, per
//! content category and per UTC hour, whether a request is served from a
//! stored artifact or should trigger generation of a new one. Artifacts live
//! under keys of the form `{category-prefix}/{YYYY-MM-DD-HH}/{id}.json`; a
//! bucket is everything under one such prefix. Reads pick uniformly at
//! random once a bucket is full; writes never check the capacity, which is
//! what makes the documented lookup/store race benign.

use vstd::prelude::*;
use vstd::string::StringExecFns;
use chrono::{Datelike, Timelike};
use crate::keyvalue::KeyValueStore;
use crate::reading::{
    encode_artifact, json_of, parse_artifact, spec_parse_artifact, ArtifactView, ReadingContents,
};
use crate::storage::{keys_with_prefix, stored_keys, ObjectStore};
use crate::timefmt::{lemma_stamp_chars_injective, push_stamp, stamp_chars, HourStamp};
use crate::ServiceError;

verus! {

/// How many artifacts one bucket receives before reads stop triggering
/// generation.
pub const MAX_OBJECTS_PER_HOUR: usize = 16;

/// A closed enumeration of content streams; each maps to a fixed storage
/// prefix of its own.
#[derive(Debug, Clone, Copy)]
pub enum ContentType {
    Reading,
}

/// The characters of a category's storage prefix.
pub open spec fn category_prefix_chars(ct: ContentType) -> Seq<char> {
    match ct {
        ContentType::Reading => seq!['r', 'e', 'a', 'd', 'i', 'n', 'g'],
    }
}

impl ContentType {
    /// The string prefix that partitions storage for this category.
    pub fn prefix(&self) -> (r: &'static str)
        ensures
            r@ == category_prefix_chars(*self),
    {
        proof {
            reveal_strlit("reading");
        }
        let r = match self {
            ContentType::Reading => "reading",
        };
        proof {
            assert(r@ =~= category_prefix_chars(*self));
        }
        r
    }
}

/// The characters of a bucket's key prefix:
/// `{category-prefix}/{YYYY-MM-DD-HH}/`.
pub open spec fn bucket_prefix_chars(ct: ContentType, h: HourStamp) -> Seq<char> {
    category_prefix_chars(ct) + seq!['/'] + stamp_chars(h) + seq!['/']
}

/// The suffix every stored artifact key carries: `.json`.
pub open spec fn json_suffix() -> Seq<char> {
    seq!['.', 'j', 's', 'o', 'n']
}

/// The keys of `m` that lie in the bucket of `ct` and `h`.
pub open spec fn bucket(m: Map<Seq<char>, Seq<u8>>, ct: ContentType, h: HourStamp) -> Set<
    Seq<char>,
> {
    keys_with_prefix(m, bucket_prefix_chars(ct, h))
}

/// Renders the storage prefix of the bucket for `content_type` at `stamp`.
pub fn format_timed_prefix(content_type: ContentType, stamp: HourStamp) -> (r: String)
    requires
        stamp.wf(),
    ensures
        r@ == bucket_prefix_chars(content_type, stamp),
{
    proof {
        reveal_strlit("/");
        assert("/"@ =~= seq!['/']);
    }
    let mut s = String::new();
    s.append(content_type.prefix());
    s.append("/");
    push_stamp(&mut s, stamp);
    s.append("/");
    proof {
        assert(s@ =~= bucket_prefix_chars(content_type, stamp));
    }
    s
}

/// Relies on `chrono::Utc::now` with the `Datelike` and `Timelike`
/// accessors: the current UTC year, month, day of month and hour, with the
/// ranges chrono documents for the last three.
#[verifier::external_body]
fn now_utc_parts() -> (r: (i32, u32, u32, u32))
    ensures
        1 <= r.1 <= 12,
        1 <= r.2 <= 31,
        r.3 <= 23,
{
    let now = chrono::Utc::now();
    (now.year(), now.month(), now.day(), now.hour())
}

/// Relies on `uuid::Uuid::new_v4` and its display form: a fresh random
/// identifier rendered in the 36-character hyphenated format. Nothing is
/// assumed about which identifier comes back.
#[verifier::external_body]
fn fresh_identifier() -> (r: String)
    ensures
        r@.len() == 36,
{
    uuid::Uuid::new_v4().to_string()
}

/// Relies on `rand::random` only for its signature: a random value, with
/// nothing assumed about which one comes back.
pub assume_specification<T>[ rand::random::<T> ]() -> (r: T)
    where rand::distributions::Standard: rand::distributions::Distribution<T>,
;

/// A uniformly drawn index below `n`. Nothing is assumed about which one.
fn random_index(n: usize) -> (r: usize)
    requires
        n > 0,
    ensures
        r < n,
{
    let x: usize = rand::random();
    x % n
}

/// The generate-or-reuse decision over a bucket listing of `count` objects:
/// nothing while the bucket holds fewer than `capacity` (the caller should
/// generate fresh content), otherwise the position of the object to serve,
/// drawn uniformly at random.
pub fn choose_cached_index(count: usize, capacity: usize) -> (r: Option<usize>)
    requires
        capacity >= 1,
    ensures
        r is None <==> count < capacity,
        r matches Some(i) ==> i < count,
{
    if count < capacity {
        None
    } else {
        Some(random_index(count))
    }
}

/// Application-wide state: a blob store, a key/value store and the fixed
/// per-bucket capacity. Generic over the storage implementations so any
/// backend satisfying the trait contracts can be wired in at construction.
pub struct AppState<S: ObjectStore, K: KeyValueStore> {
    /// Object storage backend for blob storage operations.
    pub object_store: S,
    /// Key-value store backend for database operations.
    pub kv_store: K,
    /// How many artifacts one bucket receives before lookups reuse instead.
    pub capacity: usize,
}

/// What a lookup's outcome says about the store it read, its capacity, and
/// the bucket of `ct` at `stamp`.
pub open spec fn lookup_post(
    m: Map<Seq<char>, Seq<u8>>,
    reliable: bool,
    capacity: int,
    ct: ContentType,
    stamp: HourStamp,
    r: Result<Option<ReadingContents>, ServiceError>,
) -> bool {
    let bkt = bucket(m, ct, stamp);
    &&& (r matches Ok(Some(a)) ==> bkt.finite() && bkt.len() >= capacity && exists|k: Seq<char>|
        #[trigger] bkt.contains(k) && spec_parse_artifact(m[k]) == Some(a@))
    &&& (r matches Ok(None) ==> bkt.finite() && bkt.len() < capacity)
    &&& (r matches Err(e) ==> e is StorageFailure || e is SerializationFailure)
    &&& (reliable ==> (r matches Err(e) ==> e is SerializationFailure))
    &&& (reliable && bkt.finite() && bkt.len() < capacity ==> r matches Ok(None))
    &&& (reliable && (forall|k: Seq<char>| #[trigger] bkt.contains(k)
        ==> spec_parse_artifact(m[k]) is Some) ==> r is Ok)
}

/// What a store's outcome says about the blob store before and after it.
pub open spec fn store_post(
    pre: Map<Seq<char>, Seq<u8>>,
    post: Map<Seq<char>, Seq<u8>>,
    reliable: bool,
    ct: ContentType,
    stamp: HourStamp,
    a: ArtifactView,
    r: Result<(), ServiceError>,
) -> bool {
    &&& (r is Ok ==> exists|id: Seq<char>|
        post == #[trigger] pre.insert(
            bucket_prefix_chars(ct, stamp) + id + json_suffix(),
            json_of(a),
        ))
    &&& (r is Err ==> post == pre)
    &&& (r matches Err(e) ==> e is StorageFailure)
    &&& (reliable ==> r is Ok)
}

impl<S: ObjectStore, K: KeyValueStore> AppState<S, K> {
    /// Both backends well-formed and a capacity of at least one.
    pub open spec fn wf(&self) -> bool {
        &&& self.capacity >= 1
        &&& self.object_store.inv()
        &&& self.kv_store.inv()
    }

    /// State over the given backends with the default per-bucket capacity.
    pub fn new(object_store: S, kv_store: K) -> (r: AppState<S, K>)
        requires
            object_store.inv(),
            kv_store.inv(),
        ensures
            r.wf(),
            r.object_store == object_store,
            r.kv_store == kv_store,
            r.capacity == MAX_OBJECTS_PER_HOUR,
    {
        AppState { object_store, kv_store, capacity: MAX_OBJECTS_PER_HOUR }
    }

    /// State over the given backends with an explicit per-bucket capacity.
    pub fn with_capacity(object_store: S, kv_store: K, capacity: usize) -> (r: AppState<S, K>)
        requires
            object_store.inv(),
            kv_store.inv(),
            capacity >= 1,
        ensures
            r.wf(),
            r.object_store == object_store,
            r.kv_store == kv_store,
            r.capacity == capacity,
    {
        AppState { object_store, kv_store, capacity }
    }

    /// Serves from the bucket of `content_type` at `stamp`: `None` while the
    /// bucket holds fewer than `capacity` artifacts (the caller should
    /// generate and store one), otherwise one stored artifact picked
    /// uniformly at random. A corrupt stored artifact surfaces as
    /// `SerializationFailure`, never as a miss.
    pub fn get_timed_object_at(&self, content_type: ContentType, stamp: HourStamp) -> (r: Result<
        Option<ReadingContents>,
        ServiceError,
    >)
        requires
            self.wf(),
            stamp.wf(),
        ensures
            lookup_post(
                self.object_store.view(),
                self.object_store.reliable(),
                self.capacity as int,
                content_type,
                stamp,
                r,
            ),
    {
        broadcast use vstd::seq_lib::seq_to_set_is_finite;

        let prefix = format_timed_prefix(content_type, stamp);
        let objects = match self.object_store.list_objects(prefix.as_str()) {
            Ok(v) => v,
            Err(e) => {
                return Err(e);
            },
        };
        let ghost bkt = bucket(self.object_store.view(), content_type, stamp);
        proof {
            stored_keys(objects@).unique_seq_to_set();
            assert(bkt.finite());
            assert(objects@.len() == bkt.len());
        }
        let idx = match choose_cached_index(objects.len(), self.capacity) {
            None => {
                return Ok(None);
            },
            Some(i) => i,
        };
        let key = &objects[idx].key;
        proof {
            assert(stored_keys(objects@)[idx as int] == key@);
            assert(stored_keys(objects@).contains(key@));
            assert(bkt.contains(key@));
            assert(self.object_store.view().contains_key(key@));
        }
        let bytes = match self.object_store.get_object(key.as_str()) {
            Ok(b) => b,
            Err(e) => {
                proof {
                    assert(!(e is NotFound));
                }
                return Err(e);
            },
        };
        match parse_artifact(&bytes) {
            Some(a) => Ok(Some(a)),
            None => Err(ServiceError::SerializationFailure(key.clone())),
        }
    }

    /// Serves from the current UTC hour's bucket, as
    /// [`Self::get_timed_object_at`] does for a given hour.
    pub fn get_timed_object(&self, content_type: ContentType) -> (r: Result<
        Option<ReadingContents>,
        ServiceError,
    >)
        requires
            self.wf(),
        ensures
            exists|stamp: HourStamp|
                stamp.wf() && #[trigger] lookup_post(
                    self.object_store.view(),
                    self.object_store.reliable(),
                    self.capacity as int,
                    content_type,
                    stamp,
                    r,
                ),
    {
        let (year, month, day, hour) = now_utc_parts();
        let stamp = HourStamp::from_parts(year, month, day, hour);
        self.get_timed_object_at(content_type, stamp)
    }

    /// Stores an artifact in the bucket of `content_type` at `stamp`, under
    /// a fresh random identifier, serialized as UTF-8 JSON text. No capacity
    /// check is made: a store always writes, even to a full bucket.
    pub fn store_timed_object_at(
        &mut self,
        object: &ReadingContents,
        content_type: ContentType,
        stamp: HourStamp,
    ) -> (r: Result<(), ServiceError>)
        requires
            old(self).wf(),
            stamp.wf(),
        ensures
            final(self).wf(),
            final(self).capacity == old(self).capacity,
            final(self).kv_store == old(self).kv_store,
            final(self).object_store.reliable() == old(self).object_store.reliable(),
            store_post(
                old(self).object_store.view(),
                final(self).object_store.view(),
                old(self).object_store.reliable(),
                content_type,
                stamp,
                object@,
                r,
            ),
    {
        proof {
            reveal_strlit(".json");
            assert(".json"@ =~= json_suffix());
        }
        let mut key = format_timed_prefix(content_type, stamp);
        let id = fresh_identifier();
        key.append(id.as_str());
        key.append(".json");
        let data = encode_artifact(object);
        match self.object_store.put_object(key.as_str(), data) {
            Ok(()) => {
                proof {
                    assert(key@ =~= bucket_prefix_chars(content_type, stamp) + id@
                        + json_suffix());
                }
                Ok(())
            },
            Err(e) => Err(e),
        }
    }

    /// Stores an artifact in the current UTC hour's bucket, as
    /// [`Self::store_timed_object_at`] does for a given hour.
    pub fn store_timed_object(&mut self, object: &ReadingContents, content_type: ContentType) -> (r:
        Result<(), ServiceError>)
        requires
            old(self).wf(),
        ensures
            final(self).wf(),
            final(self).capacity == old(self).capacity,
            final(self).kv_store == old(self).kv_store,
            final(self).object_store.reliable() == old(self).object_store.reliable(),
            exists|stamp: HourStamp|
                stamp.wf() && #[trigger] store_post(
                    old(self).object_store.view(),
                    final(self).object_store.view(),
                    old(self).object_store.reliable(),
                    content_type,
                    stamp,
                    object@,
                    r,
                ),
    {
        let (year, month, day, hour) = now_utc_parts();
        let stamp = HourStamp::from_parts(year, month, day, hour);
        self.store_timed_object_at(object, content_type, stamp)
    }
}

/// A lookup in an empty bucket of a backend that cannot fail returns `None`:
/// not a failure and not an artifact.
pub proof fn lemma_lookup_empty_bucket(
    m: Map<Seq<char>, Seq<u8>>,
    capacity: int,
    ct: ContentType,
    stamp: HourStamp,
    r: Result<Option<ReadingContents>, ServiceError>,
)
    requires
        lookup_post(m, true, capacity, ct, stamp, r),
        capacity >= 1,
        bucket(m, ct, stamp) =~= Set::<Seq<char>>::empty(),
    ensures
        r matches Ok(None),
{
    assert(bucket(m, ct, stamp).finite());
    assert(bucket(m, ct, stamp).len() == 0);
}

/// A store into the blob store (an insert of any key whatsoever) never
/// shrinks a bucket and grows it by at most one: once a bucket holds `c`
/// keys it keeps at least `c`, and racing writers overshoot the capacity by
/// at most one entry each.
pub proof fn lemma_bucket_count_monotone(
    m: Map<Seq<char>, Seq<u8>>,
    k: Seq<char>,
    v: Seq<u8>,
    ct: ContentType,
    stamp: HourStamp,
)
    requires
        bucket(m, ct, stamp).finite(),
    ensures
        bucket(m.insert(k, v), ct, stamp).finite(),
        bucket(m.insert(k, v), ct, stamp).len() >= bucket(m, ct, stamp).len(),
        bucket(m.insert(k, v), ct, stamp).len() <= bucket(m, ct, stamp).len() + 1,
{
    let b1 = bucket(m, ct, stamp);
    let b2 = bucket(m.insert(k, v), ct, stamp);
    assert(b2.subset_of(b1.insert(k)));
    vstd::set_lib::lemma_len_subset(b2, b1.insert(k));
    assert(b1.insert(k).len() <= b1.len() + 1);
    assert(b1.subset_of(b2));
    vstd::set_lib::lemma_len_subset(b1, b2);
}

/// The documented lookup race: two callers that read the same bucket while
/// it sits below capacity both see a miss, so both may go on to generate
/// and store. The overshoot is bounded: each racing store adds at most one
/// entry beyond the capacity (see [`lemma_bucket_count_monotone`]); nothing
/// here can make a bucket shrink or a lookup fail on that account.
pub proof fn lemma_racing_lookups_both_miss(
    m: Map<Seq<char>, Seq<u8>>,
    capacity: int,
    ct: ContentType,
    stamp: HourStamp,
    r1: Result<Option<ReadingContents>, ServiceError>,
    r2: Result<Option<ReadingContents>, ServiceError>,
)
    requires
        lookup_post(m, true, capacity, ct, stamp, r1),
        lookup_post(m, true, capacity, ct, stamp, r2),
        bucket(m, ct, stamp).finite(),
        bucket(m, ct, stamp).len() < capacity,
    ensures
        r1 matches Ok(None),
        r2 matches Ok(None),
{
}

/// With the bucket at or above capacity and every stored entry in it
/// well-formed, a lookup on a backend that cannot fail returns an artifact
/// parsed from some entry of that bucket: never `None`, never a failure.
pub proof fn lemma_lookup_full_bucket(
    m: Map<Seq<char>, Seq<u8>>,
    capacity: int,
    ct: ContentType,
    stamp: HourStamp,
    r: Result<Option<ReadingContents>, ServiceError>,
)
    requires
        lookup_post(m, true, capacity, ct, stamp, r),
        bucket(m, ct, stamp).finite(),
        bucket(m, ct, stamp).len() >= capacity,
        forall|k: Seq<char>| #[trigger]
            bucket(m, ct, stamp).contains(k) ==> spec_parse_artifact(m[k]) is Some,
    ensures
        r matches Ok(Some(a)) && exists|k: Seq<char>| #[trigger]
            bucket(m, ct, stamp).contains(k) && spec_parse_artifact(m[k]) == Some(a@),
{
}

/// Bucket isolation: a key in the bucket of one category and hour lies in no
/// bucket of another category or hour.
pub proof fn lemma_bucket_isolation(
    ct1: ContentType,
    h1: HourStamp,
    ct2: ContentType,
    h2: HourStamp,
    key: Seq<char>,
)
    requires
        h1.wf(),
        h2.wf(),
        ct1 != ct2 || h1 != h2,
        bucket_prefix_chars(ct1, h1).is_prefix_of(key),
    ensures
        !bucket_prefix_chars(ct2, h2).is_prefix_of(key),
{
    let p1 = bucket_prefix_chars(ct1, h1);
    let p2 = bucket_prefix_chars(ct2, h2);
    assert(ct1 == ct2);
    assert(p1.len() == 22 && p2.len() == 22);
    if p2.is_prefix_of(key) {
        assert(p1 =~= key.subrange(0, 22));
        assert(p2 =~= key.subrange(0, 22));
        assert(stamp_chars(h1) =~= p1.subrange(8, 21));
        assert(stamp_chars(h2) =~= p2.subrange(8, 21));
        lemma_stamp_chars_injective(h1, h2);
    }
}

/// Round trip through the cache: after a successful store of an artifact,
/// its bucket holds an entry whose bytes parse back to exactly that
/// artifact.
pub proof fn lemma_store_then_fetch(
    pre: Map<Seq<char>, Seq<u8>>,
    post: Map<Seq<char>, Seq<u8>>,
    reliable: bool,
    ct: ContentType,
    stamp: HourStamp,
    a: ArtifactView,
    r: Result<(), ServiceError>,
)
    requires
        store_post(pre, post, reliable, ct, stamp, a, r),
        r is Ok,
    ensures
        exists|k: Seq<char>| #[trigger]
            bucket(post, ct, stamp).contains(k) && spec_parse_artifact(post[k]) == Some(a),
{
    let id = choose|id: Seq<char>|
        post == #[trigger] pre.insert(
            bucket_prefix_chars(ct, stamp) + id + json_suffix(),
            json_of(a),
        );
    let key = bucket_prefix_chars(ct, stamp) + id + json_suffix();
    assert(bucket_prefix_chars(ct, stamp).is_prefix_of(key)) by {
        assert(key.subrange(0, bucket_prefix_chars(ct, stamp).len() as int) =~= bucket_prefix_chars(
            ct,
            stamp,
        ));
    }
    assert(post.contains_key(key));
    assert(bucket(post, ct, stamp).contains(key));
    crate::reading::lemma_artifact_round_trip(a);
    assert(spec_parse_artifact(post[key]) == Some(a));
}

/// A store keeps every bucket well-formed: the bytes it writes parse back,
/// and every other entry is left alone. With the count monotone as well,
/// once a bucket reaches the capacity with well-formed entries, every later
/// lookup on a backend that cannot fail keeps returning artifacts.
pub proof fn lemma_store_preserves_parsable(
    pre: Map<Seq<char>, Seq<u8>>,
    post: Map<Seq<char>, Seq<u8>>,
    reliable: bool,
    ct: ContentType,
    stamp: HourStamp,
    a: ArtifactView,
    r: Result<(), ServiceError>,
    ct2: ContentType,
    h2: HourStamp,
)
    requires
        store_post(pre, post, reliable, ct, stamp, a, r),
        forall|k: Seq<char>| #[trigger]
            bucket(pre, ct2, h2).contains(k) ==> spec_parse_artifact(pre[k]) is Some,
    ensures
        forall|k: Seq<char>| #[trigger]
            bucket(post, ct2, h2).contains(k) ==> spec_parse_artifact(post[k]) is Some,
{
    if r is Ok {
        let id = choose|id: Seq<char>|
            post == #[trigger] pre.insert(
                bucket_prefix_chars(ct, stamp) + id + json_suffix(),
                json_of(a),
            );
        let key = bucket_prefix_chars(ct, stamp) + id + json_suffix();
        crate::reading::lemma_artifact_round_trip(a);
        assert forall|k: Seq<char>| #[trigger]
            bucket(post, ct2, h2).contains(k) implies spec_parse_artifact(post[k]) is Some by {
            if k == key {
                assert(post[k] == json_of(a));
            } else {
                assert(bucket(pre, ct2, h2).contains(k));
            }
        }
    }
}

} // verus!

