//! A bounded least-recently-used cache of open read-only segment handles,
//! keyed by segment id.
use std::num::NonZeroUsize;
use std::sync::Arc;
use vstd::prelude::*;

verus! {

#[verifier::external_type_specification]
#[verifier::external_body]
#[verifier::reject_recursive_types(K)]
#[verifier::reject_recursive_types(V)]
#[verifier::reject_recursive_types(S)]
pub struct ExLruCache<K, V, S>(lru::LruCache<K, V, S>);

#[verifier::external_type_specification]
#[verifier::external_body]
pub struct ExFile(tokio::fs::File);

/// The segment ids that a cache holds, least recently used first.
pub uninterp spec fn cached_ids(c: lru::LruCache<u64, Arc<tokio::fs::File>>) -> Seq<u64>;

/// The capacity that a cache was made with.
pub uninterp spec fn cache_capacity(c: lru::LruCache<u64, Arc<tokio::fs::File>>) -> nat;

/// `ids` with `id` taken out and put last, as most recently used.
pub open spec fn touch(ids: Seq<u64>, id: u64) -> Seq<u64> {
    ids.remove(ids.index_of(id)).push(id)
}

/// Relies on lru::LruCache::new: an empty cache that holds at most `cap` items.
#[verifier::external_body]
fn lru_new(cap: usize) -> (r: lru::LruCache<u64, Arc<tokio::fs::File>>)
    requires
        cap > 0,
    ensures
        cached_ids(r) == Seq::<u64>::empty(),
        cache_capacity(r) == cap,
{
    lru::LruCache::new(NonZeroUsize::new(cap).unwrap())
}

/// Relies on lru::LruCache::get: a hit returns the value and makes the key the
/// most recently used; a miss changes nothing.
#[verifier::external_body]
fn lru_get(c: &mut lru::LruCache<u64, Arc<tokio::fs::File>>, id: u64) -> (r: Option<
    Arc<tokio::fs::File>,
>)
    ensures
        cache_capacity(*final(c)) == cache_capacity(*old(c)),
        r is Some == cached_ids(*old(c)).contains(id),
        cached_ids(*old(c)).contains(id) ==> cached_ids(*final(c)) == touch(
            cached_ids(*old(c)),
            id,
        ),
        !cached_ids(*old(c)).contains(id) ==> cached_ids(*final(c)) == cached_ids(*old(c)),
{
    c.get(&id).cloned()
}

/// Relies on lru::LruCache::put: a present key gets the new value and becomes
/// the most recently used; a new key is added as the most recently used, after
/// the least recently used entry is evicted when the cache is full.
#[verifier::external_body]
fn lru_put(c: &mut lru::LruCache<u64, Arc<tokio::fs::File>>, id: u64, file: Arc<tokio::fs::File>)
    ensures
        cache_capacity(*final(c)) == cache_capacity(*old(c)),
        cached_ids(*old(c)).contains(id) ==> cached_ids(*final(c)) == touch(
            cached_ids(*old(c)),
            id,
        ),
        !cached_ids(*old(c)).contains(id) && cached_ids(*old(c)).len() == cache_capacity(*old(c))
            ==> cached_ids(*final(c)) == cached_ids(*old(c)).drop_first().push(id),
        !cached_ids(*old(c)).contains(id) && cached_ids(*old(c)).len() != cache_capacity(*old(c))
            ==> cached_ids(*final(c)) == cached_ids(*old(c)).push(id),
{
    c.put(id, file);
}

/// Capacity used when zero is asked for.
pub const MIN_CAPACITY: usize = 10;

pub struct FileCache {
    inner: lru::LruCache<u64, Arc<tokio::fs::File>>,
}

impl FileCache {
    /// The ids held, least recently used first.
    pub closed spec fn ids(&self) -> Seq<u64> {
        cached_ids(self.inner)
    }

    pub closed spec fn capacity(&self) -> nat {
        cache_capacity(self.inner)
    }

    /// Each id once, and no more of them than the capacity.
    pub open spec fn wf(&self) -> bool {
        &&& self.ids().no_duplicates()
        &&& self.ids().len() <= self.capacity()
        &&& self.capacity() > 0
    }

    /// An empty cache of `capacity` handles, or of `MIN_CAPACITY` when zero is
    /// asked for.
    pub fn new(capacity: usize) -> (r: FileCache)
        ensures
            r.wf(),
            r.ids() == Seq::<u64>::empty(),
            r.capacity() == (if capacity == 0 {
                MIN_CAPACITY
            } else {
                capacity
            }),
    {
        let capacity = if capacity == 0 {
            MIN_CAPACITY
        } else {
            capacity
        };
        FileCache { inner: lru_new(capacity) }
    }

    /// The handle of segment `file_id`, if cached; a hit makes it the most
    /// recently used.
    pub fn get(&mut self, file_id: u64) -> (r: Option<Arc<tokio::fs::File>>)
        requires
            old(self).wf(),
        ensures
            final(self).wf(),
            final(self).capacity() == old(self).capacity(),
            r is Some == old(self).ids().contains(file_id),
            old(self).ids().contains(file_id) ==> final(self).ids() == touch(
                old(self).ids(),
                file_id,
            ),
            !old(self).ids().contains(file_id) ==> final(self).ids() == old(self).ids(),
    {
        let r = lru_get(&mut self.inner, file_id);
        proof {
            if old(self).ids().contains(file_id) {
                lemma_touch(old(self).ids(), file_id);
            }
        }
        r
    }

    /// Caches the handle of segment `file_id` as the most recently used,
    /// evicting the least recently used one when the cache is full.
    pub fn insert(&mut self, file_id: u64, file: tokio::fs::File)
        requires
            old(self).wf(),
        ensures
            final(self).wf(),
            final(self).capacity() == old(self).capacity(),
            final(self).ids().last() == file_id,
            old(self).ids().contains(file_id) ==> final(self).ids() == touch(
                old(self).ids(),
                file_id,
            ),
            !old(self).ids().contains(file_id) && old(self).ids().len() == old(self).capacity()
                ==> final(self).ids() == old(self).ids().drop_first().push(file_id),
            !old(self).ids().contains(file_id) && old(self).ids().len() < old(self).capacity()
                ==> final(self).ids() == old(self).ids().push(file_id),
    {
        lru_put(&mut self.inner, file_id, Arc::new(file));
        proof {
            let ids = old(self).ids();
            if ids.contains(file_id) {
                lemma_touch(ids, file_id);
            } else if ids.len() == old(self).capacity() {
                let d = ids.drop_first();
                assert forall|i: int, j: int|
                    0 <= i < j < d.push(file_id).len() implies d.push(file_id)[i] != d.push(
                    file_id,
                )[j] by {
                    if j == d.len() {
                        assert(d[i] == ids[i + 1]);
                    } else {
                        assert(d[i] == ids[i + 1] && d[j] == ids[j + 1]);
                    }
                }
            } else {
                assert forall|i: int, j: int|
                    0 <= i < j < ids.push(file_id).len() implies ids.push(file_id)[i] != ids.push(
                    file_id,
                )[j] by {
                    if j == ids.len() {
                        assert(ids.contains(ids[i]));
                    }
                }
            }
        }
    }
}

proof fn lemma_touch(ids: Seq<u64>, id: u64)
    requires
        ids.no_duplicates(),
        ids.contains(id),
    ensures
        touch(ids, id).no_duplicates(),
        touch(ids, id).len() == ids.len(),
        touch(ids, id).last() == id,
{
    let k = ids.index_of(id);
    assert(0 <= k < ids.len() && ids[k] == id);
    let r = ids.remove(k);
    ids.remove_ensures(k);
    assert forall|i: int| 0 <= i < r.len() implies #[trigger] r[i] != id by {
        if i < k {
            assert(r[i] == ids[i]);
        } else {
            assert(r[i] == ids[i + 1]);
        }
    }
    assert forall|i: int, j: int| 0 <= i < j < r.push(id).len() implies r.push(id)[i] != r.push(
        id,
    )[j] by {
        if j == r.len() {
            assert(r[i] != id);
        } else {
            let a = if i < k { i } else { i + 1 };
            let b = if j < k { j } else { j + 1 };
            assert(r[i] == ids[a] && r[j] == ids[b]);
        }
    }
}

} // verus!
