//! The caches of the file system: open images, raw sectors and VCD headers, each in an
//! `lru::LruCache`.
//!
//! The contents of a cache are the sequence of its entries from the least to the most
//! recently used.

use lru::LruCache;
use std::num::NonZeroUsize;
use std::sync::Arc;
use vstd::prelude::*;
use crate::track::TrackInfo;
use crate::vcd::{build_vcd_header, header_fits, vcd_header, VCD_HEADER_SIZE};

verus! {

/// Size of a raw CD sector, which is what the sector cache holds.
pub const CD_FRAME_2352: usize = 2352;

/// `i` is the place of the entry with key `k`.
pub open spec fn lru_at<K, V>(s: Seq<(K, V)>, k: K, i: int) -> bool {
    0 <= i < s.len() && s[i].0 == k
}

/// There is an entry with key `k`.
pub open spec fn lru_has<K, V>(s: Seq<(K, V)>, k: K) -> bool {
    exists|i: int| lru_at(s, k, i)
}

/// The place of the entry with key `k`.
pub open spec fn lru_index<K, V>(s: Seq<(K, V)>, k: K) -> int {
    choose|i: int| lru_at(s, k, i)
}

/// The value of the entry with key `k`.
pub open spec fn lru_value<K, V>(s: Seq<(K, V)>, k: K) -> V {
    s[lru_index(s, k)].1
}

/// The entries after a lookup of `k`: the entry found is now the most recent.
pub open spec fn lru_touch<K, V>(s: Seq<(K, V)>, k: K) -> Seq<(K, V)> {
    if lru_has(s, k) {
        s.remove(lru_index(s, k)).push((k, lru_value(s, k)))
    } else {
        s
    }
}

/// The entries after `k` is given the value `v` in a cache of `cap` entries: an entry
/// with that key is replaced; else, where the cache is full, the least recent entry
/// leaves.  The new entry is the most recent.
pub open spec fn lru_put<K, V>(s: Seq<(K, V)>, cap: int, k: K, v: V) -> Seq<(K, V)> {
    if lru_has(s, k) {
        s.remove(lru_index(s, k)).push((k, v))
    } else if s.len() == cap {
        s.skip(1).push((k, v))
    } else {
        s.push((k, v))
    }
}

/// The entry that leaves when `k` is given a value in a cache of `cap` entries.
pub open spec fn lru_displaced<K, V>(s: Seq<(K, V)>, cap: int, k: K) -> Option<(K, V)> {
    if lru_has(s, k) {
        Some((k, lru_value(s, k)))
    } else if s.len() == cap {
        Some(s[0])
    } else {
        None
    }
}

/// No two entries have the same key.
pub open spec fn lru_distinct<K, V>(s: Seq<(K, V)>) -> bool {
    forall|i: int, j: int|
        0 <= i < j < s.len() ==> (#[trigger] s[i]).0 != (#[trigger] s[j]).0
}

/// The entries fit a cache of `cap` entries: keys are distinct, and there are not more.
pub open spec fn lru_fits<K, V>(s: Seq<(K, V)>, cap: int) -> bool {
    lru_distinct(s) && 0 < cap && s.len() <= cap
}

/// The entry with key `k` is where it is.
pub proof fn lemma_lru_index<K, V>(s: Seq<(K, V)>, k: K, i: int)
    requires
        lru_distinct(s),
        lru_at(s, k, i),
    ensures
        lru_has(s, k),
        lru_index(s, k) == i,
        lru_value(s, k) == s[i].1,
{
    let j = lru_index(s, k);
    assert(lru_at(s, k, j));
    if i < j {
        assert(s[i].0 != s[j].0);
    } else if j < i {
        assert(s[j].0 != s[i].0);
    }
}

proof fn lemma_lru_remove<K, V>(s: Seq<(K, V)>, k: K)
    requires
        lru_distinct(s),
        lru_has(s, k),
    ensures
        lru_distinct(s.remove(lru_index(s, k))),
        !lru_has(s.remove(lru_index(s, k)), k),
        s.remove(lru_index(s, k)).len() == s.len() - 1,
        forall|e: (K, V)| #[trigger] s.remove(lru_index(s, k)).contains(e) ==> s.contains(e),
{
    let i = lru_index(s, k);
    assert(lru_at(s, k, i));
    let t = s.remove(i);
    assert forall|a: int, b: int| 0 <= a < b < t.len() implies (#[trigger] t[a]).0 != (
    #[trigger] t[b]).0 by {
        let a0 = if a < i { a } else { a + 1 };
        let b0 = if b < i { b } else { b + 1 };
        assert(t[a] == s[a0] && t[b] == s[b0]);
    }
    if lru_has(t, k) {
        let j = lru_index(t, k);
        assert(lru_at(t, k, j));
        let j0 = if j < i { j } else { j + 1 };
        assert(t[j] == s[j0]);
        if j0 < i {
            assert(s[j0].0 != s[i].0);
        } else {
            assert(s[i].0 != s[j0].0);
        }
    }
    assert forall|e: (K, V)| t.contains(e) implies s.contains(e) by {
        let j = choose|j: int| 0 <= j < t.len() && t[j] == e;
        let j0 = if j < i { j } else { j + 1 };
        assert(s[j0] == e);
    }
}

proof fn lemma_lru_push<K, V>(s: Seq<(K, V)>, k: K, v: V)
    requires
        lru_distinct(s),
        !lru_has(s, k),
    ensures
        lru_distinct(s.push((k, v))),
        lru_has(s.push((k, v)), k),
        lru_value(s.push((k, v)), k) == v,
        forall|e: (K, V)| #[trigger] s.push((k, v)).contains(e) ==> e == (k, v) || s.contains(e),
{
    let t = s.push((k, v));
    assert forall|a: int, b: int| 0 <= a < b < t.len() implies (#[trigger] t[a]).0 != (
    #[trigger] t[b]).0 by {
        if b == s.len() {
            assert(!lru_at(s, k, a));
        }
    }
    lemma_lru_index(t, k, s.len() as int);
    assert forall|e: (K, V)| t.contains(e) implies e == (k, v) || s.contains(e) by {
        let j = choose|j: int| 0 <= j < t.len() && t[j] == e;
        if j < s.len() {
            assert(s[j] == e);
        }
    }
}

/// A lookup keeps the entries: their keys stay distinct, their number and each value
/// the same.
pub proof fn lemma_lru_touch<K, V>(s: Seq<(K, V)>, k: K)
    requires
        lru_distinct(s),
    ensures
        lru_distinct(lru_touch(s, k)),
        lru_touch(s, k).len() == s.len(),
        forall|e: (K, V)| #[trigger] lru_touch(s, k).contains(e) ==> s.contains(e),
{
    if lru_has(s, k) {
        let i = lru_index(s, k);
        assert(lru_at(s, k, i));
        lemma_lru_remove(s, k);
        lemma_lru_push(s.remove(i), k, lru_value(s, k));
        assert(s[i] == (k, lru_value(s, k)));
    }
}

/// Putting an entry keeps the keys distinct and the number within the capacity; what is
/// there afterwards is the new entry or was there before.
pub proof fn lemma_lru_put<K, V>(s: Seq<(K, V)>, cap: int, k: K, v: V)
    requires
        lru_fits(s, cap),
    ensures
        lru_distinct(lru_put(s, cap, k, v)),
        0 < lru_put(s, cap, k, v).len() <= cap,
        lru_put(s, cap, k, v).len() <= s.len() + 1,
        lru_has(lru_put(s, cap, k, v), k),
        lru_value(lru_put(s, cap, k, v), k) == v,
        forall|e: (K, V)| #[trigger]
            lru_put(s, cap, k, v).contains(e) ==> e == (k, v) || s.contains(e),
{
    if lru_has(s, k) {
        lemma_lru_remove(s, k);
        lemma_lru_push(s.remove(lru_index(s, k)), k, v);
    } else if s.len() == cap {
        let t = s.skip(1);
        assert forall|a: int, b: int| 0 <= a < b < t.len() implies (#[trigger] t[a]).0 != (
        #[trigger] t[b]).0 by {
            assert(t[a] == s[a + 1] && t[b] == s[b + 1]);
        }
        if lru_has(t, k) {
            let j = lru_index(t, k);
            assert(lru_at(t, k, j));
            assert(lru_at(s, k, j + 1));
        }
        lemma_lru_push(t, k, v);
        assert forall|e: (K, V)| t.contains(e) implies s.contains(e) by {
            let j = choose|j: int| 0 <= j < t.len() && t[j] == e;
            assert(s[j + 1] == e);
        }
    } else {
        lemma_lru_push(s, k, v);
    }
}

/// The cache of the `lru` crate.
#[verifier::external_type_specification]
#[verifier::external_body]
#[verifier::reject_recursive_types(K)]
#[verifier::reject_recursive_types(V)]
#[verifier::reject_recursive_types(H)]
pub struct ExLruCache<K, V, H>(LruCache<K, V, H>);

/// The hasher that the caches use.
#[verifier::external_type_specification]
#[verifier::external_body]
pub struct ExDefaultHasher(lru::DefaultHasher);

/// What a sector cache holds, least recently used first: file and sector number, and the
/// sector's bytes.
pub uninterp spec fn frame_entries(c: LruCache<(u64, u64), Vec<u8>>) -> Seq<
    ((u64, u64), Seq<u8>),
>;

/// The number of entries that a sector cache was made for.
pub uninterp spec fn frame_capacity(c: LruCache<(u64, u64), Vec<u8>>) -> nat;

/// What a header cache holds, least recently used first: file, and the header's bytes.
pub uninterp spec fn header_entries(c: LruCache<u64, Arc<Vec<u8>>>) -> Seq<(u64, Seq<u8>)>;

/// The number of entries that a header cache was made for.
pub uninterp spec fn header_capacity(c: LruCache<u64, Arc<Vec<u8>>>) -> nat;

/// What a table of open images holds, least recently used first: file, and the slot of
/// its open image.
pub uninterp spec fn slot_entries(c: LruCache<u64, u64>) -> Seq<(u64, u64)>;

/// The number of entries that a table of open images was made for.
pub uninterp spec fn slot_capacity(c: LruCache<u64, u64>) -> nat;

/// `LruCache::new` for sectors: an empty cache of the given capacity.  It reserves room
/// for that many entries at once and panics where the room cannot be expressed, hence
/// the bound.
#[verifier::external_body]
fn frames_new(cap: usize) -> (r: LruCache<(u64, u64), Vec<u8>>)
    requires
        0 < cap <= usize::MAX / 128,
    ensures
        frame_entries(r) == Seq::<((u64, u64), Seq<u8>)>::empty(),
        frame_capacity(r) == cap,
{
    LruCache::new(NonZeroUsize::new(cap).unwrap())
}

/// `LruCache::get` for sectors: the value of the key, whose entry becomes the most
/// recent; nothing changes where the key is absent.
#[verifier::external_body]
fn frames_get(c: &mut LruCache<(u64, u64), Vec<u8>>, k: (u64, u64)) -> (r: Option<&Vec<u8>>)
    ensures
        r is Some <==> lru_has(frame_entries(*old(c)), k),
        r is Some ==> r->0@ == lru_value(frame_entries(*old(c)), k),
        frame_entries(*final(c)) == lru_touch(frame_entries(*old(c)), k),
        frame_capacity(*final(c)) == frame_capacity(*old(c)),
{
    c.get(&k)
}

/// `LruCache::put` for sectors: the key gets the value, in the place of an older value or
/// of the least recent entry of a full cache.  The older value comes back.
#[verifier::external_body]
fn frames_put(c: &mut LruCache<(u64, u64), Vec<u8>>, k: (u64, u64), v: Vec<u8>) -> (r: Option<
    Vec<u8>,
>)
    ensures
        r is Some <==> lru_has(frame_entries(*old(c)), k),
        r is Some ==> r->0@ == lru_value(frame_entries(*old(c)), k),
        frame_entries(*final(c)) == lru_put(
            frame_entries(*old(c)),
            frame_capacity(*old(c)) as int,
            k,
            v@,
        ),
        frame_capacity(*final(c)) == frame_capacity(*old(c)),
{
    c.put(k, v)
}

/// `LruCache::pop_lru` for sectors: the least recent entry leaves and comes back; there
/// is none exactly where the cache is empty.
#[verifier::external_body]
fn frames_pop_lru(c: &mut LruCache<(u64, u64), Vec<u8>>) -> (r: Option<((u64, u64), Vec<u8>)>)
    ensures
        r is Some <==> frame_entries(*old(c)).len() > 0,
        r is Some ==> r.unwrap().0 == frame_entries(*old(c))[0].0,
        r is Some ==> r.unwrap().1@ == frame_entries(*old(c))[0].1,
        r is Some ==> frame_entries(*final(c)) == frame_entries(*old(c)).skip(1),
        r is None ==> frame_entries(*final(c)) == frame_entries(*old(c)),
        frame_capacity(*final(c)) == frame_capacity(*old(c)),
{
    c.pop_lru()
}

/// `LruCache::new` for headers: an empty cache of the given capacity, bounded as that of
/// the sector cache.
#[verifier::external_body]
fn headers_new(cap: usize) -> (r: LruCache<u64, Arc<Vec<u8>>>)
    requires
        0 < cap <= usize::MAX / 128,
    ensures
        header_entries(r) == Seq::<(u64, Seq<u8>)>::empty(),
        header_capacity(r) == cap,
{
    LruCache::new(NonZeroUsize::new(cap).unwrap())
}

/// `LruCache::get` for headers: the value of the key, whose entry becomes the most
/// recent; nothing changes where the key is absent.
#[verifier::external_body]
fn headers_get(c: &mut LruCache<u64, Arc<Vec<u8>>>, k: u64) -> (r: Option<&Arc<Vec<u8>>>)
    ensures
        r is Some <==> lru_has(header_entries(*old(c)), k),
        r is Some ==> r->0@ == lru_value(header_entries(*old(c)), k),
        header_entries(*final(c)) == lru_touch(header_entries(*old(c)), k),
        header_capacity(*final(c)) == header_capacity(*old(c)),
{
    c.get(&k)
}

/// `LruCache::contains` for headers: whether there is an entry with the key.  The order of
/// the entries stays.
#[verifier::external_body]
fn headers_contains(c: &LruCache<u64, Arc<Vec<u8>>>, k: u64) -> (r: bool)
    ensures
        r == lru_has(header_entries(*c), k),
{
    c.contains(&k)
}

/// `LruCache::put` for headers: the key gets the value, in the place of an older value or
/// of the least recent entry of a full cache.  The older value comes back.
#[verifier::external_body]
fn headers_put(c: &mut LruCache<u64, Arc<Vec<u8>>>, k: u64, v: Arc<Vec<u8>>) -> (r: Option<
    Arc<Vec<u8>>,
>)
    ensures
        r is Some <==> lru_has(header_entries(*old(c)), k),
        r is Some ==> r->0@ == lru_value(header_entries(*old(c)), k),
        header_entries(*final(c)) == lru_put(
            header_entries(*old(c)),
            header_capacity(*old(c)) as int,
            k,
            v@,
        ),
        header_capacity(*final(c)) == header_capacity(*old(c)),
{
    c.put(k, v)
}

/// `LruCache::new` for open images: an empty table of the given capacity, bounded as that
/// of the sector cache.
#[verifier::external_body]
fn slots_new(cap: usize) -> (r: LruCache<u64, u64>)
    requires
        0 < cap <= usize::MAX / 128,
    ensures
        slot_entries(r) == Seq::<(u64, u64)>::empty(),
        slot_capacity(r) == cap,
{
    LruCache::new(NonZeroUsize::new(cap).unwrap())
}

/// `LruCache::get` for open images: the value of the key, whose entry becomes the most
/// recent; nothing changes where the key is absent.
#[verifier::external_body]
fn slots_get(c: &mut LruCache<u64, u64>, k: u64) -> (r: Option<&u64>)
    ensures
        r is Some <==> lru_has(slot_entries(*old(c)), k),
        r is Some ==> *r->0 == lru_value(slot_entries(*old(c)), k),
        slot_entries(*final(c)) == lru_touch(slot_entries(*old(c)), k),
        slot_capacity(*final(c)) == slot_capacity(*old(c)),
{
    c.get(&k)
}

/// `LruCache::push` for open images: `put`, but the entry that leaves comes back, be it
/// the key's older one or the least recent one of a full table.
#[verifier::external_body]
fn slots_push(c: &mut LruCache<u64, u64>, k: u64, v: u64) -> (r: Option<(u64, u64)>)
    ensures
        r == lru_displaced(slot_entries(*old(c)), slot_capacity(*old(c)) as int, k),
        slot_entries(*final(c)) == lru_put(
            slot_entries(*old(c)),
            slot_capacity(*old(c)) as int,
            k,
            v,
        ),
        slot_capacity(*final(c)) == slot_capacity(*old(c)),
{
    c.push(k, v)
}

/// `Arc::clone`: another handle on the same value.
#[verifier::external_body]
fn share(header: &Arc<Vec<u8>>) -> (r: Arc<Vec<u8>>)
    ensures
        r@ == header@,
{
    Arc::clone(header)
}

/// The entries and the byte count after the least recent entries have left one by one,
/// until the count is within the limit or nothing is left.
pub open spec fn evict<K>(s: Seq<(K, Seq<u8>)>, bytes: int, limit: int) -> (
    Seq<(K, Seq<u8>)>,
    int,
)
    decreases s.len(),
{
    if bytes > limit && s.len() > 0 {
        let n = s[0].1.len();
        evict(
            s.skip(1),
            if bytes >= n {
                bytes - n
            } else {
                0
            },
            limit,
        )
    } else {
        (s, bytes)
    }
}

/// The mathematical reading of a sector cache.
pub struct CacheModel {
    /// The sectors held, least recently used first.
    pub entries: Seq<((u64, u64), Seq<u8>)>,
    /// The most sectors that are held.
    pub capacity: int,
    /// The byte count.
    pub bytes: int,
    /// The limit on the byte count.
    pub limit: int,
}

impl CacheModel {
    /// Keys are distinct, the number of sectors is within the capacity, each is of full
    /// size, the byte count covers them, and it exceeds the limit by no more than a
    /// sector, and only while there is just one.
    pub open spec fn wf(self) -> bool {
        &&& lru_fits(self.entries, self.capacity)
        &&& forall|i: int|
            0 <= i < self.entries.len() ==> (#[trigger] self.entries[i]).1.len() == CD_FRAME_2352
        &&& 0 <= CD_FRAME_2352 * self.entries.len() <= self.bytes
        &&& self.bytes <= self.limit + CD_FRAME_2352
        &&& self.bytes > self.limit ==> self.entries.len() == 1
        &&& self.bytes <= usize::MAX
        &&& 0 <= self.limit <= usize::MAX
    }

    /// The byte count has room for one more sector.
    pub open spec fn has_room(self) -> bool {
        self.bytes + CD_FRAME_2352 <= usize::MAX
    }

    /// The cache after a lookup.
    pub open spec fn touch(self, k: (u64, u64)) -> CacheModel {
        CacheModel { entries: lru_touch(self.entries, k), ..self }
    }

    /// The cache after a sector is put in: its bytes are counted, the least recent sectors
    /// leave until the count is within the limit or none is left, and then it enters.
    pub open spec fn put(self, k: (u64, u64), frame: Seq<u8>) -> CacheModel {
        let (kept, bytes) = evict(self.entries, self.bytes + frame.len(), self.limit);
        CacheModel { entries: lru_put(kept, self.capacity, k, frame), bytes, ..self }
    }
}

/// The cache of raw sectors, across all files.
///
/// It is bounded twice: by a number of entries, and by a count of bytes.  The count
/// grows with each sector that is put in and shrinks with each that is evicted for its
/// sake; sectors that leave because the cache is full are not subtracted, so the count
/// is at least what the cache holds.
pub struct FrameCache {
    entries: LruCache<(u64, u64), Vec<u8>>,
    approx_bytes: usize,
    limit_bytes: usize,
}

impl View for FrameCache {
    type V = CacheModel;

    closed spec fn view(&self) -> CacheModel {
        CacheModel {
            entries: frame_entries(self.entries),
            capacity: frame_capacity(self.entries) as int,
            bytes: self.approx_bytes as int,
            limit: self.limit_bytes as int,
        }
    }
}

impl FrameCache {
    /// An empty cache with the given bounds.
    pub fn new(capacity: usize, limit_bytes: usize) -> (r: FrameCache)
        requires
            0 < capacity <= usize::MAX / 128,
        ensures
            r@.wf(),
            r@ == (CacheModel {
                entries: Seq::empty(),
                capacity: capacity as int,
                bytes: 0,
                limit: limit_bytes as int,
            }),
    {
        FrameCache { entries: frames_new(capacity), approx_bytes: 0, limit_bytes }
    }

    /// Whether the byte count has room for one more sector.
    pub fn can_store(&self) -> (r: bool)
        ensures
            r == self@.has_room(),
    {
        self.approx_bytes <= usize::MAX - CD_FRAME_2352
    }

    /// The cached sector, which becomes the most recently used, if it is there.
    pub fn get(&mut self, file_id: u64, frame_index: u64) -> (r: Option<Vec<u8>>)
        requires
            old(self)@.wf(),
        ensures
            final(self)@.wf(),
            r is Some <==> lru_has(old(self)@.entries, (file_id, frame_index)),
            r is Some ==> r->0@ == lru_value(old(self)@.entries, (file_id, frame_index))
                && r->0@.len() == CD_FRAME_2352,
            final(self)@ == old(self)@.touch((file_id, frame_index)),
    {
        let ghost before = self@.entries;
        let k: (u64, u64) = (file_id, frame_index);
        proof {
            lemma_touch_wf(self@, k);
            if lru_has(before, k) {
                assert(lru_at(before, k, lru_index(before, k)));
            }
        }
        let r: Option<Vec<u8>> = match frames_get(&mut self.entries, k) {
            Some(frame) => Some(frame.clone()),
            None => None,
        };
        r
    }

    /// Put a sector into the cache.  Its bytes are counted first, then the least recent
    /// sectors leave until the count is within the limit or none is left.
    pub fn put(&mut self, file_id: u64, frame_index: u64, frame: Vec<u8>)
        requires
            old(self)@.wf(),
            old(self)@.has_room(),
            frame@.len() == CD_FRAME_2352,
        ensures
            final(self)@.wf(),
            final(self)@ == old(self)@.put((file_id, frame_index), frame@),
    {
        let ghost start = self@;
        let ghost counted = self.approx_bytes + CD_FRAME_2352;
        self.approx_bytes = self.approx_bytes + frame.len();
        let mut more: bool = true;
        while more && self.approx_bytes > self.limit_bytes
            invariant
                lru_distinct(self@.entries),
                0 < self@.capacity,
                self@.entries.len() <= self@.capacity,
                forall|i: int|
                    0 <= i < self@.entries.len() ==> (#[trigger] self@.entries[i]).1.len()
                        == CD_FRAME_2352,
                CD_FRAME_2352 * (self@.entries.len() + 1) <= self.approx_bytes,
                self.approx_bytes <= start.limit + 2 * CD_FRAME_2352,
                self.approx_bytes > start.limit + CD_FRAME_2352 ==> self@.entries.len() > 0,
                more || self@.entries.len() == 0,
                start == old(self)@,
                self@.limit == start.limit,
                self@.capacity == start.capacity,
                evict(start.entries, counted, start.limit) == evict(
                    self@.entries,
                    self@.bytes,
                    start.limit,
                ),
            decreases self@.entries.len() + (if more { 1int } else { 0int }),
        {
            let ghost prev = self@.entries;
            match frames_pop_lru(&mut self.entries) {
                Some((_, v)) => {
                    proof {
                        let t = prev.skip(1);
                        assert(self@.entries == t);
                        assert forall|a: int, b: int| 0 <= a < b < t.len() implies (
                        #[trigger] t[a]).0 != (#[trigger] t[b]).0 by {
                            assert(t[a] == prev[a + 1] && t[b] == prev[b + 1]);
                        }
                        assert forall|i: int| 0 <= i < t.len() implies (#[trigger] t[i]).1.len()
                            == CD_FRAME_2352 by {
                            assert(t[i] == prev[i + 1]);
                        }
                    }
                    self.approx_bytes = self.approx_bytes.saturating_sub(v.len());
                },
                None => {
                    more = false;
                },
            }
        }
        let ghost kept = self@.entries;
        proof {
            lemma_lru_put(kept, self@.capacity, (file_id, frame_index), frame@);
        }
        let ghost bytes = frame@;
        let _ = frames_put(&mut self.entries, (file_id, frame_index), frame);
        proof {
            let after = self@.entries;
            assert forall|i: int| 0 <= i < after.len() implies (#[trigger] after[i]).1.len()
                == CD_FRAME_2352 by {
                assert(after.contains(after[i]));
                if after[i] != ((file_id, frame_index), bytes) {
                    assert(kept.contains(after[i]));
                    let j = choose|j: int| 0 <= j < kept.len() && kept[j] == after[i];
                    assert(kept[j].1.len() == CD_FRAME_2352);
                }
            }
        }
    }
}

/// The bytes of all entries together.
pub open spec fn total_bytes<K>(s: Seq<(K, Seq<u8>)>) -> int
    decreases s.len(),
{
    if s.len() == 0 {
        0
    } else {
        total_bytes(s.drop_last()) + s.last().1.len()
    }
}

proof fn lemma_total_bytes<K>(s: Seq<(K, Seq<u8>)>, size: int)
    requires
        forall|i: int| 0 <= i < s.len() ==> (#[trigger] s[i]).1.len() == size,
    ensures
        total_bytes(s) == size * s.len(),
    decreases s.len(),
{
    if s.len() > 0 {
        let t = s.drop_last();
        assert forall|i: int| 0 <= i < t.len() implies (#[trigger] t[i]).1.len() == size by {
            assert(t[i] == s[i]);
        }
        lemma_total_bytes(t, size);
        assert(s.last() == s[s.len() - 1]);
        assert(size * (s.len() - 1) + size == size * s.len()) by (nonlinear_arith);
    } else {
        assert(size * s.len() == 0) by (nonlinear_arith)
            requires
                s.len() == 0,
        ;
    }
}

/// The sector cache keeps its bounds: it never holds more sectors than its capacity, and
/// what it holds is within the byte limit or is a single sector.
pub proof fn law_frame_cache_bounded(c: CacheModel)
    requires
        c.wf(),
    ensures
        c.entries.len() <= c.capacity,
        total_bytes(c.entries) <= c.bytes,
        total_bytes(c.entries) <= c.limit || c.entries.len() == 1,
        total_bytes(c.entries) <= c.limit || total_bytes(c.entries) == CD_FRAME_2352,
{
    lemma_total_bytes(c.entries, CD_FRAME_2352 as int);
}

/// While the byte limit leaves room for two more sectors in the machine's word, there is
/// always room to count one.
pub proof fn law_frame_cache_has_room(c: CacheModel)
    requires
        c.wf(),
        c.limit + 2 * CD_FRAME_2352 <= usize::MAX,
    ensures
        c.has_room(),
{
}

/// What is left after eviction was there before.
pub proof fn lemma_evict_members<K>(s: Seq<(K, Seq<u8>)>, bytes: int, limit: int)
    requires
        lru_distinct(s),
    ensures
        lru_distinct(evict(s, bytes, limit).0),
        evict(s, bytes, limit).0.len() <= s.len(),
        forall|e: (K, Seq<u8>)| #[trigger] evict(s, bytes, limit).0.contains(e) ==> s.contains(e),
    decreases s.len(),
{
    if bytes > limit && s.len() > 0 {
        let t = s.skip(1);
        let n = s[0].1.len();
        assert forall|a: int, b: int| 0 <= a < b < t.len() implies (#[trigger] t[a]).0 != (
        #[trigger] t[b]).0 by {
            assert(t[a] == s[a + 1] && t[b] == s[b + 1]);
        }
        lemma_evict_members(
            t,
            if bytes >= n {
                bytes - n
            } else {
                0
            },
            limit,
        );
        assert forall|e: (K, Seq<u8>)| t.contains(e) implies s.contains(e) by {
            let j = choose|j: int| 0 <= j < t.len() && t[j] == e;
            assert(s[j + 1] == e);
        }
    }
}

proof fn lemma_evict_bounds<K>(s: Seq<(K, Seq<u8>)>, bytes: int, limit: int)
    requires
        forall|i: int| 0 <= i < s.len() ==> (#[trigger] s[i]).1.len() == CD_FRAME_2352,
        CD_FRAME_2352 * (s.len() + 1) <= bytes,
        bytes <= limit + 2 * CD_FRAME_2352,
        bytes > limit + CD_FRAME_2352 ==> s.len() > 0,
    ensures
        ({
            let (t, b) = evict(s, bytes, limit);
            &&& CD_FRAME_2352 * (t.len() + 1) <= b <= bytes
            &&& b <= limit + CD_FRAME_2352
            &&& b <= limit || t.len() == 0
        }),
    decreases s.len(),
{
    if bytes > limit && s.len() > 0 {
        let t = s.skip(1);
        assert forall|i: int| 0 <= i < t.len() implies (#[trigger] t[i]).1.len()
            == CD_FRAME_2352 by {
            assert(t[i] == s[i + 1]);
        }
        assert(s[0].1.len() == CD_FRAME_2352);
        lemma_evict_bounds(t, bytes - CD_FRAME_2352, limit);
    }
}

/// A cache stays well formed when a sector is looked up.
pub proof fn lemma_touch_wf(c: CacheModel, k: (u64, u64))
    requires
        c.wf(),
    ensures
        c.touch(k).wf(),
{
    lemma_lru_touch(c.entries, k);
    let t = c.touch(k).entries;
    assert forall|i: int| 0 <= i < t.len() implies (#[trigger] t[i]).1.len() == CD_FRAME_2352 by {
        assert(t.contains(t[i]));
        assert(c.entries.contains(t[i]));
    }
}

/// A cache that has room stays well formed when a sector is put in.
pub proof fn lemma_put_wf(c: CacheModel, k: (u64, u64), frame: Seq<u8>)
    requires
        c.wf(),
        c.has_room(),
        frame.len() == CD_FRAME_2352,
    ensures
        c.put(k, frame).wf(),
{
    let (kept, bytes) = evict(c.entries, c.bytes + frame.len(), c.limit);
    lemma_evict_members(c.entries, c.bytes + frame.len(), c.limit);
    lemma_evict_bounds(c.entries, c.bytes + frame.len(), c.limit);
    lemma_lru_put(kept, c.capacity, k, frame);
    let t = c.put(k, frame).entries;
    assert forall|i: int| 0 <= i < t.len() implies (#[trigger] t[i]).1.len() == CD_FRAME_2352 by {
        assert(t.contains(t[i]));
        if t[i] != (k, frame) {
            assert(kept.contains(t[i]));
            assert(c.entries.contains(t[i]));
        }
    }
}

/// A sector that was put into the cache is found there by the next lookup.
pub proof fn law_put_then_get(c: CacheModel, k: (u64, u64), frame: Seq<u8>)
    requires
        c.wf(),
    ensures
        lru_has(c.put(k, frame).entries, k),
        lru_value(c.put(k, frame).entries, k) == frame,
{
    lemma_evict_members(c.entries, c.bytes + frame.len(), c.limit);
    let kept = evict(c.entries, c.bytes + frame.len(), c.limit).0;
    lemma_lru_put(kept, c.capacity, k, frame);
}

/// The headers fit a cache of `cap` headers, and each is of full size.
pub open spec fn headers_fit(s: Seq<(u64, Seq<u8>)>, cap: int) -> bool {
    &&& lru_fits(s, cap)
    &&& forall|e: (u64, Seq<u8>)| #[trigger] s.contains(e) ==> e.1.len() == VCD_HEADER_SIZE
}

/// The header that is served for a file whose disc has the header `built`: the cached one
/// of the file, where there is one.
pub open spec fn header_served(s: Seq<(u64, Seq<u8>)>, file_id: u64, built: Seq<u8>) -> Seq<u8> {
    if lru_has(s, file_id) {
        lru_value(s, file_id)
    } else {
        built
    }
}

/// The cached headers after a file whose disc has the header `built` is served its
/// header.
pub open spec fn entries_after_header(
    s: Seq<(u64, Seq<u8>)>,
    cap: int,
    file_id: u64,
    built: Seq<u8>,
) -> Seq<(u64, Seq<u8>)> {
    if lru_has(s, file_id) {
        lru_touch(s, file_id)
    } else {
        lru_put(s, cap, file_id, built)
    }
}

/// The cache of VCD headers.
pub struct HeaderCache {
    entries: LruCache<u64, Arc<Vec<u8>>>,
}

impl HeaderCache {
    /// The headers held, least recently used first.
    pub closed spec fn entries(&self) -> Seq<(u64, Seq<u8>)> {
        header_entries(self.entries)
    }

    /// The most headers that are held.
    pub closed spec fn capacity(&self) -> nat {
        header_capacity(self.entries)
    }

    /// Keys are distinct, the number of headers is within the capacity, and each is of
    /// full size.
    pub open spec fn wf(&self) -> bool {
        headers_fit(self.entries(), self.capacity() as int)
    }

    /// An empty cache of the given capacity.
    pub fn new(capacity: usize) -> (r: HeaderCache)
        requires
            0 < capacity <= usize::MAX / 128,
        ensures
            r.wf(),
            r.entries() == Seq::<(u64, Seq<u8>)>::empty(),
            r.capacity() == capacity,
    {
        HeaderCache { entries: headers_new(capacity) }
    }

    /// Whether a header of the file is cached.
    pub fn has_header(&self, file_id: u64) -> (r: bool)
        ensures
            r == lru_has(self.entries(), file_id),
    {
        headers_contains(&self.entries, file_id)
    }

    /// The cached header of the file; where there is none, the header of the disc, which
    /// is then cached.
    pub fn get_vcd_header(&mut self, file_id: u64, tracks: &[TrackInfo], total_frames: u64) -> (r:
        Arc<Vec<u8>>)
        requires
            old(self).wf(),
            lru_has(old(self).entries(), file_id) || header_fits(tracks@, total_frames),
        ensures
            final(self).wf(),
            final(self).capacity() == old(self).capacity(),
            r@ == header_served(
                old(self).entries(),
                file_id,
                vcd_header(tracks@, total_frames),
            ),
            r@.len() == VCD_HEADER_SIZE,
            final(self).entries() == entries_after_header(
                old(self).entries(),
                old(self).capacity() as int,
                file_id,
                vcd_header(tracks@, total_frames),
            ),
    {
        proof {
            lemma_lru_touch(self.entries(), file_id);
            lemma_lru_put(
                self.entries(),
                self.capacity() as int,
                file_id,
                vcd_header(tracks@, total_frames),
            );
            if lru_has(self.entries(), file_id) {
                let i = lru_index(self.entries(), file_id);
                assert(lru_at(self.entries(), file_id, i));
                assert(self.entries().contains(self.entries()[i]));
            }
            let after = entries_after_header(
                self.entries(),
                self.capacity() as int,
                file_id,
                vcd_header(tracks@, total_frames),
            );
            assert forall|e: (u64, Seq<u8>)| #[trigger] after.contains(e) implies e.1.len()
                == VCD_HEADER_SIZE by {
                if lru_has(self.entries(), file_id) {
                    assert(self.entries().contains(e));
                } else if e != (file_id, vcd_header(tracks@, total_frames)) {
                    assert(self.entries().contains(e));
                }
            }
        }
        if let Some(header) = headers_get(&mut self.entries, file_id) {
            return share(header);
        }
        let header: Arc<Vec<u8>> = Arc::new(build_vcd_header(tracks, total_frames));
        let r: Arc<Vec<u8>> = share(&header);
        let _ = headers_put(&mut self.entries, file_id, header);
        r
    }
}

/// The cached headers stay of full size and within the capacity when a file is served its
/// header.
pub proof fn lemma_headers_fit(s: Seq<(u64, Seq<u8>)>, cap: int, file_id: u64, built: Seq<u8>)
    requires
        headers_fit(s, cap),
        built.len() == VCD_HEADER_SIZE,
    ensures
        headers_fit(entries_after_header(s, cap, file_id, built), cap),
{
    lemma_lru_touch(s, file_id);
    lemma_lru_put(s, cap, file_id, built);
    let after = entries_after_header(s, cap, file_id, built);
    assert forall|e: (u64, Seq<u8>)| #[trigger] after.contains(e) implies e.1.len()
        == VCD_HEADER_SIZE by {
        if e != (file_id, built) {
            assert(s.contains(e));
        }
    }
}

/// Each cached header is that of its file's disc.
pub open spec fn headers_agree(s: Seq<(u64, Seq<u8>)>, discs: spec_fn(u64) -> Seq<u8>) -> bool {
    forall|e: (u64, Seq<u8>)| #[trigger] s.contains(e) ==> e.1 == discs(e.0)
}

/// While each cached header is that of its file's disc, so is the header that is served,
/// and so it stays when that header is cached.
pub proof fn law_headers_agree(
    s: Seq<(u64, Seq<u8>)>,
    cap: int,
    file_id: u64,
    discs: spec_fn(u64) -> Seq<u8>,
)
    requires
        lru_fits(s, cap),
        headers_agree(s, discs),
    ensures
        header_served(s, file_id, discs(file_id)) == discs(file_id),
        headers_agree(entries_after_header(s, cap, file_id, discs(file_id)), discs),
{
    lemma_lru_touch(s, file_id);
    lemma_lru_put(s, cap, file_id, discs(file_id));
    if lru_has(s, file_id) {
        let i = lru_index(s, file_id);
        assert(lru_at(s, file_id, i));
        assert(s.contains(s[i]));
    }
}

/// Once a file has been served its header, that header is cached, and the next read of the
/// file is served the same one.
pub proof fn law_header_made_once(s: Seq<(u64, Seq<u8>)>, cap: int, file_id: u64, built: Seq<u8>)
    requires
        lru_fits(s, cap),
    ensures
        lru_has(entries_after_header(s, cap, file_id, built), file_id),
        header_served(entries_after_header(s, cap, file_id, built), file_id, built)
            == header_served(s, file_id, built),
{
    lemma_lru_put(s, cap, file_id, built);
    if lru_has(s, file_id) {
        lemma_lru_remove(s, file_id);
        lemma_lru_push(s.remove(lru_index(s, file_id)), file_id, lru_value(s, file_id));
    }
}

/// The open images, by file.  An image is known by the number of the slot that it was
/// opened in; the least recently used image is the one to close.
pub struct OpenImages {
    entries: LruCache<u64, u64>,
}

impl OpenImages {
    /// The open images, least recently used first: file and slot.
    pub closed spec fn entries(&self) -> Seq<(u64, u64)> {
        slot_entries(self.entries)
    }

    /// The most images that are open.
    pub closed spec fn capacity(&self) -> nat {
        slot_capacity(self.entries)
    }

    /// Keys are distinct and the number of images is within the capacity.
    pub open spec fn wf(&self) -> bool {
        lru_fits(self.entries(), self.capacity() as int)
    }

    /// An empty table of the given capacity.
    pub fn new(capacity: usize) -> (r: OpenImages)
        requires
            0 < capacity <= usize::MAX / 128,
        ensures
            r.wf(),
            r.entries() == Seq::<(u64, u64)>::empty(),
            r.capacity() == capacity,
    {
        OpenImages { entries: slots_new(capacity) }
    }

    /// The slot of the file's open image, which becomes the most recently used, if it is
    /// open.
    pub fn get(&mut self, file_id: u64) -> (r: Option<u64>)
        requires
            old(self).wf(),
        ensures
            final(self).wf(),
            final(self).capacity() == old(self).capacity(),
            r == (if lru_has(old(self).entries(), file_id) {
                Some(lru_value(old(self).entries(), file_id))
            } else {
                None
            }),
            final(self).entries() == lru_touch(old(self).entries(), file_id),
    {
        proof {
            lemma_lru_touch(self.entries(), file_id);
        }
        match slots_get(&mut self.entries, file_id) {
            Some(slot) => Some(*slot),
            None => None,
        }
    }

    /// Note that the file's image is open in `slot`.  The slot whose image is to be
    /// closed for it is returned.
    pub fn put(&mut self, file_id: u64, slot: u64) -> (r: Option<u64>)
        requires
            old(self).wf(),
        ensures
            final(self).wf(),
            final(self).capacity() == old(self).capacity(),
            final(self).entries() == lru_put(
                old(self).entries(),
                old(self).capacity() as int,
                file_id,
                slot,
            ),
            r == (match lru_displaced(
                old(self).entries(),
                old(self).capacity() as int,
                file_id,
            ) {
                Some(e) => Some(e.1),
                None => None,
            }),
    {
        proof {
            lemma_lru_put(self.entries(), self.capacity() as int, file_id, slot);
        }
        match slots_push(&mut self.entries, file_id, slot) {
            Some((_, closed)) => Some(closed),
            None => None,
        }
    }
}

/// An image that has been opened is found open by the next read of the file, and there are
/// never more open images than the table is made for.
pub proof fn law_opened_image_found(s: Seq<(u64, u64)>, cap: int, file_id: u64, slot: u64)
    requires
        lru_fits(s, cap),
    ensures
        lru_has(lru_put(s, cap, file_id, slot), file_id),
        lru_value(lru_put(s, cap, file_id, slot), file_id) == slot,
        lru_put(s, cap, file_id, slot).len() <= cap,
{
    lemma_lru_put(s, cap, file_id, slot);
}

/// Of the images that are open before one more is opened and that one, those still open
/// afterwards and the one handed back for closing are all, and the one handed back is
/// not open any more: no open image is lost track of.
pub proof fn law_no_image_lost(s: Seq<(u64, u64)>, cap: int, file_id: u64, slot: u64, e: (u64, u64))
    requires
        lru_fits(s, cap),
        s.contains(e) || e == (file_id, slot),
        forall|x: (u64, u64)| s.contains(x) ==> #[trigger] x.1 != slot,
    ensures
        lru_put(s, cap, file_id, slot).contains(e) <==> lru_displaced(s, cap, file_id) != Some(e),
{
    let t = lru_put(s, cap, file_id, slot);
    lemma_lru_put(s, cap, file_id, slot);
    let d = lru_displaced(s, cap, file_id);
    if e == (file_id, slot) {
        assert(t[t.len() - 1] == e);
        if d == Some(e) {
            if lru_has(s, file_id) {
                let i = lru_index(s, file_id);
                assert(lru_at(s, file_id, i));
                assert(s.contains(s[i]));
            } else {
                assert(s.contains(s[0]));
            }
            assert(e.1 != slot);
        }
    } else {
        let j = choose|j: int| 0 <= j < s.len() && s[j] == e;
        if lru_has(s, file_id) {
            let i = lru_index(s, file_id);
            assert(lru_at(s, file_id, i));
            if j == i {
                assert(d == Some(e));
                if t.contains(e) {
                    let m = choose|m: int| 0 <= m < t.len() && t[m] == e;
                    if m < t.len() - 1 {
                        lemma_lru_remove(s, file_id);
                        assert(lru_at(s.remove(i), file_id, m));
                    }
                }
            } else {
                let m = if j < i { j } else { j - 1 };
                assert(t[m] == e);
                if j < i {
                    assert(s[j].0 != s[i].0);
                } else {
                    assert(s[i].0 != s[j].0);
                }
            }
        } else if s.len() == cap {
            if j == 0 {
                assert(d == Some(e));
                if t.contains(e) {
                    let m = choose|m: int| 0 <= m < t.len() && t[m] == e;
                    if m < t.len() - 1 {
                        assert(t[m] == s[m + 1]);
                        assert(s[0].0 != s[m + 1].0);
                    }
                }
            } else {
                assert(t[j - 1] == e);
                assert(s[0].0 != s[j].0);
            }
        } else {
            assert(t[j] == e);
        }
    }
}

/// A lookup of a key that the entry `i` has finds the value of that entry.  It becomes the
/// most recent one; those that were more recent move up by one, and the others stay.
pub proof fn law_lookup_hit<K, V>(s: Seq<(K, V)>, k: K, i: int, j: int)
    requires
        forall|a: int, b: int|
            0 <= a < b < s.len() ==> (#[trigger] s[a]).0 != (#[trigger] s[b]).0,
        0 <= i < s.len(),
        s[i].0 == k,
    ensures
        lru_has(s, k),
        lru_value(s, k) == s[i].1,
        lru_touch(s, k).len() == s.len(),
        lru_touch(s, k)[s.len() - 1] == s[i],
        0 <= j < i ==> lru_touch(s, k)[j] == s[j],
        i <= j < s.len() - 1 ==> lru_touch(s, k)[j] == s[j + 1],
{
    lemma_lru_index(s, k, i);
}

/// A lookup of a key that no entry has finds nothing and changes nothing.
pub proof fn law_lookup_miss<K, V>(s: Seq<(K, V)>, k: K)
    requires
        forall|i: int| 0 <= i < s.len() ==> (#[trigger] s[i]).0 != k,
    ensures
        !lru_has(s, k),
        lru_touch(s, k) == s,
{
}

/// Putting a key that the entry `i` has replaces that entry, which comes back.  The new
/// entry is the most recent one, and none leaves for it.
pub proof fn law_put_replaces<K, V>(s: Seq<(K, V)>, cap: int, k: K, v: V, i: int, j: int)
    requires
        forall|a: int, b: int|
            0 <= a < b < s.len() ==> (#[trigger] s[a]).0 != (#[trigger] s[b]).0,
        0 <= i < s.len(),
        s[i].0 == k,
    ensures
        lru_displaced(s, cap, k) == Some(s[i]),
        lru_put(s, cap, k, v).len() == s.len(),
        lru_put(s, cap, k, v)[s.len() - 1] == (k, v),
        0 <= j < i ==> lru_put(s, cap, k, v)[j] == s[j],
        i <= j < s.len() - 1 ==> lru_put(s, cap, k, v)[j] == s[j + 1],
{
    lemma_lru_index(s, k, i);
}

/// Putting a key that no entry has adds an entry, as the most recent one.  Where the cache
/// is full, the least recent one leaves for it and comes back; else none does.
pub proof fn law_put_adds<K, V>(s: Seq<(K, V)>, cap: int, k: K, v: V, j: int)
    requires
        forall|i: int| 0 <= i < s.len() ==> (#[trigger] s[i]).0 != k,
        0 < cap,
        s.len() <= cap,
    ensures
        s.len() < cap ==> {
            &&& lru_displaced(s, cap, k) is None
            &&& lru_put(s, cap, k, v).len() == s.len() + 1
            &&& lru_put(s, cap, k, v)[s.len() as int] == (k, v)
            &&& 0 <= j < s.len() ==> lru_put(s, cap, k, v)[j] == s[j]
        },
        s.len() == cap ==> {
            &&& lru_displaced(s, cap, k) == Some(s[0])
            &&& lru_put(s, cap, k, v).len() == s.len()
            &&& lru_put(s, cap, k, v)[s.len() - 1] == (k, v)
            &&& 0 <= j < s.len() - 1 ==> lru_put(s, cap, k, v)[j] == s[j + 1]
        },
{
}

proof fn lemma_evict_is_minimal<K>(s: Seq<(K, Seq<u8>)>, bytes: int, limit: int) -> (n: int)
    requires
        forall|i: int| 0 <= i < s.len() ==> (#[trigger] s[i]).1.len() == 2352,
        2352 * s.len() <= bytes,
    ensures
        0 <= n <= s.len(),
        evict(s, bytes, limit).0 == s.skip(n),
        evict(s, bytes, limit).1 == bytes - 2352 * n,
        evict(s, bytes, limit).1 <= limit || n == s.len(),
        n > 0 ==> evict(s, bytes, limit).1 + 2352 > limit,
    decreases s.len(),
{
    if bytes > limit && s.len() > 0 {
        let t = s.skip(1);
        assert forall|i: int| 0 <= i < t.len() implies (#[trigger] t[i]).1.len() == 2352 by {
            assert(t[i] == s[i + 1]);
        }
        assert(s[0].1.len() == 2352);
        let m = lemma_evict_is_minimal(t, bytes - 2352, limit);
        assert(t.skip(m) =~= s.skip(m + 1));
        m + 1
    } else {
        assert(s.skip(0) =~= s);
        0
    }
}

/// How many sectors leave for one that is put in, and what the byte count is then.  The
/// count grows by the sector's 2352 bytes; as long as it is above the limit, the least recent
/// sector leaves, which takes 2352 bytes off it, and no more leave than that.  Then the
/// sector enters.
pub proof fn law_put_evicts_least_recent(c: CacheModel, k: (u64, u64), frame: Seq<u8>) -> (n: int)
    requires
        c.wf(),
        frame.len() == 2352,
    ensures
        0 <= n <= c.entries.len(),
        c.put(k, frame).bytes == c.bytes + 2352 - 2352 * n,
        c.put(k, frame).bytes <= c.limit || n == c.entries.len(),
        n > 0 ==> c.put(k, frame).bytes + 2352 > c.limit,
        c.put(k, frame).entries == lru_put(c.entries.skip(n), c.capacity, k, frame),
        c.put(k, frame).capacity == c.capacity,
        c.put(k, frame).limit == c.limit,
{
    lemma_evict_is_minimal(c.entries, c.bytes + 2352, c.limit)
}

/// A lookup of a sector changes the order of the sectors and nothing else.
pub proof fn law_lookup_keeps_count(c: CacheModel, k: (u64, u64))
    ensures
        c.touch(k).entries == lru_touch(c.entries, k),
        c.touch(k).capacity == c.capacity,
        c.touch(k).bytes == c.bytes,
        c.touch(k).limit == c.limit,
        c.has_room() <==> c.bytes + 2352 <= usize::MAX,
{
}

/// A file whose header is cached is served that header, which becomes the most recent one.
/// Any other file is served the header that is built for it, which is then cached.
pub proof fn law_header_is_cached(
    s: Seq<(u64, Seq<u8>)>,
    cap: int,
    file_id: u64,
    built: Seq<u8>,
    i: int,
    j: int,
)
    requires
        forall|a: int, b: int|
            0 <= a < b < s.len() ==> (#[trigger] s[a]).0 != (#[trigger] s[b]).0,
        0 < cap,
        s.len() <= cap,
    ensures
        0 <= i < s.len() && s[i].0 == file_id ==> {
            &&& header_served(s, file_id, built) == s[i].1
            &&& entries_after_header(s, cap, file_id, built).len() == s.len()
            &&& entries_after_header(s, cap, file_id, built)[s.len() - 1] == s[i]
            &&& 0 <= j < i ==> entries_after_header(s, cap, file_id, built)[j] == s[j]
            &&& i <= j < s.len() - 1 ==> entries_after_header(s, cap, file_id, built)[j] == s[j
                + 1]
        },
        (forall|a: int| 0 <= a < s.len() ==> (#[trigger] s[a]).0 != file_id) ==> {
            &&& header_served(s, file_id, built) == built
            &&& entries_after_header(s, cap, file_id, built).last() == (file_id, built)
            &&& s.len() < cap ==> entries_after_header(s, cap, file_id, built).drop_last() == s
            &&& s.len() == cap ==> entries_after_header(s, cap, file_id, built).drop_last()
                == s.skip(1)
        },
{
    if 0 <= i < s.len() && s[i].0 == file_id {
        law_lookup_hit(s, file_id, i, j);
    }
    if forall|a: int| 0 <= a < s.len() ==> (#[trigger] s[a]).0 != file_id {
        assert(!lru_has(s, file_id));
        let after = entries_after_header(s, cap, file_id, built);
        if s.len() < cap {
            assert(after.drop_last() =~= s);
        } else {
            assert(after.drop_last() =~= s.skip(1));
        }
    }
}

} // verus!
