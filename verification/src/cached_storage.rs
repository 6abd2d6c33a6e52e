//! The read cache in front of the index store: stored values by key, each
//! with the time it was last used and how often it was read. An entry older
//! than the time to live is dropped when read; when the cache is full, the
//! least used entry (fewest reads, then oldest) makes room. Times are given
//! by the caller, in ticks of its clock.
use vstd::prelude::*;

use crate::assoc::{assoc_map, assoc_unique, lemma_assoc_absent, lemma_assoc_at, lemma_assoc_empty, lemma_assoc_push, lemma_assoc_remove, lemma_assoc_update};
use crate::text::str_eq;

verus! {

/// A cached value with its use.
pub struct CacheEntry {
    pub value: Vec<u8>,
    pub last_accessed: u64,
    pub access_count: usize,
}

/// What an entry holds: its bytes, when it was last used, how often read.
pub open spec fn entry_view(e: CacheEntry) -> (Seq<u8>, u64, usize) {
    (e.value@, e.last_accessed, e.access_count)
}

/// The key of an entry.
pub open spec fn entry_key() -> spec_fn((String, CacheEntry)) -> Seq<char> {
    |e: (String, CacheEntry)| e.0@
}

/// Entry `a` is used less than entry `b`: fewer reads, or as many and used
/// earlier (or at the same time).
pub open spec fn used_no_more(a: (Seq<u8>, u64, usize), b: (Seq<u8>, u64, usize)) -> bool {
    a.2 < b.2 || (a.2 == b.2 && a.1 <= b.1)
}

/// `new` is `old` with one least-used entry removed, or `old` itself when it
/// is empty.
pub open spec fn evicted(old: Map<Seq<char>, (Seq<u8>, u64, usize)>, new: Map<Seq<char>, (Seq<u8>, u64, usize)>) -> bool {
    if old.dom().len() == 0 {
        new == old
    } else {
        exists|k: Seq<char>| #[trigger] old.contains_key(k) && new == old.remove(k)
            && forall|j: Seq<char>| #[trigger] old.contains_key(j) ==> used_no_more(old[k], old[j])
    }
}

/// The cache after making room when full, then putting `(value, now, count)`
/// under `key`.
pub open spec fn put_after_room(
    old: Map<Seq<char>, (Seq<u8>, u64, usize)>,
    new: Map<Seq<char>, (Seq<u8>, u64, usize)>,
    max_cache_size: usize,
    key: Seq<char>,
    value: Seq<u8>,
    now: u64,
    count: usize,
) -> bool {
    if old.dom().len() >= max_cache_size {
        exists|mid: Map<Seq<char>, (Seq<u8>, u64, usize)>| #[trigger] evicted(old, mid) && new == mid.insert(key, (value, now, count))
    } else {
        new == old.insert(key, (value, now, count))
    }
}

/// The size a cache never outgrows: its capacity, and at least one entry.
pub open spec fn size_bound(max_cache_size: usize) -> nat {
    if max_cache_size == 0 { 1 } else { max_cache_size as nat }
}

/// What the cache does on a read of `key` at `now`: a fresh entry (used less
/// than `ttl` ticks ago) is returned and marked used now, read once more (the
/// count wraps around); a stale one is dropped; a missing one changes
/// nothing.
pub open spec fn looked_up(
    old: Map<Seq<char>, (Seq<u8>, u64, usize)>,
    new: Map<Seq<char>, (Seq<u8>, u64, usize)>,
    ttl: u64,
    key: Seq<char>,
    now: u64,
    r: Option<Seq<u8>>,
) -> bool {
    if !old.contains_key(key) {
        r is None && new == old
    } else if (if now >= old[key].1 { now - old[key].1 } else { 0 }) < ttl {
        r == Some(old[key].0) && new == old.insert(key, (old[key].0, now, if old[key].2 == usize::MAX { 0 } else { (old[key].2 + 1) as usize }))
    } else {
        r is None && new == old.remove(key)
    }
}

/// What one call of the cache may do to its contents: a save or fill
/// ([`put_after_room`]), a read ([`looked_up`]), a warm-up (which keeps the
/// keys), an eviction ([`evicted`]) or a clear (which empties it).
pub open spec fn cache_step(
    old: Map<Seq<char>, (Seq<u8>, u64, usize)>,
    new: Map<Seq<char>, (Seq<u8>, u64, usize)>,
    max_cache_size: usize,
    ttl: u64,
) -> bool {
    ||| exists|key: Seq<char>, value: Seq<u8>, now: u64, count: usize| #[trigger] put_after_room(old, new, max_cache_size, key, value, now, count)
    ||| exists|key: Seq<char>, now: u64, r: Option<Seq<u8>>| #[trigger] looked_up(old, new, ttl, key, now, r)
    ||| new.dom() == old.dom()
    ||| evicted(old, new)
    ||| new == Map::<Seq<char>, (Seq<u8>, u64, usize)>::empty()
}

proof fn lemma_step_bound(
    old: Map<Seq<char>, (Seq<u8>, u64, usize)>,
    new: Map<Seq<char>, (Seq<u8>, u64, usize)>,
    max_cache_size: usize,
    ttl: u64,
)
    requires
        old.dom().finite(),
        old.dom().len() <= size_bound(max_cache_size),
        cache_step(old, new, max_cache_size, ttl),
    ensures
        new.dom().finite(),
        new.dom().len() <= size_bound(max_cache_size),
{
    if exists|key: Seq<char>, value: Seq<u8>, now: u64, count: usize| #[trigger] put_after_room(old, new, max_cache_size, key, value, now, count) {
        let (key, value, now, count) = choose|key: Seq<char>, value: Seq<u8>, now: u64, count: usize| #[trigger] put_after_room(old, new, max_cache_size, key, value, now, count);
        if old.dom().len() >= max_cache_size {
            let mid = choose|mid: Map<Seq<char>, (Seq<u8>, u64, usize)>| #[trigger] evicted(old, mid) && new == mid.insert(key, (value, now, count));
            if old.dom().len() == 0 {
                assert(new.dom() =~= old.dom().insert(key));
            } else {
                let k = choose|k: Seq<char>| #[trigger] old.contains_key(k) && mid == old.remove(k)
                    && forall|j: Seq<char>| #[trigger] old.contains_key(j) ==> used_no_more(old[k], old[j]);
                assert(mid.dom() =~= old.dom().remove(k));
                assert(new.dom() =~= mid.dom().insert(key));
            }
        } else {
            assert(new.dom() =~= old.dom().insert(key));
        }
    } else if exists|key: Seq<char>, now: u64, r: Option<Seq<u8>>| #[trigger] looked_up(old, new, ttl, key, now, r) {
        let (key, now, r) = choose|key: Seq<char>, now: u64, r: Option<Seq<u8>>| #[trigger] looked_up(old, new, ttl, key, now, r);
        if old.contains_key(key) {
            assert(old.insert(key, (old[key].0, now, if old[key].2 == usize::MAX { 0 } else { (old[key].2 + 1) as usize })).dom() =~= old.dom());
            assert(old.remove(key).dom() =~= old.dom().remove(key));
        }
    } else if new.dom() == old.dom() {
    } else if evicted(old, new) {
        if old.dom().len() > 0 {
            let k = choose|k: Seq<char>| #[trigger] old.contains_key(k) && new == old.remove(k)
                && forall|j: Seq<char>| #[trigger] old.contains_key(j) ==> used_no_more(old[k], old[j]);
            assert(new.dom() =~= old.dom().remove(k));
        }
    } else {
        assert(new.dom() =~= Set::<Seq<char>>::empty());
    }
}

/// Over any sequence of calls, from an empty cache, the cache never holds
/// more entries than its capacity (and at least room for one).
pub proof fn law_cache_never_outgrows(trace: Seq<Map<Seq<char>, (Seq<u8>, u64, usize)>>, max_cache_size: usize, ttl: u64, i: int)
    requires
        trace.len() > 0,
        trace[0] == Map::<Seq<char>, (Seq<u8>, u64, usize)>::empty(),
        forall|j: int| 0 <= j < trace.len() - 1 ==> cache_step(#[trigger] trace[j], trace[j + 1], max_cache_size, ttl),
        0 <= i < trace.len(),
    ensures
        trace[i].dom().finite(),
        trace[i].dom().len() <= size_bound(max_cache_size),
    decreases i,
{
    if i == 0 {
        assert(trace[0].dom() =~= Set::<Seq<char>>::empty());
    } else {
        law_cache_never_outgrows(trace, max_cache_size, ttl, i - 1);
        lemma_step_bound(trace[i - 1], trace[i], max_cache_size, ttl);
    }
}

/// A read cache of stored values (see the module documentation).
pub struct CacheTable {
    entries: Vec<(String, CacheEntry)>,
    max_cache_size: usize,
    ttl: u64,
}

impl CacheTable {
    /// The cached entries by key.
    pub closed spec fn view_map(&self) -> Map<Seq<char>, (Seq<u8>, u64, usize)> {
        assoc_map(self.entries@, entry_key()).map_values(|e: (String, CacheEntry)| entry_view(e.1))
    }

    /// How many entries the cache holds before it makes room.
    pub closed spec fn capacity(&self) -> usize {
        self.max_cache_size
    }

    /// How many ticks an entry stays fresh.
    pub closed spec fn time_to_live(&self) -> u64 {
        self.ttl
    }

    /// No key is cached twice.
    pub closed spec fn wf(&self) -> bool {
        assoc_unique(self.entries@, entry_key())
    }

    proof fn lemma_len(&self)
        requires
            self.wf(),
        ensures
            self.view_map().dom().finite(),
            self.view_map().dom().len() == self.entries.len(),
        decreases self.entries.len(),
    {
        lemma_unique_len(self.entries@);
    }

    /// An empty cache of the given capacity and time to live.
    pub fn new(max_cache_size: usize, ttl: u64) -> (c: Self)
        ensures
            c.wf(),
            c.view_map() == Map::<Seq<char>, (Seq<u8>, u64, usize)>::empty(),
            c.capacity() == max_cache_size,
            c.time_to_live() == ttl,
    {
        let c = CacheTable { entries: Vec::new(), max_cache_size, ttl };
        proof {
            lemma_assoc_empty(entry_key());
            assert(c.view_map() =~= Map::<Seq<char>, (Seq<u8>, u64, usize)>::empty());
        }
        c
    }

    /// Number of entries.
    pub fn len(&self) -> (r: usize)
        requires
            self.wf(),
        ensures
            r == self.view_map().dom().len(),
    {
        proof { self.lemma_len(); }
        self.entries.len()
    }

    fn position(&self, key: &str) -> (r: Option<usize>)
        ensures
            match r {
                Some(j) => j < self.entries.len() && self.entries@[j as int].0@ == key@,
                None => forall|j: int| 0 <= j < self.entries.len() ==> self.entries@[j].0@ != key@,
            },
    {
        let mut j: usize = 0;
        while j < self.entries.len()
            invariant
                j <= self.entries.len(),
                forall|i: int| 0 <= i < j ==> self.entries@[i].0@ != key@,
            decreases self.entries.len() - j,
        {
            if str_eq(self.entries[j].0.as_str(), key) {
                return Some(j);
            }
            j = j + 1;
        }
        None
    }

    /// Removes one least-used entry (fewest reads, then oldest), if any.
    pub fn evict_lru(&mut self)
        requires
            old(self).wf(),
        ensures
            final(self).wf(),
            final(self).capacity() == old(self).capacity(),
            final(self).time_to_live() == old(self).time_to_live(),
            evicted(old(self).view_map(), final(self).view_map()),
    {
        proof { self.lemma_len(); }
        if self.entries.len() == 0 {
            return;
        }
        let ghost s = self.entries@;
        let ghost m0 = self.view_map();
        let mut best: usize = 0;
        let mut i: usize = 1;
        while i < self.entries.len()
            invariant
                s == self.entries@,
                0 < self.entries.len(),
                best < i <= self.entries.len(),
                forall|j: int| 0 <= j < i ==> used_no_more(entry_view(s[best as int].1), entry_view(#[trigger] s[j].1)),
            decreases self.entries.len() - i,
        {
            let c = self.entries[i].1.access_count;
            let t = self.entries[i].1.last_accessed;
            let bc = self.entries[best].1.access_count;
            let bt = self.entries[best].1.last_accessed;
            if c < bc || (c == bc && t < bt) {
                best = i;
            }
            i = i + 1;
        }
        let ghost k = s[best as int].0@;
        proof {
            lemma_assoc_at(s, entry_key(), best as int);
            lemma_assoc_remove(s, entry_key(), best as int);
        }
        let _removed = self.entries.remove(best);
        proof {
            assert(self.view_map() =~= m0.remove(k));
            assert(m0.contains_key(k));
            assert forall|j: Seq<char>| #[trigger] m0.contains_key(j) implies used_no_more(m0[k], m0[j]) by {
                let a = choose|a: int| 0 <= a < s.len() && (entry_key())(s[a]) == j;
                lemma_assoc_at(s, entry_key(), a);
            }
        }
    }

    /// Puts `(value, now, count)` under `key`, replacing an entry of that key.
    fn put(&mut self, key: &str, value: Vec<u8>, now: u64, count: usize)
        requires
            old(self).wf(),
        ensures
            final(self).wf(),
            final(self).capacity() == old(self).capacity(),
            final(self).time_to_live() == old(self).time_to_live(),
            final(self).view_map() == old(self).view_map().insert(key@, (value@, now, count)),
    {
        let ghost s = self.entries@;
        let ghost m0 = self.view_map();
        let e = (crate::text::str_to_string(key), CacheEntry { value, last_accessed: now, access_count: count });
        let ghost ev = e;
        match self.position(key) {
            Some(j) => {
                proof { lemma_assoc_update(s, entry_key(), j as int, ev); }
                self.entries.set(j, e);
            },
            None => {
                proof { lemma_assoc_push(s, entry_key(), ev); }
                self.entries.push(e);
            },
        }
        proof {
            assert(self.view_map() =~= m0.insert(key@, (ev.1.value@, now, count)));
        }
    }

    /// Saves `value` under `key` at `now`, not yet read: when the cache is
    /// full, one least-used entry is removed first.
    pub fn save(&mut self, key: &str, value: Vec<u8>, now: u64)
        requires
            old(self).wf(),
        ensures
            final(self).wf(),
            final(self).capacity() == old(self).capacity(),
            final(self).time_to_live() == old(self).time_to_live(),
            put_after_room(old(self).view_map(), final(self).view_map(), old(self).capacity(), key@, value@, now, 0),
            old(self).view_map().dom().len() <= size_bound(old(self).capacity())
                ==> final(self).view_map().dom().len() <= size_bound(old(self).capacity()),
    {
        self.put_after_eviction(key, value, now, 0);
    }

    /// Caches `value`, just read from the store, under `key` at `now`, read
    /// once: when the cache is full, one least-used entry is removed first.
    pub fn fill(&mut self, key: &str, value: Vec<u8>, now: u64)
        requires
            old(self).wf(),
        ensures
            final(self).wf(),
            final(self).capacity() == old(self).capacity(),
            final(self).time_to_live() == old(self).time_to_live(),
            put_after_room(old(self).view_map(), final(self).view_map(), old(self).capacity(), key@, value@, now, 1),
            old(self).view_map().dom().len() <= size_bound(old(self).capacity())
                ==> final(self).view_map().dom().len() <= size_bound(old(self).capacity()),
    {
        self.put_after_eviction(key, value, now, 1);
    }

    fn put_after_eviction(&mut self, key: &str, value: Vec<u8>, now: u64, count: usize)
        requires
            old(self).wf(),
        ensures
            final(self).wf(),
            final(self).capacity() == old(self).capacity(),
            final(self).time_to_live() == old(self).time_to_live(),
            put_after_room(old(self).view_map(), final(self).view_map(), old(self).capacity(), key@, value@, now, count),
            old(self).view_map().dom().len() <= size_bound(old(self).capacity())
                ==> final(self).view_map().dom().len() <= size_bound(old(self).capacity()),
    {
        let ghost m0 = self.view_map();
        let ghost v = value@;
        proof { self.lemma_len(); }
        if self.entries.len() >= self.max_cache_size {
            self.evict_lru();
            let ghost mid = self.view_map();
            proof { self.lemma_len(); }
            self.put(key, value, now, count);
            proof {
                assert(evicted(m0, mid));
                assert(self.view_map() == mid.insert(key@, (v, now, count)));
                self.lemma_len();
                if m0.dom().len() <= size_bound(self.max_cache_size) {
                    if m0.dom().len() == 0 {
                        assert(mid == m0);
                        assert(mid.dom().len() == 0);
                    } else {
                        let k = choose|k: Seq<char>| #[trigger] m0.contains_key(k) && mid == m0.remove(k)
                            && forall|j: Seq<char>| #[trigger] m0.contains_key(j) ==> used_no_more(m0[k], m0[j]);
                        assert(mid.dom() =~= m0.dom().remove(k));
                        assert(mid.dom().len() == m0.dom().len() - 1);
                    }
                    assert(self.view_map().dom() =~= mid.dom().insert(key@));
                    if mid.dom().contains(key@) {
                        assert(self.view_map().dom().len() == mid.dom().len());
                    } else {
                        assert(self.view_map().dom().len() == mid.dom().len() + 1);
                    }
                }
            }
        } else {
            self.put(key, value, now, count);
            proof {
                self.lemma_len();
                assert(self.view_map().dom() =~= m0.dom().insert(key@));
            }
        }
    }

    /// Reads `key` at `now` (see [`looked_up`]).
    pub fn lookup(&mut self, key: &str, now: u64) -> (r: Option<Vec<u8>>)
        requires
            old(self).wf(),
        ensures
            final(self).wf(),
            final(self).capacity() == old(self).capacity(),
            final(self).time_to_live() == old(self).time_to_live(),
            looked_up(old(self).view_map(), final(self).view_map(), old(self).time_to_live(), key@, now,
                match r { Some(v) => Some(v@), None => None }),
    {
        let ghost s = self.entries@;
        let ghost m0 = self.view_map();
        match self.position(key) {
            Some(j) => {
                proof { lemma_assoc_at(s, entry_key(), j as int); }
                let stamp = self.entries[j].1.last_accessed;
                let elapsed = if now >= stamp { now - stamp } else { 0 };
                if elapsed < self.ttl {
                    let value = clone_bytes(&self.entries[j].1.value);
                    let count = self.entries[j].1.access_count;
                    let next = if count == usize::MAX { 0 } else { count + 1 };
                    let ghost old_bytes = self.entries@[j as int].1.value@;
                    self.put(key, clone_bytes(&value), now, next);
                    proof {
                        assert(m0[key@] == (old_bytes, stamp, count));
                    }
                    Some(value)
                } else {
                    proof { lemma_assoc_remove(s, entry_key(), j as int); }
                    let _stale = self.entries.remove(j);
                    proof {
                        assert(self.view_map() =~= m0.remove(key@));
                    }
                    None
                }
            },
            None => {
                proof { lemma_assoc_absent(s, entry_key(), key@); }
                None
            },
        }
    }

    /// Marks each of `hot_keys` that is cached as read ten times.
    pub fn warmup(&mut self, hot_keys: &Vec<String>)
        requires
            old(self).wf(),
        ensures
            final(self).wf(),
            final(self).capacity() == old(self).capacity(),
            final(self).time_to_live() == old(self).time_to_live(),
            final(self).view_map().dom() == old(self).view_map().dom(),
            forall|k: Seq<char>| #[trigger] final(self).view_map().contains_key(k) ==> {
                let (v, t, c) = old(self).view_map()[k];
                final(self).view_map()[k] == (v, t, if hot_keys@.map_values(|h: String| h@).contains(k) { 10usize } else { c })
            },
    {
        let ghost m0 = self.view_map();
        let ghost hk = hot_keys@.map_values(|h: String| h@);
        let mut i: usize = 0;
        while i < hot_keys.len()
            invariant
                self.wf(),
                self.max_cache_size == old(self).max_cache_size,
                self.ttl == old(self).ttl,
                i <= hot_keys.len(),
                hk == hot_keys@.map_values(|h: String| h@),
                self.view_map().dom() == m0.dom(),
                forall|k: Seq<char>| #[trigger] self.view_map().contains_key(k) ==> {
                    let (v, t, c) = m0[k];
                    self.view_map()[k] == (v, t, if hk.take(i as int).contains(k) { 10usize } else { c })
                },
            decreases hot_keys.len() - i,
        {
            let ghost s = self.entries@;
            let ghost m1 = self.view_map();
            let key = &hot_keys[i];
            match self.position(key.as_str()) {
                Some(j) => {
                    proof { lemma_assoc_at(s, entry_key(), j as int); }
                    let value = clone_bytes(&self.entries[j].1.value);
                    let stamp = self.entries[j].1.last_accessed;
                    self.put(key.as_str(), value, stamp, 10);
                    proof {
                        assert(self.view_map().dom() =~= m1.dom());
                        assert forall|k: Seq<char>| #[trigger] self.view_map().contains_key(k) implies {
                            let (v, t, c) = m0[k];
                            self.view_map()[k] == (v, t, if hk.take(i + 1).contains(k) { 10usize } else { c })
                        } by {
                            assert(hk.take(i + 1) =~= hk.take(i as int).push(key@));
                            if k != key@ {
                                assert(hk.take(i + 1).contains(k) == hk.take(i as int).contains(k));
                            } else {
                                assert(hk.take(i + 1)[i as int] == k);
                            }
                        }
                    }
                },
                None => {
                    proof {
                        lemma_assoc_absent(s, entry_key(), key@);
                        assert forall|k: Seq<char>| #[trigger] self.view_map().contains_key(k) implies {
                            let (v, t, c) = m0[k];
                            self.view_map()[k] == (v, t, if hk.take(i + 1).contains(k) { 10usize } else { c })
                        } by {
                            assert(hk.take(i + 1) =~= hk.take(i as int).push(key@));
                            assert(k != key@);
                            assert(hk.take(i + 1).contains(k) == hk.take(i as int).contains(k));
                        }
                    }
                },
            }
            i = i + 1;
        }
        assert(hk.take(hot_keys.len() as int) =~= hk);
    }

    /// Empties the cache.
    pub fn clear(&mut self)
        ensures
            final(self).wf(),
            final(self).capacity() == old(self).capacity(),
            final(self).time_to_live() == old(self).time_to_live(),
            final(self).view_map() == Map::<Seq<char>, (Seq<u8>, u64, usize)>::empty(),
    {
        self.entries = Vec::new();
        proof {
            lemma_assoc_empty(entry_key());
            assert(self.view_map() =~= Map::<Seq<char>, (Seq<u8>, u64, usize)>::empty());
        }
    }
}

/// A copy of `v`.
fn clone_bytes(v: &Vec<u8>) -> (r: Vec<u8>)
    ensures
        r@ == v@,
{
    let mut r: Vec<u8> = Vec::new();
    let mut i: usize = 0;
    while i < v.len()
        invariant
            i <= v.len(),
            r@ == v@.subrange(0, i as int),
        decreases v.len() - i,
    {
        r.push(v[i]);
        assert(r@ =~= v@.subrange(0, i + 1));
        i = i + 1;
    }
    assert(v@.subrange(0, v.len() as int) =~= v@);
    r
}

/// A list of entries with distinct keys has as many keys as entries.
proof fn lemma_unique_len(s: Seq<(String, CacheEntry)>)
    requires
        assoc_unique(s, entry_key()),
    ensures
        assoc_map(s, entry_key()).map_values(|e: (String, CacheEntry)| entry_view(e.1)).dom().finite(),
        assoc_map(s, entry_key()).map_values(|e: (String, CacheEntry)| entry_view(e.1)).dom().len() == s.len(),
    decreases s.len(),
{
    let m = assoc_map(s, entry_key()).map_values(|e: (String, CacheEntry)| entry_view(e.1));
    if s.len() == 0 {
        lemma_assoc_empty(entry_key());
        assert(s =~= Seq::<(String, CacheEntry)>::empty());
        assert(m.dom() =~= Set::<Seq<char>>::empty());
    } else {
        let t = s.drop_last();
        assert(assoc_unique(t, entry_key()));
        lemma_unique_len(t);
        assert forall|i: int| 0 <= i < t.len() implies (entry_key())(t[i]) != (entry_key())(s.last()) by {
            assert(t[i] == s[i]);
        }
        lemma_assoc_push(t, entry_key(), s.last());
        assert(t.push(s.last()) =~= s);
        let mt = assoc_map(t, entry_key()).map_values(|e: (String, CacheEntry)| entry_view(e.1));
        assert(m.dom() =~= mt.dom().insert(s.last().0@));
        assert(!mt.dom().contains(s.last().0@)) by {
            if mt.dom().contains(s.last().0@) {
                let i = choose|i: int| 0 <= i < t.len() && (entry_key())(t[i]) == s.last().0@;
                assert(t[i] == s[i]);
            }
        }
    }
}

/// A value saved at some time is read back at that time, while entries
/// stay fresh for at least one tick.
pub proof fn law_read_after_save(
    before: Map<Seq<char>, (Seq<u8>, u64, usize)>,
    saved: Map<Seq<char>, (Seq<u8>, u64, usize)>,
    read: Map<Seq<char>, (Seq<u8>, u64, usize)>,
    max_cache_size: usize,
    ttl: u64,
    key: Seq<char>,
    value: Seq<u8>,
    now: u64,
    r: Option<Seq<u8>>,
)
    requires
        put_after_room(before, saved, max_cache_size, key, value, now, 0),
        looked_up(saved, read, ttl, key, now, r),
        ttl > 0,
    ensures
        r == Some(value),
        read[key] == (value, now, 1usize),
{
    if before.dom().len() >= max_cache_size {
        let mid = choose|mid: Map<Seq<char>, (Seq<u8>, u64, usize)>| #[trigger] evicted(before, mid)
            && saved == mid.insert(key, (value, now, 0usize));
        assert(saved[key] == (value, now, 0usize));
    } else {
        assert(saved[key] == (value, now, 0usize));
    }
}

} // verus!
