use vstd::prelude::*;
use crate::text::{join2, same_text};

verus! {

/// One stored value, with the instant (in seconds) after which it is gone.
pub struct CacheEntry {
    pub key: String,
    pub value: String,
    pub expires_at: Option<u64>,
}

/// An in-process key-value cache with optional expiry, keyed by text.
pub struct MemoryRedisService {
    entries: Vec<CacheEntry>,
}

/// The lifetime of cached insights: one day, in seconds.
pub const INSIGHTS_TTL_SECS: u64 = 86400;

/// Whether an entry that expires at `e` is gone at instant `now`.
pub open spec fn expired(e: Option<u64>, now: u64) -> bool {
    match e {
        Some(t) => t < now,
        None => false,
    }
}

/// The expiry instant of a value stored at `now` for `secs` seconds
/// (none for zero seconds).
pub open spec fn expiry_for(now: u64, secs: u64) -> Option<u64> {
    if secs == 0 {
        None
    } else if now as int + secs as int <= u64::MAX as int {
        Some((now + secs) as u64)
    } else {
        Some(u64::MAX)
    }
}

/// The key under which the insights of a job are cached.
pub open spec fn insights_key(job_id: Seq<char>) -> Seq<char> {
    "insights:"@ + job_id
}

impl MemoryRedisService {
    /// The stored entries, each key once: key to (value, expiry).
    pub closed spec fn view(&self) -> Map<Seq<char>, (Seq<char>, Option<u64>)> {
        Map::new(
            |k: Seq<char>| exists|i: int| 0 <= i < self.entries@.len() && self.entries@[i].key@ == k,
            |k: Seq<char>| {
                let i = choose|i: int| 0 <= i < self.entries@.len() && self.entries@[i].key@ == k;
                (self.entries@[i].value@, self.entries@[i].expires_at)
            },
        )
    }

    /// No key is stored twice.
    pub closed spec fn wf(&self) -> bool {
        forall|i: int, j: int|
            0 <= i < j < self.entries@.len() ==> self.entries@[i].key@ != self.entries@[j].key@
    }

    proof fn lemma_view_at(&self, i: int)
        requires
            self.wf(),
            0 <= i < self.entries@.len(),
        ensures
            self@.contains_key(self.entries@[i].key@),
            self@[self.entries@[i].key@] == (self.entries@[i].value@, self.entries@[i].expires_at),
    {
        let k = self.entries@[i].key@;
        assert(exists|i: int| 0 <= i < self.entries@.len() && self.entries@[i].key@ == k);
        let j = choose|j: int| 0 <= j < self.entries@.len() && self.entries@[j].key@ == k;
        assert(i == j);
    }

    /// An empty cache.
    pub fn new() -> (r: Self)
        ensures
            r.wf(),
            r@ == Map::<Seq<char>, (Seq<char>, Option<u64>)>::empty(),
    {
        let r = MemoryRedisService { entries: Vec::new() };
        assert(r@ =~= Map::<Seq<char>, (Seq<char>, Option<u64>)>::empty());
        r
    }

    fn position(&self, key: &str) -> (r: Option<usize>)
        requires
            self.wf(),
        ensures
            match r {
                Some(i) => i < self.entries@.len() && self.entries@[i as int].key@ == key@,
                None => !self@.contains_key(key@),
            },
    {
        let mut i: usize = 0;
        while i < self.entries.len()
            invariant
                i <= self.entries@.len(),
                forall|j: int| 0 <= j < i ==> self.entries@[j].key@ != key@,
            decreases self.entries@.len() - i,
        {
            if same_text(self.entries[i].key.as_str(), key) {
                return Some(i);
            }
            i = i + 1;
        }
        None
    }

    fn put(&mut self, key: &str, value: &str, expires_at: Option<u64>)
        requires
            old(self).wf(),
        ensures
            final(self).wf(),
            final(self)@ == old(self)@.insert(key@, (value@, expires_at)),
    {
        let entry = CacheEntry { key: String::from_str(key), value: String::from_str(value), expires_at };
        match self.position(key) {
            Some(i) => {
                let ghost before = self.entries@;
                self.entries.set(i, entry);
                assert forall|k: Seq<char>| #[trigger] self@.contains_key(k) == old(self)@.insert(key@, (value@, expires_at)).contains_key(k) by {
                    if old(self)@.contains_key(k) && k != key@ {
                        let j = choose|j: int| 0 <= j < before.len() && before[j].key@ == k;
                        assert(self.entries@[j] == before[j]);
                    }
                    if self@.contains_key(k) && k != key@ {
                        let j = choose|j: int| 0 <= j < self.entries@.len() && self.entries@[j].key@ == k;
                        assert(before[j] == self.entries@[j]);
                    }
                    if k == key@ {
                        assert(self.entries@[i as int].key@ == k);
                    }
                }
                assert forall|k: Seq<char>| #[trigger] self@.contains_key(k) implies self@[k] == old(self)@.insert(key@, (value@, expires_at))[k] by {
                    let j = choose|j: int| 0 <= j < self.entries@.len() && self.entries@[j].key@ == k;
                    self.lemma_view_at(j);
                    if k != key@ {
                        old(self).lemma_view_at(j);
                    }
                }
                assert(self@ =~= old(self)@.insert(key@, (value@, expires_at)));
            },
            None => {
                let ghost before = self.entries@;
                self.entries.push(entry);
                assert forall|k: Seq<char>| #[trigger] self@.contains_key(k) == old(self)@.insert(key@, (value@, expires_at)).contains_key(k) by {
                    if old(self)@.contains_key(k) {
                        let j = choose|j: int| 0 <= j < before.len() && before[j].key@ == k;
                        assert(self.entries@[j] == before[j]);
                    }
                    if self@.contains_key(k) && k != key@ {
                        let j = choose|j: int| 0 <= j < self.entries@.len() && self.entries@[j].key@ == k;
                        assert(j < before.len());
                        assert(before[j] == self.entries@[j]);
                    }
                    if k == key@ {
                        assert(self.entries@[before.len() as int].key@ == k);
                    }
                }
                assert forall|k: Seq<char>| #[trigger] self@.contains_key(k) implies self@[k] == old(self)@.insert(key@, (value@, expires_at))[k] by {
                    let j = choose|j: int| 0 <= j < self.entries@.len() && self.entries@[j].key@ == k;
                    self.lemma_view_at(j);
                    if k != key@ {
                        assert(j < before.len());
                        old(self).lemma_view_at(j);
                    }
                }
                assert(self@ =~= old(self)@.insert(key@, (value@, expires_at)));
            },
        }
    }

    /// Stores `value` under `key`, to expire `expiry_secs` seconds after `now`
    /// (never, for zero seconds), replacing what the key held.
    pub fn set_with_expiry(&mut self, key: &str, value: &str, expiry_secs: u64, now: u64)
        requires
            old(self).wf(),
        ensures
            final(self).wf(),
            final(self)@ == old(self)@.insert(key@, (value@, expiry_for(now, expiry_secs))),
    {
        let expires_at = if expiry_secs == 0 {
            None
        } else if now <= u64::MAX - expiry_secs {
            Some(now + expiry_secs)
        } else {
            Some(u64::MAX)
        };
        self.put(key, value, expires_at);
    }

    /// Stores `value` under `key` with no expiry.
    pub fn set_value(&mut self, key: &str, value: &str)
        requires
            old(self).wf(),
        ensures
            final(self).wf(),
            final(self)@ == old(self)@.insert(key@, (value@, None::<u64>)),
    {
        self.put(key, value, None);
    }

    /// Removes `key`, if present.
    pub fn delete(&mut self, key: &str)
        requires
            old(self).wf(),
        ensures
            final(self).wf(),
            final(self)@ == old(self)@.remove(key@),
    {
        match self.position(key) {
            Some(i) => {
                let ghost before = self.entries@;
                self.entries.remove(i);
                assert forall|k: Seq<char>| #[trigger] self@.contains_key(k) == old(self)@.remove(key@).contains_key(k) by {
                    if old(self)@.contains_key(k) && k != key@ {
                        let j = choose|j: int| 0 <= j < before.len() && before[j].key@ == k;
                        if j < i {
                            assert(self.entries@[j] == before[j]);
                        } else {
                            assert(j > i);
                            assert(self.entries@[j - 1] == before[j]);
                        }
                    }
                    if self@.contains_key(k) {
                        let j = choose|j: int| 0 <= j < self.entries@.len() && self.entries@[j].key@ == k;
                        if j < i {
                            assert(before[j] == self.entries@[j]);
                        } else {
                            assert(before[j + 1] == self.entries@[j]);
                        }
                    }
                }
                assert forall|k: Seq<char>| #[trigger] self@.contains_key(k) implies self@[k] == old(self)@.remove(key@)[k] by {
                    let j = choose|j: int| 0 <= j < self.entries@.len() && self.entries@[j].key@ == k;
                    self.lemma_view_at(j);
                    if j < i {
                        old(self).lemma_view_at(j);
                    } else {
                        old(self).lemma_view_at(j + 1);
                    }
                }
                assert(self@ =~= old(self)@.remove(key@));
            },
            None => {
                assert(self@ =~= old(self)@.remove(key@));
            },
        }
    }

    /// The value under `key` at instant `now`; a value whose expiry has
    /// passed is removed and not returned.
    pub fn get(&mut self, key: &str, now: u64) -> (r: Option<String>)
        requires
            old(self).wf(),
        ensures
            final(self).wf(),
            old(self)@.contains_key(key@) && !expired(old(self)@[key@].1, now) ==> {
                &&& r is Some
                &&& r->0@ == old(self)@[key@].0
                &&& final(self)@ == old(self)@
            },
            !(old(self)@.contains_key(key@) && !expired(old(self)@[key@].1, now)) ==> {
                &&& r is None
                &&& final(self)@ == old(self)@.remove(key@)
            },
    {
        match self.position(key) {
            Some(i) => {
                proof {
                    self.lemma_view_at(i as int);
                }
                let gone = match self.entries[i].expires_at {
                    Some(t) => t < now,
                    None => false,
                };
                if gone {
                    self.delete(key);
                    None
                } else {
                    Some(self.entries[i].value.clone())
                }
            },
            None => {
                assert(self@ =~= old(self)@.remove(key@));
                None
            },
        }
    }

    /// Same as `get`.
    pub fn get_value(&mut self, key: &str, now: u64) -> (r: Option<String>)
        requires
            old(self).wf(),
        ensures
            final(self).wf(),
            old(self)@.contains_key(key@) && !expired(old(self)@[key@].1, now) ==> {
                &&& r is Some
                &&& r->0@ == old(self)@[key@].0
                &&& final(self)@ == old(self)@
            },
            !(old(self)@.contains_key(key@) && !expired(old(self)@[key@].1, now)) ==> {
                &&& r is None
                &&& final(self)@ == old(self)@.remove(key@)
            },
    {
        self.get(key, now)
    }

    /// Caches the encoded insights of a job at instant `now`, for one day.
    pub fn cache_insights(&mut self, job_id: &str, encoded: &str, now: u64)
        requires
            old(self).wf(),
        ensures
            final(self).wf(),
            final(self)@ == old(self)@.insert(insights_key(job_id@), (encoded@, expiry_for(now, INSIGHTS_TTL_SECS))),
    {
        let key = join2("insights:", job_id);
        self.set_with_expiry(key.as_str(), encoded, INSIGHTS_TTL_SECS, now);
    }

    /// The encoded insights cached for a job, if any.
    pub fn get_insights(&mut self, job_id: &str, now: u64) -> (r: Option<String>)
        requires
            old(self).wf(),
        ensures
            final(self).wf(),
            old(self)@.contains_key(insights_key(job_id@))
                && !expired(old(self)@[insights_key(job_id@)].1, now) ==> r is Some && r->0@
                == old(self)@[insights_key(job_id@)].0,
            !(old(self)@.contains_key(insights_key(job_id@)) && !expired(
                old(self)@[insights_key(job_id@)].1,
                now,
            )) ==> r is None,
    {
        let key = join2("insights:", job_id);
        self.get_value(key.as_str(), now)
    }
}

/// Insights cached for a job are what a read of that job finds until their
/// day has passed: after `cache_insights` at `now`, `get_insights` at any
/// instant up to one day later returns the same encoded text.
pub proof fn lemma_cache_round_trip(
    c0: MemoryRedisService,
    c1: MemoryRedisService,
    job_id: Seq<char>,
    encoded: Seq<char>,
    now: u64,
    later: u64,
)
    requires
        c0.wf(),
        c1@ == c0@.insert(insights_key(job_id), (encoded, expiry_for(now, INSIGHTS_TTL_SECS))),
        later as int <= now as int + INSIGHTS_TTL_SECS as int,
    ensures
        c1@.contains_key(insights_key(job_id)),
        !expired(c1@[insights_key(job_id)].1, later),
        c1@[insights_key(job_id)].0 == encoded,
{
}

} // verus!
