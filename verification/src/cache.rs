//! Bounded, TTL-aware answer cache with least-recently-used eviction.
//!
//! Entries are held in recency order: index 0 is the least recently used,
//! the last index the most recently used. A hit moves the entry to the end;
//! an insert into a full cache evicts the entry at index 0 first. An entry
//! is never served at or past its expiry: a `get` that finds an expired
//! entry removes it and reports a miss.

use crate::message::{Answer, AnswerModel};
use crate::query::{KeyModel, QueryKey};
use vstd::prelude::*;

verus! {

/// One cached answer with its key and absolute expiry instant.
pub struct CacheEntry {
    pub key: QueryKey,
    pub answer: Answer,
    pub expires_at: u64,
}

/// Mathematical image of a `CacheEntry`.
pub struct EntryModel {
    pub key: KeyModel,
    pub answer: AnswerModel,
    pub expires_at: u64,
}

impl View for CacheEntry {
    type V = EntryModel;

    open spec fn view(&self) -> EntryModel {
        EntryModel { key: self.key@, answer: self.answer@, expires_at: self.expires_at }
    }
}

/// No two entries share a key.
pub open spec fn keys_distinct(s: Seq<EntryModel>) -> bool {
    forall|i: int, j: int| 0 <= i < j < s.len() ==> (#[trigger] s[i]).key != (#[trigger] s[j]).key
}

/// The index of the first entry with key `k`, if any.
pub open spec fn find_key(s: Seq<EntryModel>, k: KeyModel) -> Option<int>
    decreases s.len(),
{
    if s.len() == 0 {
        None
    } else if s[0].key == k {
        Some(0)
    } else {
        match find_key(s.drop_first(), k) {
            Some(i) => Some(i + 1),
            None => None,
        }
    }
}

/// What `find_key` returns is the first match.
pub proof fn lemma_find_key_some(s: Seq<EntryModel>, k: KeyModel)
    requires
        find_key(s, k) is Some,
    ensures
        0 <= find_key(s, k)->0 < s.len(),
        s[find_key(s, k)->0].key == k,
        forall|j: int| 0 <= j < find_key(s, k)->0 ==> (#[trigger] s[j]).key != k,
    decreases s.len(),
{
    if s.len() > 0 && s[0].key != k {
        lemma_find_key_some(s.drop_first(), k);
        assert forall|j: int| 0 <= j < find_key(s, k)->0 implies (#[trigger] s[j]).key != k by {
            if j > 0 {
                assert(s[j] == s.drop_first()[j - 1]);
            }
        }
    }
}

/// A sequence without `k` among its keys has no match for it.
pub proof fn lemma_find_key_none(s: Seq<EntryModel>, k: KeyModel)
    requires
        forall|j: int| 0 <= j < s.len() ==> (#[trigger] s[j]).key != k,
    ensures
        find_key(s, k) is None,
    decreases s.len(),
{
    if s.len() > 0 {
        lemma_find_key_none(s.drop_first(), k);
    }
}

/// A fruitless search means no entry holds the key.
pub proof fn lemma_find_key_none_keys(s: Seq<EntryModel>, k: KeyModel)
    requires
        find_key(s, k) is None,
    ensures
        forall|j: int| 0 <= j < s.len() ==> (#[trigger] s[j]).key != k,
    decreases s.len(),
{
    if s.len() > 0 {
        lemma_find_key_none_keys(s.drop_first(), k);
        assert forall|j: int| 0 <= j < s.len() implies (#[trigger] s[j]).key != k by {
            if j > 0 {
                assert(s[j] == s.drop_first()[j - 1]);
            }
        }
    }
}

/// The first index holding `k` is what `find_key` returns.
pub proof fn lemma_find_key_first(s: Seq<EntryModel>, k: KeyModel, i: int)
    requires
        0 <= i < s.len(),
        s[i].key == k,
        forall|j: int| 0 <= j < i ==> (#[trigger] s[j]).key != k,
    ensures
        find_key(s, k) == Some(i),
    decreases s.len(),
{
    if i > 0 {
        lemma_find_key_first(s.drop_first(), k, i - 1);
    }
}

/// The lookup outcome on a cache state: the stored answer and the remaining
/// time-to-live, provided the entry exists and has not expired.
pub open spec fn lookup_model(s: Seq<EntryModel>, k: KeyModel, now: u64) -> Option<
    (AnswerModel, u64),
> {
    match find_key(s, k) {
        None => None,
        Some(i) => if now >= s[i].expires_at {
            None
        } else {
            Some((s[i].answer, (s[i].expires_at - now) as u64))
        },
    }
}

/// The cache state after a `get`: untouched on a miss, pruned of the entry
/// when it had expired, and with the entry moved to the most-recent end on
/// a hit.
pub open spec fn after_get_model(s: Seq<EntryModel>, k: KeyModel, now: u64) -> Seq<EntryModel> {
    match find_key(s, k) {
        None => s,
        Some(i) => if now >= s[i].expires_at {
            s.remove(i)
        } else {
            s.remove(i).push(s[i])
        },
    }
}

/// The cache state after a `put` of entry `e` into a cache of capacity
/// `cap`: an entry with the same key is replaced in place of being
/// duplicated, a new entry is appended, and when the cache is full the
/// least-recently-used entry -- the one at index 0 -- is evicted first.
pub open spec fn after_put_model(s: Seq<EntryModel>, cap: nat, e: EntryModel) -> Seq<EntryModel> {
    match find_key(s, e.key) {
        Some(i) => s.remove(i).push(e),
        None => if s.len() < cap {
            s.push(e)
        } else {
            s.remove(0).push(e)
        },
    }
}

/// Insertion under overflow evicts the least-recently-used entry first: a
/// new key entering a full cache drops exactly the entry at the
/// least-recent end, keeps every other entry and their order, and appends
/// the new entry at the most-recent end.
pub proof fn lemma_put_overflow_evicts_lru(s: Seq<EntryModel>, cap: nat, e: EntryModel)
    requires
        find_key(s, e.key) is None,
        s.len() >= cap,
        s.len() >= 1,
    ensures
        after_put_model(s, cap, e) == s.remove(0).push(e),
        after_put_model(s, cap, e).len() == s.len(),
        forall|j: int| 1 <= j < s.len() ==> #[trigger] after_put_model(s, cap, e)[j - 1] == s[j],
        after_put_model(s, cap, e).last() == e,
{
    s.remove_ensures(0);
}

/// The predicate an entry must meet to survive a sweep at instant `now`.
pub open spec fn unexpired(now: u64) -> spec_fn(EntryModel) -> bool {
    |e: EntryModel| now < e.expires_at
}

/// Distinctness survives removing an entry.
proof fn lemma_distinct_remove(s: Seq<EntryModel>, i: int)
    requires
        keys_distinct(s),
        0 <= i < s.len(),
    ensures
        keys_distinct(s.remove(i)),
{
    s.remove_ensures(i);
}

/// Distinctness survives replacing the entry at `i` by one with the same
/// key, moved to the most-recent end.
proof fn lemma_distinct_remove_push(s: Seq<EntryModel>, i: int, e: EntryModel)
    requires
        keys_distinct(s),
        0 <= i < s.len(),
        e.key == s[i].key,
    ensures
        keys_distinct(s.remove(i).push(e)),
{
    s.remove_ensures(i);
    let t = s.remove(i).push(e);
    assert forall|a: int, b: int| 0 <= a < b < t.len() implies (#[trigger] t[a]).key != (
    #[trigger] t[b]).key by {
        if b == t.len() - 1 {
            if a < i {
                assert(t[a] == s[a]);
            } else {
                assert(t[a] == s[a + 1]);
            }
        }
    }
}

/// Distinctness survives appending an entry whose key is absent.
proof fn lemma_distinct_push_fresh(s: Seq<EntryModel>, e: EntryModel)
    requires
        keys_distinct(s),
        forall|j: int| 0 <= j < s.len() ==> (#[trigger] s[j]).key != e.key,
    ensures
        keys_distinct(s.push(e)),
{
    let t = s.push(e);
    assert forall|a: int, b: int| 0 <= a < b < t.len() implies (#[trigger] t[a]).key != (
    #[trigger] t[b]).key by {
        if b == t.len() - 1 {
            assert(t[a] == s[a]);
        }
    }
}

/// The answer cache.
pub struct Cache {
    pub entries: Vec<CacheEntry>,
    pub capacity: usize,
}

impl View for Cache {
    type V = Seq<EntryModel>;

    open spec fn view(&self) -> Seq<EntryModel> {
        self.entries@.map_values(|e: CacheEntry| e@)
    }
}

impl Cache {
    /// The cache invariant: a positive bound, never exceeded, and one entry
    /// per key.
    pub open spec fn wf(&self) -> bool {
        &&& self.capacity >= 1
        &&& self@.len() <= self.capacity
        &&& keys_distinct(self@)
    }

    /// An empty cache with the given bound; a bound of zero is raised to
    /// one so the invariant holds.
    pub fn new(capacity: usize) -> (c: Cache)
        ensures
            c.wf(),
            c@ == Seq::<EntryModel>::empty(),
            capacity >= 1 ==> c.capacity == capacity,
    {
        let cap = if capacity >= 1 {
            capacity
        } else {
            1
        };
        let c = Cache { entries: Vec::new(), capacity: cap };
        proof {
            assert(c@ =~= Seq::<EntryModel>::empty());
        }
        c
    }

    /// Find the index of a key.
    fn find(&self, key: &QueryKey) -> (r: Option<usize>)
        ensures
            match r {
                Some(i) => 0 <= i < self@.len() && find_key(self@, key@) == Some(i as int),
                None => find_key(self@, key@) is None,
            },
    {
        let mut i: usize = 0;
        while i < self.entries.len()
            invariant
                i <= self.entries@.len(),
                self@.len() == self.entries@.len(),
                forall|j: int| 0 <= j < self@.len() ==> #[trigger] self@[j] == self.entries@[j]@,
                forall|j: int| 0 <= j < i ==> (#[trigger] self@[j]).key != key@,
            decreases self.entries.len() - i,
        {
            if crate::query::keys_equal(&self.entries[i].key, key) {
                proof {
                    lemma_find_key_first(self@, key@, i as int);
                }
                return Some(i);
            }
            i = i + 1;
        }
        proof {
            lemma_find_key_none(self@, key@);
        }
        None
    }

    /// Look a key up at instant `now`. A hit returns a copy of the stored
    /// answer and its remaining time-to-live, and refreshes the entry's
    /// recency; an expired entry is removed and reported as a miss.
    pub fn get(&mut self, key: &QueryKey, now: u64) -> (r: Option<(Answer, u64)>)
        requires
            old(self).wf(),
        ensures
            final(self).wf(),
            final(self).capacity == old(self).capacity,
            final(self)@ == after_get_model(old(self)@, key@, now),
            (r is Some) == (lookup_model(old(self)@, key@, now) is Some),
            r matches Some(p) ==> lookup_model(old(self)@, key@, now) == Some((p.0@, p.1)),
    {
        let found = self.find(key);
        match found {
            None => None,
            Some(i) => {
                proof {
                    lemma_find_key_some(self@, key@);
                }
                if now >= self.entries[i].expires_at {
                    let ghost pre = self@;
                    self.entries.remove(i);
                    proof {
                        assert(self@ =~= pre.remove(i as int));
                        lemma_distinct_remove(pre, i as int);
                    }
                    None
                } else {
                    let ghost pre = self@;
                    let entry = self.entries.remove(i);
                    let answer = entry.answer.duplicate();
                    let remaining = entry.expires_at - now;
                    self.entries.push(entry);
                    proof {
                        assert(self@ =~= pre.remove(i as int).push(pre[i as int]));
                        lemma_distinct_remove_push(pre, i as int, pre[i as int]);
                    }
                    Some((answer, remaining))
                }
            },
        }
    }

    /// Store an answer under a key, expiring `ttl` seconds after `now`.
    /// A full cache evicts its least-recently-used entry first.
    pub fn put(&mut self, key: QueryKey, answer: Answer, ttl: u64, now: u64)
        requires
            old(self).wf(),
        ensures
            final(self).wf(),
            final(self).capacity == old(self).capacity,
            final(self)@ == after_put_model(
                old(self)@,
                old(self).capacity as nat,
                EntryModel {
                    key: key@,
                    answer: answer@,
                    expires_at: if now + ttl <= u64::MAX {
                        (now + ttl) as u64
                    } else {
                        u64::MAX
                    },
                },
            ),
    {
        let expires_at = if ttl <= u64::MAX - now {
            now + ttl
        } else {
            u64::MAX
        };
        let entry = CacheEntry { key, answer, expires_at };
        let ghost e = entry@;
        let ghost pre = self@;
        let found = self.find(&entry.key);
        match found {
            Some(i) => {
                proof {
                    lemma_find_key_some(pre, e.key);
                }
                self.entries.remove(i);
                self.entries.push(entry);
                proof {
                    assert(self@ =~= pre.remove(i as int).push(e));
                    lemma_distinct_remove_push(pre, i as int, e);
                }
            },
            None => {
                proof {
                    lemma_find_key_none_keys(pre, e.key);
                }
                if self.entries.len() < self.capacity {
                    self.entries.push(entry);
                    proof {
                        assert(self@ =~= pre.push(e));
                        lemma_distinct_push_fresh(pre, e);
                    }
                } else {
                    self.entries.remove(0);
                    self.entries.push(entry);
                    proof {
                        assert(self@ =~= pre.remove(0).push(e));
                        lemma_distinct_remove(pre, 0);
                        pre.remove_ensures(0);
                        lemma_distinct_push_fresh(pre.remove(0), e);
                    }
                }
            },
        }
    }

    /// Drop every entry that has expired by `now`; recency order among the
    /// kept entries is unchanged.
    pub fn evict_expired(&mut self, now: u64)
        requires
            old(self).wf(),
        ensures
            final(self).wf(),
            final(self).capacity == old(self).capacity,
            final(self)@ == old(self)@.filter(unexpired(now)),
    {
        let ghost pred = unexpired(now);
        let ghost orig = self@;
        let mut i: usize = self.entries.len();
        proof {
            reveal(Seq::filter);
            assert(orig.subrange(i as int, orig.len() as int).filter(pred) =~= Seq::<
                EntryModel,
            >::empty());
            assert(self@ =~= orig.subrange(0, i as int) + orig.subrange(
                i as int,
                orig.len() as int,
            ).filter(pred));
        }
        while i > 0
            invariant
                pred == unexpired(now),
                i <= orig.len(),
                orig.len() <= usize::MAX,
                self@.len() <= orig.len(),
                keys_distinct(self@),
                self.capacity == old(self).capacity,
                orig.len() <= self.capacity,
                self@.len() == self.entries@.len(),
                forall|j: int| 0 <= j < self@.len() ==> #[trigger] self@[j] == self.entries@[j]@,
                self@ == orig.subrange(0, i as int) + orig.subrange(
                    i as int,
                    orig.len() as int,
                ).filter(pred),
            decreases i,
        {
            i = i - 1;
            let ghost tail = orig.subrange(i as int + 1, orig.len() as int);
            proof {
                reveal_with_fuel(Seq::<_>::filter, 3);
                assert(orig.subrange(i as int, orig.len() as int) =~= seq![orig[i as int]] + tail);
                Seq::filter_distributes_over_add(seq![orig[i as int]], tail, pred);
                assert(seq![orig[i as int]].drop_last() =~= Seq::<EntryModel>::empty());
                if pred(orig[i as int]) {
                    assert(seq![orig[i as int]].filter(pred) =~= seq![orig[i as int]]);
                } else {
                    assert(seq![orig[i as int]].filter(pred) =~= Seq::<EntryModel>::empty());
                }
                assert(self@[i as int] == orig[i as int]);
            }
            if now >= self.entries[i].expires_at {
                let ghost pre = self@;
                self.entries.remove(i);
                proof {
                    assert(self@ =~= pre.remove(i as int));
                    lemma_distinct_remove(pre, i as int);
                    assert(self@ =~= orig.subrange(0, i as int) + orig.subrange(
                        i as int,
                        orig.len() as int,
                    ).filter(pred));
                }
            } else {
                proof {
                    assert(self@ =~= orig.subrange(0, i as int) + orig.subrange(
                        i as int,
                        orig.len() as int,
                    ).filter(pred));
                }
            }
        }
        proof {
            assert(orig.subrange(0, 0) =~= Seq::<EntryModel>::empty());
            assert(orig.subrange(0, orig.len() as int) =~= orig);
            assert(self@ =~= orig.filter(pred));
        }
    }

    /// The number of live entries.
    pub fn len(&self) -> (n: usize)
        ensures
            n == self@.len(),
    {
        self.entries.len()
    }
}

/// Looking a key up twice in a row is consistent: if the second lookup is
/// made on the state the first one left, no later than the first, plus
/// within the entry's remaining time-to-live, it returns the same answer
/// content, and the remaining time-to-live it reports never increases.
pub proof fn lemma_repeated_get_consistent(
    s: Seq<EntryModel>,
    k: KeyModel,
    now1: u64,
    now2: u64,
)
    requires
        keys_distinct(s),
        now1 <= now2,
        lookup_model(s, k, now1) is Some,
    ensures
        ({
            let hit = lookup_model(s, k, now1)->0;
            &&& (lookup_model(after_get_model(s, k, now1), k, now2) matches Some(p) ==> p.0
                == hit.0 && p.1 <= hit.1)
            &&& (now2 - now1 < hit.1 ==> lookup_model(after_get_model(s, k, now1), k, now2)
                is Some)
        }),
{
    lemma_find_key_some(s, k);
    let i = find_key(s, k)->0;
    let t = after_get_model(s, k, now1);
    s.remove_ensures(i);
    assert(t[t.len() - 1].key == k);
    assert forall|j: int| 0 <= j < t.len() - 1 implies (#[trigger] t[j]).key != k by {
        if j < i {
            assert(t[j] == s[j]);
        } else {
            assert(t[j] == s[j + 1]);
        }
    }
    lemma_find_key_first(t, k, t.len() - 1);
}

} // verus!
