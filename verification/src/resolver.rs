//! Resolver core: orchestrates filter, cache and upstream pool.
//!
//! The core is a state machine over plain values. `resolve_begin` takes a
//! query as far as it can without touching the network: a blocked query is
//! answered synthetically, a cached one from the cache, and an uncached one
//! either joins the in-flight slot already open for its key or opens one
//! and names the upstream target to contact. The caller performs the
//! exchange and reports back through `resolve_success` or
//! `resolve_failure`, which store the answer, drive target health, retry
//! within the budget, and release the slot.

use crate::cache::{
    after_get_model, after_put_model, find_key, keys_distinct, lookup_model, Cache, EntryModel,
};
use crate::errors::{ResolveError, UpstreamError};
use crate::filter::{classify_model, Classification, FilterEngine, RuleModel};
use crate::message::{blocked_answer_model, make_blocked_answer, Answer, AnswerModel};
use crate::query::{KeyModel, Query, QueryKey, QueryModel};
use crate::upstream::{
    after_failure, after_success, best_target, best_target_except, PoolConfig, TargetModel,
    UpstreamPool,
};
use vstd::prelude::*;

verus! {

/// Saturating increment of a counter.
pub open spec fn sat_inc(x: u64) -> u64 {
    if x < u64::MAX {
        (x + 1) as u64
    } else {
        x
    }
}

/// Saturating addition of two instants/durations.
pub open spec fn sat_add(a: u64, b: u64) -> u64 {
    if a + b <= u64::MAX {
        (a + b) as u64
    } else {
        u64::MAX
    }
}

/// Runtime counters, exposed read-only to the admin surface.
#[derive(Clone, Copy, PartialEq, Eq, Structural, Debug)]
pub struct Stats {
    pub cache_hits: u64,
    pub cache_misses: u64,
    pub blocked: u64,
    pub dispatches: u64,
}

impl Stats {
    /// All counters at zero.
    pub fn zero() -> (s: Stats)
        ensures
            s == (Stats { cache_hits: 0, cache_misses: 0, blocked: 0, dispatches: 0 }),
    {
        Stats { cache_hits: 0, cache_misses: 0, blocked: 0, dispatches: 0 }
    }
}

/// Resolver-level configuration: the range upstream time-to-live values
/// are clamped into, and the optional sinkhole record data for blocked
/// queries.
pub struct ResolverConfig {
    pub min_ttl: u64,
    pub max_ttl: u64,
    pub sinkhole: Option<Vec<u8>>,
}

impl ResolverConfig {
    /// The clamp range must be ordered.
    pub open spec fn wf(&self) -> bool {
        self.min_ttl <= self.max_ttl
    }

    /// The sinkhole setting as a mathematical value.
    pub open spec fn sinkhole_model(&self) -> Option<Seq<u8>> {
        match self.sinkhole {
            Some(v) => Some(v@),
            None => None,
        }
    }

    /// Reasonable defaults: TTLs clamped between one minute and a day, no
    /// sinkhole.
    pub fn new_default() -> (c: ResolverConfig)
        ensures
            c.wf(),
            c.min_ttl == 60,
            c.max_ttl == 86400,
            c.sinkhole is None,
    {
        ResolverConfig { min_ttl: 60, max_ttl: 86400, sinkhole: None }
    }
}

/// A time-to-live clamped into the configured range.
pub open spec fn clamp_ttl(min_ttl: u64, max_ttl: u64, ttl: u64) -> u64 {
    if ttl < min_ttl {
        min_ttl
    } else if ttl > max_ttl {
        max_ttl
    } else {
        ttl
    }
}

/// One open single-flight slot: the key being resolved, the target it was
/// dispatched to, and how many attempts have been made so far.
pub struct InFlight {
    pub key: QueryKey,
    pub target: usize,
    pub attempts: u32,
}

/// Mathematical image of an `InFlight` slot.
pub struct FlightModel {
    pub key: KeyModel,
    pub target: usize,
    pub attempts: u32,
}

impl View for InFlight {
    type V = FlightModel;

    open spec fn view(&self) -> FlightModel {
        FlightModel { key: self.key@, target: self.target, attempts: self.attempts }
    }
}

/// The index of the first in-flight slot for a key, if any.
pub open spec fn find_flight(s: Seq<FlightModel>, k: KeyModel) -> Option<int>
    decreases s.len(),
{
    if s.len() == 0 {
        None
    } else if s[0].key == k {
        Some(0)
    } else {
        match find_flight(s.drop_first(), k) {
            Some(i) => Some(i + 1),
            None => None,
        }
    }
}

/// What `find_flight` returns is the first slot for the key.
pub proof fn lemma_find_flight_some(s: Seq<FlightModel>, k: KeyModel)
    requires
        find_flight(s, k) is Some,
    ensures
        0 <= find_flight(s, k)->0 < s.len(),
        s[find_flight(s, k)->0].key == k,
        forall|j: int| 0 <= j < find_flight(s, k)->0 ==> (#[trigger] s[j]).key != k,
    decreases s.len(),
{
    if s.len() > 0 && s[0].key != k {
        lemma_find_flight_some(s.drop_first(), k);
        assert forall|j: int| 0 <= j < find_flight(s, k)->0 implies (#[trigger] s[j]).key != k by {
            if j > 0 {
                assert(s[j] == s.drop_first()[j - 1]);
            }
        }
    }
}

/// A sequence without the key among its slots has no match for it.
pub proof fn lemma_find_flight_none(s: Seq<FlightModel>, k: KeyModel)
    requires
        forall|j: int| 0 <= j < s.len() ==> (#[trigger] s[j]).key != k,
    ensures
        find_flight(s, k) is None,
    decreases s.len(),
{
    if s.len() > 0 {
        lemma_find_flight_none(s.drop_first(), k);
    }
}

/// A fruitless search means no slot holds the key.
pub proof fn lemma_find_flight_none_keys(s: Seq<FlightModel>, k: KeyModel)
    requires
        find_flight(s, k) is None,
    ensures
        forall|j: int| 0 <= j < s.len() ==> (#[trigger] s[j]).key != k,
    decreases s.len(),
{
    if s.len() > 0 {
        lemma_find_flight_none_keys(s.drop_first(), k);
        assert forall|j: int| 0 <= j < s.len() implies (#[trigger] s[j]).key != k by {
            if j > 0 {
                assert(s[j] == s.drop_first()[j - 1]);
            }
        }
    }
}

/// The first index holding the key is what `find_flight` returns.
pub proof fn lemma_find_flight_first(s: Seq<FlightModel>, k: KeyModel, i: int)
    requires
        0 <= i < s.len(),
        s[i].key == k,
        forall|j: int| 0 <= j < i ==> (#[trigger] s[j]).key != k,
    ensures
        find_flight(s, k) == Some(i),
    decreases s.len(),
{
    if i > 0 {
        lemma_find_flight_first(s.drop_first(), k, i - 1);
    }
}

/// The key a query resolves under, as a mathematical value.
pub open spec fn key_of_query(q: QueryModel) -> KeyModel {
    KeyModel { name: q.name, qtype: q.qtype, qclass: q.qclass }
}

/// The whole resolver state as a mathematical value.
pub struct ResolverModel {
    pub rules: Seq<RuleModel>,
    pub cache: Seq<EntryModel>,
    pub cache_cap: nat,
    pub pool: Seq<TargetModel>,
    pub pool_cfg: PoolConfig,
    pub in_flight: Seq<FlightModel>,
    pub stats: Stats,
    pub min_ttl: u64,
    pub max_ttl: u64,
    pub sinkhole: Option<Seq<u8>>,
}

/// The state after `resolve_begin` for query `q` at instant `now`: a
/// blocked query only counts as blocked; otherwise the cache lookup runs
/// (refreshing recency or pruning an expired entry), and on a miss either
/// the open slot for the key is joined, or a slot is opened toward the
/// selected target and the dispatch counter rises -- by exactly one for
/// any number of identical concurrent begins.
pub open spec fn begin_model(m: ResolverModel, q: QueryModel, now: u64) -> ResolverModel {
    let k = key_of_query(q);
    if classify_model(m.rules, q.name) is Block {
        ResolverModel { stats: Stats { blocked: sat_inc(m.stats.blocked), ..m.stats }, ..m }
    } else {
        let cache2 = after_get_model(m.cache, k, now);
        if lookup_model(m.cache, k, now) is Some {
            ResolverModel {
                cache: cache2,
                stats: Stats { cache_hits: sat_inc(m.stats.cache_hits), ..m.stats },
                ..m
            }
        } else {
            let stats2 = Stats { cache_misses: sat_inc(m.stats.cache_misses), ..m.stats };
            if find_flight(m.in_flight, k) is Some {
                ResolverModel { cache: cache2, stats: stats2, ..m }
            } else {
                match best_target(m.pool, m.pool_cfg, now) {
                    None => ResolverModel { cache: cache2, stats: stats2, ..m },
                    Some(t) => ResolverModel {
                        cache: cache2,
                        in_flight: m.in_flight.push(
                            FlightModel { key: k, target: t as usize, attempts: 0 },
                        ),
                        stats: Stats { dispatches: sat_inc(stats2.dispatches), ..stats2 },
                        ..m
                    },
                }
            }
        }
    }
}

/// What `resolve_begin` hands back to the caller.
pub enum ResolveStep {
    /// The query is blocked; this synthesized answer goes straight back.
    Blocked(Answer),
    /// A cache hit: the stored answer and its remaining time-to-live.
    Cached(Answer, u64),
    /// A slot was opened: send the query to this upstream target index.
    Dispatch(usize),
    /// The key is already being resolved; await that slot's outcome.
    Wait,
    /// Resolution cannot proceed.
    Fail(ResolveError),
}

/// What `resolve_failure` decides after a failed exchange.
#[derive(Clone, Copy, PartialEq, Eq, Structural, Debug)]
pub enum RetryStep {
    /// Try again against this target index.
    Retry(usize),
    /// Give up and surface this error to every waiter.
    GiveUp(ResolveError),
}

/// The resolver: filter, cache, upstream pool, open single-flight slots
/// and counters, driven by callers through plain values.
pub struct Resolver {
    pub filter: FilterEngine,
    pub cache: Cache,
    pub pool: UpstreamPool,
    pub in_flight: Vec<InFlight>,
    pub stats: Stats,
    pub config: ResolverConfig,
}

impl Resolver {
    /// The in-flight slots as a mathematical sequence.
    pub open spec fn flights(&self) -> Seq<FlightModel> {
        self.in_flight@.map_values(|f: InFlight| f@)
    }

    /// The resolver invariant: sound components, one slot per key, and
    /// every slot aimed at an existing target.
    pub open spec fn wf(&self) -> bool {
        &&& self.cache.wf()
        &&& self.pool.wf()
        &&& self.config.wf()
        &&& forall|i: int, j: int|
            0 <= i < j < self.flights().len() ==> (#[trigger] self.flights()[i]).key != (
            #[trigger] self.flights()[j]).key
        &&& forall|i: int|
            0 <= i < self.flights().len() ==> (#[trigger] self.flights()[i]).target
                < self.pool@.len()
    }

    /// The whole state as a mathematical value.
    pub open spec fn model(&self) -> ResolverModel {
        ResolverModel {
            rules: self.filter@,
            cache: self.cache@,
            cache_cap: self.cache.capacity as nat,
            pool: self.pool@,
            pool_cfg: self.pool.config,
            in_flight: self.flights(),
            stats: self.stats,
            min_ttl: self.config.min_ttl,
            max_ttl: self.config.max_ttl,
            sinkhole: self.config.sinkhole_model(),
        }
    }

    /// Assemble a resolver from its parts, with no slot open and all
    /// counters at zero.
    pub fn new(filter: FilterEngine, cache: Cache, pool: UpstreamPool, config: ResolverConfig) -> (
        r: Resolver)
        requires
            cache.wf(),
            pool.wf(),
            config.wf(),
        ensures
            r.wf(),
            r.filter == filter,
            r.cache == cache,
            r.pool == pool,
            r.config == config,
            r.flights() == Seq::<FlightModel>::empty(),
            r.stats == (Stats { cache_hits: 0, cache_misses: 0, blocked: 0, dispatches: 0 }),
    {
        let r = Resolver {
            filter,
            cache,
            pool,
            in_flight: Vec::new(),
            stats: Stats::zero(),
            config,
        };
        proof {
            assert(r.flights() =~= Seq::<FlightModel>::empty());
        }
        r
    }

    /// A read-only snapshot of the runtime counters.
    pub fn stats_snapshot(&self) -> (s: Stats)
        ensures
            s == self.stats,
    {
        self.stats
    }

    /// Find the slot index currently open for a key.
    fn find_flight_index(&self, key: &QueryKey) -> (r: Option<usize>)
        ensures
            match r {
                Some(i) => 0 <= i < self.flights().len() && find_flight(self.flights(), key@)
                    == Some(i as int),
                None => find_flight(self.flights(), key@) is None,
            },
    {
        let mut i: usize = 0;
        while i < self.in_flight.len()
            invariant
                i <= self.in_flight@.len(),
                self.flights().len() == self.in_flight@.len(),
                forall|j: int|
                    0 <= j < self.flights().len() ==> #[trigger] self.flights()[j]
                        == self.in_flight@[j]@,
                forall|j: int| 0 <= j < i ==> (#[trigger] self.flights()[j]).key != key@,
            decreases self.in_flight.len() - i,
        {
            if crate::query::keys_equal(&self.in_flight[i].key, key) {
                proof {
                    lemma_find_flight_first(self.flights(), key@, i as int);
                }
                return Some(i);
            }
            i = i + 1;
        }
        proof {
            lemma_find_flight_none(self.flights(), key@);
        }
        None
    }

    /// Saturating bump of one counter.
    fn bump(x: u64) -> (r: u64)
        ensures
            r == sat_inc(x),
    {
        if x < u64::MAX {
            x + 1
        } else {
            x
        }
    }

    /// Take a well-formed query as far as it can go without the network.
    /// A blocked name is answered synthetically without touching cache,
    /// pool or slots; a cache hit is answered from the cache; an uncached
    /// key joins its open slot or opens one toward the selected target.
    pub fn resolve_begin(&mut self, query: &Query, now: u64) -> (r: ResolveStep)
        requires
            old(self).wf(),
            query.wf(),
        ensures
            final(self).wf(),
            final(self).model() == begin_model(old(self).model(), query@, now),
            match r {
                ResolveStep::Blocked(a) => classify_model(old(self).filter@, query@.name)
                    is Block && a@ == blocked_answer_model(
                    query@,
                    old(self).config.sinkhole_model(),
                ),
                ResolveStep::Cached(a, t) => !(classify_model(old(self).filter@, query@.name)
                    is Block) && lookup_model(old(self).cache@, key_of_query(query@), now) == Some(
                    (a@, t),
                ),
                ResolveStep::Wait => {
                    &&& !(classify_model(old(self).filter@, query@.name) is Block)
                    &&& lookup_model(old(self).cache@, key_of_query(query@), now) is None
                    &&& find_flight(old(self).flights(), key_of_query(query@)) is Some
                },
                ResolveStep::Dispatch(t) => {
                    &&& !(classify_model(old(self).filter@, query@.name) is Block)
                    &&& lookup_model(old(self).cache@, key_of_query(query@), now) is None
                    &&& find_flight(old(self).flights(), key_of_query(query@)) is None
                    &&& best_target(old(self).pool@, old(self).pool.config, now) == Some(t as int)
                },
                ResolveStep::Fail(e) => {
                    &&& e == ResolveError::NoHealthyUpstream
                    &&& !(classify_model(old(self).filter@, query@.name) is Block)
                    &&& lookup_model(old(self).cache@, key_of_query(query@), now) is None
                    &&& find_flight(old(self).flights(), key_of_query(query@)) is None
                    &&& best_target(old(self).pool@, old(self).pool.config, now) is None
                },
            },
    {
        let classification = self.filter.classify(&query.name);
        if matches!(classification, Classification::Block) {
            self.stats.blocked = Self::bump(self.stats.blocked);
            let answer = make_blocked_answer(query, &self.config.sinkhole);
            return ResolveStep::Blocked(answer);
        }
        let key = query.key();
        let hit = self.cache.get(&key, now);
        match hit {
            Some((answer, remaining)) => {
                self.stats.cache_hits = Self::bump(self.stats.cache_hits);
                ResolveStep::Cached(answer, remaining)
            },
            None => {
                self.stats.cache_misses = Self::bump(self.stats.cache_misses);
                let open = self.find_flight_index(&key);
                match open {
                    Some(_) => ResolveStep::Wait,
                    None => {
                        let chosen = self.pool.select_target(now);
                        match chosen {
                            None => ResolveStep::Fail(ResolveError::NoHealthyUpstream),
                            Some(t) => {
                                proof {
                                    lemma_find_flight_none_keys(self.flights(), key@);
                                }
                                let ghost pre = self.flights();
                                self.in_flight.push(InFlight { key, target: t, attempts: 0 });
                                self.stats.dispatches = Self::bump(self.stats.dispatches);
                                proof {
                                    assert(self.flights() =~= pre.push(
                                        FlightModel {
                                            key: key_of_query(query@),
                                            target: t,
                                            attempts: 0,
                                        },
                                    ));
                                }
                                ResolveStep::Dispatch(t)
                            },
                        }
                    },
                }
            },
        }
    }

    /// Report a successful upstream exchange for a key: the target is
    /// marked healthy with the latency sample folded in, the answer is
    /// stored under the upstream time-to-live clamped into the configured
    /// range, and the single-flight slot is released. Without an open slot
    /// for the key nothing changes.
    pub fn resolve_success(
        &mut self,
        key: &QueryKey,
        answer: Answer,
        ttl: u64,
        latency_ms: u64,
        now: u64,
    ) -> (r: Option<u64>)
        requires
            old(self).wf(),
        ensures
            final(self).wf(),
            final(self).model() == success_model(
                old(self).model(),
                key@,
                answer@,
                ttl,
                latency_ms,
                now,
            ),
            (r is Some) == (find_flight(old(self).flights(), key@) is Some),
            r matches Some(t) ==> t == clamp_ttl(
                old(self).config.min_ttl,
                old(self).config.max_ttl,
                ttl,
            ),
    {
        let slot = self.find_flight_index(key);
        match slot {
            None => None,
            Some(s) => {
                let target = self.in_flight[s].target;
                assert(self.flights()[s as int].target == target);
                self.pool.record_success(target, latency_ms);
                let clamped = if ttl < self.config.min_ttl {
                    self.config.min_ttl
                } else if ttl > self.config.max_ttl {
                    self.config.max_ttl
                } else {
                    ttl
                };
                self.cache.put(key.duplicate(), answer, clamped, now);
                let ghost pre = self.flights();
                self.in_flight.remove(s);
                proof {
                    pre.remove_ensures(s as int);
                    assert(self.flights() =~= pre.remove(s as int));
                    let t = self.flights();
                    assert forall|a: int, b: int| 0 <= a < b < t.len() implies (
                    #[trigger] t[a]).key != (#[trigger] t[b]).key by {
                        if b < s {
                        } else if a < s {
                            assert(t[b] == pre[b + 1]);
                        } else {
                            assert(t[a] == pre[a + 1]);
                            assert(t[b] == pre[b + 1]);
                        }
                    }
                    assert forall|a: int| 0 <= a < t.len() implies (#[trigger] t[a]).target
                        < self.pool@.len() by {
                        if a < s {
                        } else {
                            assert(t[a] == pre[a + 1]);
                        }
                    }
                }
                Some(clamped)
            },
        }
    }

    /// Report a failed upstream exchange for a key: the target's failure
    /// is recorded (possibly downgrading its health), and within the retry
    /// budget the slot is redirected at the next best target, counting a
    /// new dispatch; otherwise the slot is released and the error is
    /// surfaced. Without an open slot for the key nothing changes.
    pub fn resolve_failure(&mut self, key: &QueryKey, error: UpstreamError, now: u64) -> (r:
        RetryStep)
        requires
            old(self).wf(),
        ensures
            final(self).wf(),
            final(self).model() == failure_model(old(self).model(), key@, now),
            match find_flight(old(self).flights(), key@) {
                None => r == RetryStep::GiveUp(crate::errors::error_of_upstream(error)),
                Some(s) => {
                    let fl = old(self).flights()[s];
                    let pool2 = old(self).pool@.update(
                        fl.target as int,
                        after_failure(old(self).pool@[fl.target as int], old(self).pool.config, now),
                    );
                    if fl.attempts < old(self).pool.config.retry_budget {
                        match best_target_except(pool2, old(self).pool.config, now, fl.target as int) {
                            Some(t2) => r == RetryStep::Retry(t2 as usize),
                            None => r == RetryStep::GiveUp(
                                crate::errors::error_of_upstream(error),
                            ),
                        }
                    } else {
                        r == RetryStep::GiveUp(crate::errors::error_of_upstream(error))
                    }
                },
            },
    {
        let slot = self.find_flight_index(key);
        match slot {
            None => RetryStep::GiveUp(crate::errors::resolve_error_of_upstream(error)),
            Some(s) => {
                let target = self.in_flight[s].target;
                let attempts = self.in_flight[s].attempts;
                proof {
                    lemma_find_flight_some(self.flights(), key@);
                }
                assert(self.flights()[s as int].target == target);
                self.pool.record_failure(target, now);
                if attempts < self.pool.config.retry_budget {
                    let chosen = self.pool.select_target_excluding(now, target);
                    match chosen {
                        Some(t2) => {
                            let replacement = InFlight {
                                key: key.duplicate(),
                                target: t2,
                                attempts: attempts + 1,
                            };
                            let ghost pre = self.flights();
                            self.in_flight.set(s, replacement);
                            self.stats.dispatches = Self::bump(self.stats.dispatches);
                            proof {
                                assert(self.flights() =~= pre.update(
                                    s as int,
                                    FlightModel {
                                        key: key@,
                                        target: t2,
                                        attempts: (attempts + 1) as u32,
                                    },
                                ));
                                assert(pre[s as int].key == key@);
                            }
                            RetryStep::Retry(t2)
                        },
                        None => {
                            self.remove_flight(s);
                            RetryStep::GiveUp(crate::errors::resolve_error_of_upstream(error))
                        },
                    }
                } else {
                    self.remove_flight(s);
                    RetryStep::GiveUp(crate::errors::resolve_error_of_upstream(error))
                }
            },
        }
    }

    /// Release the slot at index `s`.
    fn remove_flight(&mut self, s: usize)
        requires
            s < old(self).flights().len(),
            old(self).cache.wf(),
            old(self).pool.wf(),
            old(self).config.wf(),
            forall|i: int, j: int|
                0 <= i < j < old(self).flights().len() ==> (#[trigger] old(self).flights()[i]).key
                    != (#[trigger] old(self).flights()[j]).key,
            forall|i: int|
                0 <= i < old(self).flights().len() ==> (#[trigger] old(
                    self,
                ).flights()[i]).target < old(self).pool@.len(),
        ensures
            final(self).wf(),
            final(self).flights() == old(self).flights().remove(s as int),
            final(self).filter == old(self).filter,
            final(self).cache == old(self).cache,
            final(self).pool == old(self).pool,
            final(self).stats == old(self).stats,
            final(self).config == old(self).config,
    {
        let ghost pre = self.flights();
        self.in_flight.remove(s);
        proof {
            pre.remove_ensures(s as int);
            assert(self.flights() =~= pre.remove(s as int));
            let t = self.flights();
            assert forall|a: int, b: int| 0 <= a < b < t.len() implies (#[trigger] t[a]).key != (
            #[trigger] t[b]).key by {
                if b < s {
                } else if a < s {
                    assert(t[b] == pre[b + 1]);
                } else {
                    assert(t[a] == pre[a + 1]);
                    assert(t[b] == pre[b + 1]);
                }
            }
            assert forall|a: int| 0 <= a < t.len() implies (#[trigger] t[a]).target
                < self.pool@.len() by {
                if a >= s {
                    assert(t[a] == pre[a + 1]);
                }
            }
        }
    }
}

/// The state after `resolve_success` for key `k`: with an open slot, the
/// dispatched target is credited, the answer is cached under the clamped
/// time-to-live, and the slot closes; without one, nothing changes.
pub open spec fn success_model(
    m: ResolverModel,
    k: KeyModel,
    a: AnswerModel,
    ttl: u64,
    latency_ms: u64,
    now: u64,
) -> ResolverModel {
    match find_flight(m.in_flight, k) {
        None => m,
        Some(s) => {
            let fl = m.in_flight[s];
            let clamped = clamp_ttl(m.min_ttl, m.max_ttl, ttl);
            ResolverModel {
                pool: m.pool.update(
                    fl.target as int,
                    after_success(m.pool[fl.target as int], latency_ms),
                ),
                cache: after_put_model(
                    m.cache,
                    m.cache_cap,
                    EntryModel { key: k, answer: a, expires_at: sat_add(now, clamped) },
                ),
                in_flight: m.in_flight.remove(s),
                ..m
            }
        },
    }
}

/// The state after `resolve_failure` for key `k`: with an open slot, the
/// dispatched target is charged with the failure; within the retry budget
/// the slot is redirected at the best remaining target and a new dispatch
/// is counted, otherwise the slot closes. Without a slot, nothing changes.
pub open spec fn failure_model(m: ResolverModel, k: KeyModel, now: u64) -> ResolverModel {
    match find_flight(m.in_flight, k) {
        None => m,
        Some(s) => {
            let fl = m.in_flight[s];
            let pool2 = m.pool.update(
                fl.target as int,
                after_failure(m.pool[fl.target as int], m.pool_cfg, now),
            );
            if fl.attempts < m.pool_cfg.retry_budget {
                match best_target_except(pool2, m.pool_cfg, now, fl.target as int) {
                    Some(t2) => ResolverModel {
                        pool: pool2,
                        in_flight: m.in_flight.update(
                            s,
                            FlightModel {
                                key: k,
                                target: t2 as usize,
                                attempts: (fl.attempts + 1) as u32,
                            },
                        ),
                        stats: Stats { dispatches: sat_inc(m.stats.dispatches), ..m.stats },
                        ..m
                    },
                    None => ResolverModel { pool: pool2, in_flight: m.in_flight.remove(s), ..m },
                }
            } else {
                ResolverModel { pool: pool2, in_flight: m.in_flight.remove(s), ..m }
            }
        },
    }
}

/// A block-classified name never contacts the upstream pool: beginning
/// its resolution leaves the pool, the open slots, the dispatch counter
/// and the cache exactly as they were.
pub proof fn lemma_blocked_never_contacts_upstream(m: ResolverModel, q: QueryModel, now: u64)
    requires
        classify_model(m.rules, q.name) is Block,
    ensures
        begin_model(m, q, now).pool == m.pool,
        begin_model(m, q, now).in_flight == m.in_flight,
        begin_model(m, q, now).stats.dispatches == m.stats.dispatches,
        begin_model(m, q, now).cache == m.cache,
{
}

/// The state after `n` identical `resolve_begin` calls.
pub open spec fn iterate_begins(m: ResolverModel, q: QueryModel, now: u64, n: nat) -> ResolverModel
    decreases n,
{
    if n == 0 {
        m
    } else {
        begin_model(iterate_begins(m, q, now, (n - 1) as nat), q, now)
    }
}

proof fn lemma_single_flight_aux(m: ResolverModel, q: QueryModel, now: u64, n: nat)
    requires
        n >= 1,
        !(classify_model(m.rules, q.name) is Block),
        find_key(m.cache, key_of_query(q)) is None,
        find_flight(m.in_flight, key_of_query(q)) is None,
        best_target(m.pool, m.pool_cfg, now) is Some,
        m.stats.dispatches < u64::MAX,
    ensures
        ({
            let r = iterate_begins(m, q, now, n);
            &&& r.stats.dispatches == m.stats.dispatches + 1
            &&& r.rules == m.rules
            &&& r.cache == m.cache
            &&& r.pool == m.pool
            &&& find_flight(r.in_flight, key_of_query(q)) is Some
        }),
    decreases n,
{
    let k = key_of_query(q);
    if n == 1 {
        let m1 = begin_model(m, q, now);
        let t = best_target(m.pool, m.pool_cfg, now)->0;
        lemma_find_flight_none_keys(m.in_flight, k);
        lemma_find_flight_first(m1.in_flight, k, m.in_flight.len() as int);
    } else {
        lemma_single_flight_aux(m, q, now, (n - 1) as nat);
        let p = iterate_begins(m, q, now, (n - 1) as nat);
        assert(begin_model(p, q, now).in_flight == p.in_flight);
    }
}

/// Any number of concurrent identical `resolve_begin` calls for the same
/// uncached, unblocked key dispatch upstream exactly once: after `n >= 1`
/// such calls the dispatch counter has risen by exactly one, and later
/// calls join the single open slot.
pub proof fn lemma_single_flight(m: ResolverModel, q: QueryModel, now: u64, n: nat)
    requires
        n >= 1,
        !(classify_model(m.rules, q.name) is Block),
        find_key(m.cache, key_of_query(q)) is None,
        find_flight(m.in_flight, key_of_query(q)) is None,
        best_target(m.pool, m.pool_cfg, now) is Some,
        m.stats.dispatches < u64::MAX,
    ensures
        iterate_begins(m, q, now, n).stats.dispatches == m.stats.dispatches + 1,
{
    lemma_single_flight_aux(m, q, now, n);
}

} // verus!
