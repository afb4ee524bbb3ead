//! Upstream pool: health-tracked upstream resolvers and selection.
//!
//! Each target carries an explicit health state driven by its consecutive
//! failure count: reaching the degraded threshold moves it to `Degraded`,
//! reaching the unhealthy threshold to `Unhealthy`; any success resets it
//! to `Healthy`. An `Unhealthy` target is excluded from selection until its
//! cooldown has elapsed, after which it may be probed again. Selection is
//! deterministic: the best available tier wins, and within a tier the
//! target with the lowest rolling latency, earliest index on a tie.

use vstd::prelude::*;

verus! {

/// Health state of one upstream target.
#[derive(Clone, Copy, PartialEq, Eq, Structural, Debug)]
pub enum Health {
    Healthy,
    Degraded,
    Unhealthy,
}

/// Transport used to reach an upstream target.
#[derive(Clone, Copy, PartialEq, Eq, Structural, Debug)]
pub enum Protocol {
    Udp,
    Tcp,
    Tls,
    Https,
}

/// One configured upstream resolver.
pub struct UpstreamTarget {
    pub address: Vec<u8>,
    pub protocol: Protocol,
    pub health: Health,
    pub failures: u32,
    pub latency_ms: u64,
    pub unhealthy_since: u64,
}

/// Mathematical image of an `UpstreamTarget`.
pub struct TargetModel {
    pub address: Seq<u8>,
    pub protocol: Protocol,
    pub health: Health,
    pub failures: u32,
    pub latency_ms: u64,
    pub unhealthy_since: u64,
}

impl View for UpstreamTarget {
    type V = TargetModel;

    open spec fn view(&self) -> TargetModel {
        TargetModel {
            address: self.address@,
            protocol: self.protocol,
            health: self.health,
            failures: self.failures,
            latency_ms: self.latency_ms,
            unhealthy_since: self.unhealthy_since,
        }
    }
}

/// Health thresholds, cooldown and retry budget of the pool.
#[derive(Clone, Copy, PartialEq, Eq, Structural, Debug)]
pub struct PoolConfig {
    /// Consecutive failures at which a target becomes `Degraded`.
    pub degraded_after: u32,
    /// Consecutive failures at which a target becomes `Unhealthy`.
    pub unhealthy_after: u32,
    /// Seconds an `Unhealthy` target is excluded before it may be probed.
    pub cooldown: u64,
    /// Additional attempts against other targets after a failed exchange.
    pub retry_budget: u32,
    /// Seconds allowed for one upstream exchange.
    pub query_timeout: u64,
}

impl PoolConfig {
    /// Thresholds must be ordered and meaningful.
    pub open spec fn wf(&self) -> bool {
        1 <= self.degraded_after <= self.unhealthy_after
    }

    /// Reasonable defaults; every value is a parameter, not a fixed rule.
    pub fn new_default() -> (c: PoolConfig)
        ensures
            c.wf(),
            c.degraded_after == 2,
            c.unhealthy_after == 5,
            c.cooldown == 30,
            c.retry_budget == 1,
            c.query_timeout == 5,
    {
        PoolConfig {
            degraded_after: 2,
            unhealthy_after: 5,
            cooldown: 30,
            retry_budget: 1,
            query_timeout: 5,
        }
    }
}

/// The health state a consecutive-failure count puts a target in.
pub open spec fn health_for(failures: u32, cfg: PoolConfig) -> Health {
    if failures >= cfg.unhealthy_after {
        Health::Unhealthy
    } else if failures >= cfg.degraded_after {
        Health::Degraded
    } else {
        Health::Healthy
    }
}

/// A target after one more failed exchange at instant `now`.
pub open spec fn after_failure(t: TargetModel, cfg: PoolConfig, now: u64) -> TargetModel {
    let f = if t.failures < u32::MAX {
        (t.failures + 1) as u32
    } else {
        t.failures
    };
    let h = health_for(f, cfg);
    TargetModel {
        health: h,
        failures: f,
        unhealthy_since: if h is Unhealthy && !(t.health is Unhealthy) {
            now
        } else {
            t.unhealthy_since
        },
        ..t
    }
}

/// The rolling latency estimate after a new sample: seven eighths of the
/// old value plus one eighth of the sample.
pub open spec fn rolled_latency(old_ms: u64, sample_ms: u64) -> u64 {
    ((old_ms - old_ms / 8) + sample_ms / 8) as u64
}

/// A target after one successful exchange with the given latency sample.
pub open spec fn after_success(t: TargetModel, sample_ms: u64) -> TargetModel {
    TargetModel {
        health: Health::Healthy,
        failures: 0,
        latency_ms: rolled_latency(t.latency_ms, sample_ms),
        ..t
    }
}

/// The selection tier of a target: healthy targets first, degraded next,
/// unhealthy ones only once their cooldown has elapsed, and never before.
pub open spec fn tier(t: TargetModel, cfg: PoolConfig, now: u64) -> int {
    match t.health {
        Health::Healthy => 0,
        Health::Degraded => 1,
        Health::Unhealthy => if now >= t.unhealthy_since + cfg.cooldown {
            2
        } else {
            3
        },
    }
}

/// Whether a target may be handed out by selection at instant `now`.
pub open spec fn selectable(t: TargetModel, cfg: PoolConfig, now: u64) -> bool {
    tier(t, cfg, now) <= 2
}

/// Whether target `a` is strictly preferable to target `b`.
pub open spec fn preferred(a: TargetModel, b: TargetModel, cfg: PoolConfig, now: u64) -> bool {
    ||| tier(a, cfg, now) < tier(b, cfg, now)
    ||| (tier(a, cfg, now) == tier(b, cfg, now) && a.latency_ms < b.latency_ms)
}

/// The index selection returns on a pool state: the earliest target of the
/// best tier and lowest rolling latency, or nothing when no target is
/// selectable.
pub open spec fn best_target(s: Seq<TargetModel>, cfg: PoolConfig, now: u64) -> Option<int>
    decreases s.len(),
{
    if s.len() == 0 {
        None
    } else {
        let prev = best_target(s.drop_last(), cfg, now);
        let last = s[s.len() - 1];
        if !selectable(last, cfg, now) {
            prev
        } else {
            match prev {
                None => Some(s.len() - 1),
                Some(p) => if preferred(last, s[p], cfg, now) {
                    Some(s.len() - 1)
                } else {
                    Some(p)
                },
            }
        }
    }
}

/// The index selection returns when one target is excluded: the best
/// selectable target other than `banned`, used to retry against a
/// different target than the one that just failed.
pub open spec fn best_target_except(
    s: Seq<TargetModel>,
    cfg: PoolConfig,
    now: u64,
    banned: int,
) -> Option<int>
    decreases s.len(),
{
    if s.len() == 0 {
        None
    } else {
        let prev = best_target_except(s.drop_last(), cfg, now, banned);
        let last = s[s.len() - 1];
        if s.len() - 1 == banned || !selectable(last, cfg, now) {
            prev
        } else {
            match prev {
                None => Some(s.len() - 1),
                Some(p) => if preferred(last, s[p], cfg, now) {
                    Some(s.len() - 1)
                } else {
                    Some(p)
                },
            }
        }
    }
}

/// Whatever selection returns is in range and selectable.
pub proof fn lemma_best_target_selectable(s: Seq<TargetModel>, cfg: PoolConfig, now: u64)
    ensures
        best_target(s, cfg, now) matches Some(i) ==> 0 <= i < s.len() && selectable(
            s[i],
            cfg,
            now,
        ),
    decreases s.len(),
{
    if s.len() > 0 {
        lemma_best_target_selectable(s.drop_last(), cfg, now);
    }
}

/// An unhealthy target still in cooldown is never selected.
pub proof fn lemma_unhealthy_excluded(s: Seq<TargetModel>, cfg: PoolConfig, now: u64, i: int)
    requires
        0 <= i < s.len(),
        s[i].health is Unhealthy,
        now < s[i].unhealthy_since + cfg.cooldown,
    ensures
        best_target(s, cfg, now) != Some(i),
{
    lemma_best_target_selectable(s, cfg, now);
}

/// A target whose consecutive failures reach the unhealthy threshold moves
/// to `Unhealthy` at that instant and is excluded from selection until its
/// cooldown has elapsed.
pub proof fn lemma_failure_threshold_excludes(
    s: Seq<TargetModel>,
    cfg: PoolConfig,
    i: int,
    now: u64,
    later: u64,
)
    requires
        0 <= i < s.len(),
        s[i].failures < u32::MAX,
        s[i].failures + 1 >= cfg.unhealthy_after,
        !(s[i].health is Unhealthy),
        later < now + cfg.cooldown,
        now <= later,
    ensures
        after_failure(s[i], cfg, now).health is Unhealthy,
        after_failure(s[i], cfg, now).unhealthy_since == now,
        best_target(s.update(i, after_failure(s[i], cfg, now)), cfg, later) != Some(i),
{
    let t2 = after_failure(s[i], cfg, now);
    let s2 = s.update(i, t2);
    lemma_unhealthy_excluded(s2, cfg, later, i);
}

/// The set of configured upstream resolvers with their health state.
pub struct UpstreamPool {
    pub targets: Vec<UpstreamTarget>,
    pub config: PoolConfig,
}

impl View for UpstreamPool {
    type V = Seq<TargetModel>;

    open spec fn view(&self) -> Seq<TargetModel> {
        self.targets@.map_values(|t: UpstreamTarget| t@)
    }
}

impl UpstreamPool {
    /// The pool invariant: sound thresholds.
    pub open spec fn wf(&self) -> bool {
        self.config.wf()
    }

    /// An empty pool under the given configuration; unsound thresholds are
    /// replaced by the defaults.
    pub fn new(config: PoolConfig) -> (p: UpstreamPool)
        ensures
            p.wf(),
            p@ == Seq::<TargetModel>::empty(),
            config.wf() ==> p.config == config,
    {
        let cfg = if 1 <= config.degraded_after && config.degraded_after <= config.unhealthy_after {
            config
        } else {
            PoolConfig::new_default()
        };
        let p = UpstreamPool { targets: Vec::new(), config: cfg };
        proof {
            assert(p@ =~= Seq::<TargetModel>::empty());
        }
        p
    }

    /// Add a fresh target: healthy, no failures, zero latency estimate.
    pub fn add_target(&mut self, address: Vec<u8>, protocol: Protocol)
        requires
            old(self).wf(),
        ensures
            final(self).wf(),
            final(self).config == old(self).config,
            final(self)@ == old(self)@.push(
                TargetModel {
                    address: address@,
                    protocol: protocol,
                    health: Health::Healthy,
                    failures: 0,
                    latency_ms: 0,
                    unhealthy_since: 0,
                },
            ),
    {
        self.targets.push(
            UpstreamTarget {
                address,
                protocol,
                health: Health::Healthy,
                failures: 0,
                latency_ms: 0,
                unhealthy_since: 0,
            },
        );
        proof {
            assert(self@ =~= old(self)@.push(
                TargetModel {
                    address: address@,
                    protocol: protocol,
                    health: Health::Healthy,
                    failures: 0,
                    latency_ms: 0,
                    unhealthy_since: 0,
                },
            ));
        }
    }

    /// The number of configured targets.
    pub fn len(&self) -> (n: usize)
        ensures
            n == self@.len(),
    {
        self.targets.len()
    }

    /// Record a failed exchange against target `i` at instant `now`: the
    /// consecutive-failure count rises and may downgrade the target's
    /// health; on the step into `Unhealthy` the cooldown clock starts.
    pub fn record_failure(&mut self, i: usize, now: u64)
        requires
            old(self).wf(),
            i < old(self)@.len(),
        ensures
            final(self).wf(),
            final(self).config == old(self).config,
            final(self)@ == old(self)@.update(
                i as int,
                after_failure(old(self)@[i as int], old(self).config, now),
            ),
            old(self)@[i as int].failures + 1 >= old(self).config.unhealthy_after
                ==> final(self)@[i as int].health is Unhealthy,
    {
        let t = &self.targets[i];
        let failures = if t.failures < u32::MAX {
            t.failures + 1
        } else {
            t.failures
        };
        let health = if failures >= self.config.unhealthy_after {
            Health::Unhealthy
        } else if failures >= self.config.degraded_after {
            Health::Degraded
        } else {
            Health::Healthy
        };
        let unhealthy_since = if matches!(health, Health::Unhealthy) && !matches!(
            t.health,
            Health::Unhealthy,
        ) {
            now
        } else {
            t.unhealthy_since
        };
        let address = crate::query::copy_bytes(&t.address);
        let updated = UpstreamTarget {
            address,
            protocol: t.protocol,
            health,
            failures,
            latency_ms: t.latency_ms,
            unhealthy_since,
        };
        self.targets.set(i, updated);
        proof {
            assert(self@ =~= old(self)@.update(
                i as int,
                after_failure(old(self)@[i as int], old(self).config, now),
            ));
        }
    }

    /// Record a successful exchange against target `i`: the target is
    /// healthy again, its failure count clears, and the latency sample is
    /// folded into the rolling estimate.
    pub fn record_success(&mut self, i: usize, latency_ms: u64)
        requires
            old(self).wf(),
            i < old(self)@.len(),
        ensures
            final(self).wf(),
            final(self).config == old(self).config,
            final(self)@ == old(self)@.update(
                i as int,
                after_success(old(self)@[i as int], latency_ms),
            ),
            final(self)@[i as int].health is Healthy,
    {
        let t = &self.targets[i];
        let old_lat = t.latency_ms;
        let latency = (old_lat - old_lat / 8) + latency_ms / 8;
        let address = crate::query::copy_bytes(&t.address);
        let updated = UpstreamTarget {
            address,
            protocol: t.protocol,
            health: Health::Healthy,
            failures: 0,
            latency_ms: latency,
            unhealthy_since: t.unhealthy_since,
        };
        self.targets.set(i, updated);
        proof {
            assert(self@ =~= old(self)@.update(
                i as int,
                after_success(old(self)@[i as int], latency_ms),
            ));
        }
    }

    /// Select the target a query should be sent to at instant `now`:
    /// healthy targets are preferred, degraded ones are the fallback, and
    /// an unhealthy target is offered only once its cooldown has elapsed;
    /// within a tier the lowest rolling latency wins, earliest index on a
    /// tie. `None` means no target may currently be used.
    pub fn select_target(&self, now: u64) -> (r: Option<usize>)
        ensures
            match r {
                Some(i) => 0 <= i < self@.len() && best_target(self@, self.config, now) == Some(
                    i as int,
                ),
                None => best_target(self@, self.config, now) is None,
            },
    {
        let mut best: Option<usize> = None;
        let mut i: usize = 0;
        proof {
            assert(self@.subrange(0, 0) =~= Seq::<TargetModel>::empty());
        }
        while i < self.targets.len()
            invariant
                i <= self.targets@.len(),
                self@.len() == self.targets@.len(),
                forall|j: int| 0 <= j < self@.len() ==> #[trigger] self@[j] == self.targets@[j]@,
                match best {
                    None => best_target(self@.subrange(0, i as int), self.config, now) is None,
                    Some(b) => b < i && best_target(self@.subrange(0, i as int), self.config, now)
                        == Some(b as int),
                },
            decreases self.targets.len() - i,
        {
            let t = &self.targets[i];
            proof {
                assert(self@.subrange(0, i as int + 1).drop_last() =~= self@.subrange(0, i as int));
                assert(self@.subrange(0, i as int + 1)[i as int] == self@[i as int]);
            }
            let usable = match t.health {
                Health::Healthy => true,
                Health::Degraded => true,
                Health::Unhealthy => t.unhealthy_since <= u64::MAX - self.config.cooldown && now
                    >= t.unhealthy_since + self.config.cooldown,
            };
            if usable {
                match best {
                    None => {
                        best = Some(i);
                    },
                    Some(b) => {
                        let bt = &self.targets[b];
                        let t_tier = target_tier(t, &self.config, now);
                        let b_tier = target_tier(bt, &self.config, now);
                        if t_tier < b_tier || (t_tier == b_tier && t.latency_ms < bt.latency_ms) {
                            best = Some(i);
                        }
                    },
                }
            }
            i = i + 1;
        }
        proof {
            assert(self@.subrange(0, self@.len() as int) =~= self@);
        }
        best
    }
    /// Select as `select_target` does, but never the `banned` target: the
    /// choice for a retry after `banned` just failed.
    pub fn select_target_excluding(&self, now: u64, banned: usize) -> (r: Option<usize>)
        ensures
            match r {
                Some(i) => 0 <= i < self@.len() && best_target_except(
                    self@,
                    self.config,
                    now,
                    banned as int,
                ) == Some(i as int),
                None => best_target_except(self@, self.config, now, banned as int) is None,
            },
    {
        let mut best: Option<usize> = None;
        let mut i: usize = 0;
        proof {
            assert(self@.subrange(0, 0) =~= Seq::<TargetModel>::empty());
        }
        while i < self.targets.len()
            invariant
                i <= self.targets@.len(),
                self@.len() == self.targets@.len(),
                forall|j: int| 0 <= j < self@.len() ==> #[trigger] self@[j] == self.targets@[j]@,
                match best {
                    None => best_target_except(
                        self@.subrange(0, i as int),
                        self.config,
                        now,
                        banned as int,
                    ) is None,
                    Some(b) => b < i && best_target_except(
                        self@.subrange(0, i as int),
                        self.config,
                        now,
                        banned as int,
                    ) == Some(b as int),
                },
            decreases self.targets.len() - i,
        {
            let t = &self.targets[i];
            proof {
                assert(self@.subrange(0, i as int + 1).drop_last() =~= self@.subrange(0, i as int));
                assert(self@.subrange(0, i as int + 1)[i as int] == self@[i as int]);
            }
            let usable = i != banned && match t.health {
                Health::Healthy => true,
                Health::Degraded => true,
                Health::Unhealthy => t.unhealthy_since <= u64::MAX - self.config.cooldown && now
                    >= t.unhealthy_since + self.config.cooldown,
            };
            if usable {
                match best {
                    None => {
                        best = Some(i);
                    },
                    Some(b) => {
                        let bt = &self.targets[b];
                        let t_tier = target_tier(t, &self.config, now);
                        let b_tier = target_tier(bt, &self.config, now);
                        if t_tier < b_tier || (t_tier == b_tier && t.latency_ms < bt.latency_ms) {
                            best = Some(i);
                        }
                    },
                }
            }
            i = i + 1;
        }
        proof {
            assert(self@.subrange(0, self@.len() as int) =~= self@);
        }
        best
    }
}

/// The selection tier of one target at instant `now`.
fn target_tier(t: &UpstreamTarget, cfg: &PoolConfig, now: u64) -> (r: u8)
    ensures
        r == tier(t@, *cfg, now),
{
    match t.health {
        Health::Healthy => 0,
        Health::Degraded => 1,
        Health::Unhealthy => {
            if t.unhealthy_since <= u64::MAX - cfg.cooldown && now >= t.unhealthy_since
                + cfg.cooldown {
                2
            } else {
                3
            }
        },
    }
}

} // verus!
