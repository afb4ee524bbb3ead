use resolver_core::cache::Cache;
use resolver_core::errors::{error_rcode, ResolveError, UpstreamError};
use resolver_core::filter::{FilterEngine, FilterRule, PatternKind, RuleAction};
use resolver_core::message::{Answer, Record};
use resolver_core::query::Query;
use resolver_core::resolver::{
    Resolver, ResolverConfig, ResolveStep, RetryStep,
};
use resolver_core::upstream::{PoolConfig, Protocol, UpstreamPool};

fn make_resolver(rules: Vec<FilterRule>, n_targets: usize) -> Resolver {
    let mut filter = FilterEngine::new();
    filter.load_rules(rules);
    let mut pool = UpstreamPool::new(PoolConfig::new_default());
    for i in 0..n_targets {
        pool.add_target(format!("10.0.0.{}:53", i).into_bytes(), Protocol::Udp);
    }
    Resolver::new(filter, Cache::new(64), pool, ResolverConfig::new_default())
}

fn query(name: &str) -> Query {
    Query::new(&name.as_bytes().to_vec(), 1, 1, 0x1234, vec![]).expect("valid name")
}

fn block_rule(pattern: &str) -> FilterRule {
    FilterRule {
        pattern: pattern.as_bytes().to_vec(),
        kind: PatternKind::Suffix,
        action: RuleAction::Block,
        source_list: 1,
    }
}

fn answer(data: &[u8]) -> Answer {
    Answer {
        records: vec![Record { rtype: 1, rclass: 1, data: data.to_vec() }],
        rcode: 0,
        authoritative: false,
    }
}

#[test]
fn blocked_query_returns_nxdomain_without_upstream_contact() {
    let mut r = make_resolver(vec![block_rule("ads.example.com.")], 2);
    let q = query("ads.example.com");
    match r.resolve_begin(&q, 0) {
        ResolveStep::Blocked(a) => {
            assert_eq!(a.rcode, 3); // NXDOMAIN
            assert!(a.records.is_empty());
        },
        _ => panic!("expected a blocked response"),
    }
    let stats = r.stats_snapshot();
    assert_eq!(stats.dispatches, 0);
    assert_eq!(stats.blocked, 1);
    assert_eq!(stats.cache_hits, 0);
    assert_eq!(stats.cache_misses, 0);
    assert!(r.in_flight.is_empty());
}

#[test]
fn blocked_query_with_sinkhole_returns_sinkhole_record() {
    let mut r = make_resolver(vec![block_rule("ads.example.com.")], 1);
    r.config.sinkhole = Some(vec![0, 0, 0, 0]);
    let q = query("ads.example.com");
    match r.resolve_begin(&q, 0) {
        ResolveStep::Blocked(a) => {
            assert_eq!(a.rcode, 0);
            assert_eq!(a.records.len(), 1);
            assert_eq!(a.records[0].data, vec![0, 0, 0, 0]);
        },
        _ => panic!("expected a blocked response"),
    }
}

#[test]
fn miss_dispatch_store_then_cached_with_reduced_ttl() {
    let mut r = make_resolver(vec![block_rule("ads.example.com.")], 1);
    let q = query("example.com");
    let target = match r.resolve_begin(&q, 1000) {
        ResolveStep::Dispatch(t) => t,
        _ => panic!("expected a dispatch"),
    };
    assert_eq!(target, 0);
    assert_eq!(r.stats_snapshot().dispatches, 1);

    let stored = r.resolve_success(&q.key(), answer(&[93, 184, 216, 34]), 300, 12, 1000);
    assert_eq!(stored, Some(300));
    assert!(r.in_flight.is_empty());

    // a repeat query within the TTL is served from the cache, TTL reduced
    match r.resolve_begin(&q, 1100) {
        ResolveStep::Cached(a, remaining) => {
            assert_eq!(a.records[0].data, vec![93, 184, 216, 34]);
            assert_eq!(remaining, 200);
        },
        _ => panic!("expected a cache hit"),
    }
    assert_eq!(r.stats_snapshot().dispatches, 1);
    assert_eq!(r.stats_snapshot().cache_hits, 1);
}

#[test]
fn concurrent_identical_queries_dispatch_upstream_once() {
    let mut r = make_resolver(vec![], 2);
    let q = query("example.com");
    assert!(matches!(r.resolve_begin(&q, 0), ResolveStep::Dispatch(_)));
    assert!(matches!(r.resolve_begin(&q, 0), ResolveStep::Wait));
    assert!(matches!(r.resolve_begin(&q, 0), ResolveStep::Wait));
    assert_eq!(r.stats_snapshot().dispatches, 1);
    // a different key opens its own slot
    let q2 = query("other.example.com");
    assert!(matches!(r.resolve_begin(&q2, 0), ResolveStep::Dispatch(_)));
    assert_eq!(r.stats_snapshot().dispatches, 2);
}

#[test]
fn ttl_is_clamped_into_configured_range() {
    let mut r = make_resolver(vec![], 1);
    let q = query("tiny.example.com");
    assert!(matches!(r.resolve_begin(&q, 0), ResolveStep::Dispatch(_)));
    // default minimum is 60 s
    assert_eq!(r.resolve_success(&q.key(), answer(&[1]), 5, 1, 0), Some(60));

    let q2 = query("huge.example.com");
    assert!(matches!(r.resolve_begin(&q2, 0), ResolveStep::Dispatch(_)));
    // default maximum is 86400 s
    assert_eq!(r.resolve_success(&q2.key(), answer(&[2]), 1_000_000, 1, 0), Some(86400));
}

#[test]
fn empty_pool_fails_with_no_healthy_upstream() {
    let mut r = make_resolver(vec![], 0);
    let q = query("example.com");
    match r.resolve_begin(&q, 0) {
        ResolveStep::Fail(e) => assert_eq!(e, ResolveError::NoHealthyUpstream),
        _ => panic!("expected a failure"),
    }
    assert!(r.in_flight.is_empty());
}

#[test]
fn failure_within_budget_retries_another_target() {
    let mut r = make_resolver(vec![], 2);
    let q = query("example.com");
    let first = match r.resolve_begin(&q, 0) {
        ResolveStep::Dispatch(t) => t,
        _ => panic!("expected a dispatch"),
    };
    match r.resolve_failure(&q.key(), UpstreamError::Timeout, 0) {
        RetryStep::Retry(second) => assert_ne!(second, first),
        RetryStep::GiveUp(_) => panic!("expected a retry"),
    }
    assert_eq!(r.stats_snapshot().dispatches, 2);
    // the budget (one retry) is exhausted: the next failure surfaces
    match r.resolve_failure(&q.key(), UpstreamError::Timeout, 0) {
        RetryStep::GiveUp(e) => assert_eq!(e, ResolveError::UpstreamTimeout),
        RetryStep::Retry(_) => panic!("expected to give up"),
    }
    assert!(r.in_flight.is_empty());
}

#[test]
fn failure_kind_maps_to_matching_error() {
    let mut r = make_resolver(vec![], 1);
    let q = query("example.com");
    assert!(matches!(r.resolve_begin(&q, 0), ResolveStep::Dispatch(_)));
    // a retry must go to a different target, and none exists
    match r.resolve_failure(&q.key(), UpstreamError::Refused, 0) {
        RetryStep::GiveUp(e) => assert_eq!(e, ResolveError::UpstreamRefused),
        RetryStep::Retry(_) => panic!("expected to give up"),
    }
    assert!(r.in_flight.is_empty());
    assert_eq!(r.pool.targets[0].failures, 1);
}

#[test]
fn malformed_names_are_rejected() {
    assert!(Query::new(&b"".to_vec(), 1, 1, 0, vec![]).is_err());
    assert!(Query::new(&b"bad..name".to_vec(), 1, 1, 0, vec![]).is_err());
    assert!(Query::new(&b"spaces in name".to_vec(), 1, 1, 0, vec![]).is_err());
    let long_label = "a".repeat(64) + ".example.com";
    assert!(Query::new(&long_label.into_bytes(), 1, 1, 0, vec![]).is_err());
}

#[test]
fn names_are_canonicalized_lowercase_with_trailing_dot() {
    let q = Query::new(&b"WWW.Example.COM".to_vec(), 1, 1, 7, vec![]).expect("valid");
    assert_eq!(q.name, b"www.example.com.".to_vec());
    assert_eq!(q.txid, 7);
}

#[test]
fn error_rcodes_follow_the_wire_protocol() {
    assert_eq!(error_rcode(ResolveError::MalformedQuery), 1); // FORMERR
    assert_eq!(error_rcode(ResolveError::UpstreamTimeout), 2); // SERVFAIL
    assert_eq!(error_rcode(ResolveError::UpstreamRefused), 2); // SERVFAIL
    assert_eq!(error_rcode(ResolveError::NoHealthyUpstream), 2); // SERVFAIL
    assert_eq!(error_rcode(ResolveError::FilterBlocked), 3); // NXDOMAIN
}
