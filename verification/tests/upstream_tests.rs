use resolver_core::upstream::{Health, PoolConfig, Protocol, UpstreamPool};

fn pool_with(n: usize) -> UpstreamPool {
    let mut pool = UpstreamPool::new(PoolConfig::new_default());
    for i in 0..n {
        pool.add_target(format!("10.0.0.{}:53", i).into_bytes(), Protocol::Udp);
    }
    pool
}

#[test]
fn empty_pool_selects_nothing() {
    let pool = pool_with(0);
    assert!(pool.select_target(0).is_none());
}

#[test]
fn healthy_target_with_lowest_latency_wins() {
    let mut pool = pool_with(3);
    pool.record_success(0, 80);
    pool.record_success(1, 16);
    pool.record_success(2, 40);
    assert_eq!(pool.select_target(0), Some(1));
}

#[test]
fn failures_cross_threshold_healthy_to_unhealthy_until_cooldown() {
    let mut pool = pool_with(1);
    assert_eq!(pool.targets[0].health, Health::Healthy);
    pool.record_failure(0, 100);
    pool.record_failure(0, 100);
    assert_eq!(pool.targets[0].health, Health::Degraded);
    pool.record_failure(0, 100);
    pool.record_failure(0, 100);
    pool.record_failure(0, 100);
    assert_eq!(pool.targets[0].health, Health::Unhealthy);
    // excluded while the cooldown (30 s, started at the downgrade) runs
    assert!(pool.select_target(100).is_none());
    assert!(pool.select_target(129).is_none());
    // offered again once the cooldown has elapsed
    assert_eq!(pool.select_target(130), Some(0));
}

#[test]
fn degraded_is_fallback_when_no_healthy_target_exists() {
    let mut pool = pool_with(2);
    pool.record_failure(0, 0);
    pool.record_failure(0, 0);
    assert_eq!(pool.targets[0].health, Health::Degraded);
    // target 1 is still healthy and wins despite equal latency
    assert_eq!(pool.select_target(0), Some(1));
    // degrade the other too: the degraded tier is now the best available
    pool.record_failure(1, 0);
    pool.record_failure(1, 0);
    assert_eq!(pool.targets[1].health, Health::Degraded);
    assert_eq!(pool.select_target(0), Some(0));
}

#[test]
fn success_resets_failures_and_health() {
    let mut pool = pool_with(1);
    for _ in 0..5 {
        pool.record_failure(0, 0);
    }
    assert_eq!(pool.targets[0].health, Health::Unhealthy);
    pool.record_success(0, 24);
    assert_eq!(pool.targets[0].health, Health::Healthy);
    assert_eq!(pool.targets[0].failures, 0);
    assert_eq!(pool.targets[0].latency_ms, 3);
}

#[test]
fn rolling_latency_mixes_old_and_new() {
    let mut pool = pool_with(1);
    pool.record_success(0, 80);
    assert_eq!(pool.targets[0].latency_ms, 10);
    pool.record_success(0, 80);
    // 10 - 10/8 + 80/8 = 10 - 1 + 10
    assert_eq!(pool.targets[0].latency_ms, 19);
}
