use orderbook::strategy::StrategyStats;
use orderbook::types::BookNotification;

#[test]
fn empty_stats() {
    let s = StrategyStats::new();
    assert_eq!(s.count, 0);
    assert_eq!(s.min_latency_ns, u64::MAX);
    assert_eq!(s.max_latency_ns, 0);
    assert_eq!(s.avg_latency_ns(), 0);
    assert_eq!(s.median(), 0);
    assert_eq!(s.percentile(9900), 0);
}

#[test]
fn record_tracks_extremes_and_mean() {
    let mut s = StrategyStats::new();
    for v in [30u64, 10, 50, 20] {
        s.record(v);
    }
    assert_eq!(s.count, 4);
    assert_eq!(s.total_latency_ns, 110);
    assert_eq!(s.min_latency_ns, 10);
    assert_eq!(s.max_latency_ns, 50);
    assert_eq!(s.avg_latency_ns(), 27);
    assert_eq!(s.latencies, vec![30, 10, 50, 20]);
}

#[test]
fn percentiles_from_sorted_samples() {
    let mut s = StrategyStats::new();
    for v in [9u64, 1, 8, 2, 7, 3, 6, 4, 5, 10] {
        s.record(v);
    }
    assert_eq!(s.median(), 5);
    assert_eq!(s.percentile(0), 1);
    assert_eq!(s.percentile(9000), 9);
    assert_eq!(s.percentile(9900), 9);
    assert_eq!(s.percentile(10000), 10);
    assert_eq!(s.percentile(u64::MAX), 10);
}

#[test]
fn notification_latency_saturates() {
    let mut s = StrategyStats::new();
    let n = BookNotification { update_timestamp: 1, engine_send_ns: 100, best_bid: None, best_ask: None, seq: 1 };
    assert_eq!(s.record_notification(&n, 250), 150);
    assert_eq!(s.record_notification(&n, 40), 0);
    assert_eq!(s.latencies, vec![150, 0]);
    assert_eq!(s.min_latency_ns, 0);
}
