use pipeline::metrics::{LatencyStats, Metrics};

#[test]
fn latency_stats_of_five_samples() {
    let mut m = Metrics::new();
    for us in [3000u64, 1000, 5000, 2000, 4000] {
        m.add_latency(us);
    }
    let s = m.latency_stats();
    assert_eq!(
        s,
        LatencyStats { count: 5, sum_us: 15000, median_low_us: 3000, median_high_us: 3000, p99_us: 5000 }
    );
    // mean 3 ms, median 3 ms, p99 5 ms
    assert_eq!(s.sum_us / s.count as u128, 3000);
}

#[test]
fn latency_stats_even_count_and_empty() {
    let mut m = Metrics::new();
    assert_eq!(
        m.latency_stats(),
        LatencyStats { count: 0, sum_us: 0, median_low_us: 0, median_high_us: 0, p99_us: 0 }
    );
    for us in [40u64, 10, 30, 20] {
        m.add_latency(us);
    }
    let s = m.latency_stats();
    assert_eq!((s.median_low_us, s.median_high_us), (20, 30));
    assert_eq!(s.p99_us, 40);
}

#[test]
fn p99_of_two_hundred_samples() {
    let mut m = Metrics::new();
    for us in 1..=200u64 {
        m.add_latency(us);
    }
    // index min(floor(0.99 * 200), 199) = 198
    assert_eq!(m.latency_stats().p99_us, 199);
}

#[test]
fn window_evicts_oldest() {
    let mut m = Metrics::with_window(3);
    for us in [1u64, 2, 3, 4, 5] {
        m.add_latency(us);
    }
    assert_eq!(m.sample_count(), 3);
    assert_eq!(m.sorted_latencies(), vec![3, 4, 5]);
    let mut d = Metrics::new();
    for us in 0..1500u64 {
        d.add_latency(us);
    }
    assert_eq!(d.sample_count(), 1000);
}

#[test]
fn loss_rate_values() {
    let m = Metrics::new();
    assert_eq!(m.packet_loss_rate(), 0);
    let mut m = Metrics::new();
    m.record_undecodable(100);
    for _ in 0..9 {
        m.record_processed(100, 50);
    }
    assert_eq!(m.packets_received(), 10);
    assert_eq!(m.packets_dropped(), 1);
    // 10.00 %
    assert_eq!(m.packet_loss_rate(), 1000);
    assert_eq!(m.bytes_received(), 1000);
}

#[test]
fn counters_account_for_every_datagram() {
    let mut m = Metrics::new();
    m.record_processed(10, 100);
    m.record_late(20, 20_000);
    m.record_undecodable(30);
    assert_eq!(m.packets_received(), 3);
    assert_eq!(m.packets_processed(), 1);
    assert_eq!(m.packets_dropped(), 2);
    assert_eq!(m.bytes_received(), 60);
    assert_eq!(m.sample_count(), 2);
}

#[test]
fn assessment_thresholds() {
    let mut m = Metrics::new();
    assert!(m.meets_requirements());
    for _ in 0..1000 {
        m.record_processed(10, 9_999);
    }
    assert!(m.meets_requirements());
    m.record_undecodable(10);
    // 1 in 1001 is under 0.1 %
    assert!(m.meets_requirements());
    m.record_undecodable(10);
    assert!(!m.meets_requirements());
    let mut slow = Metrics::new();
    slow.record_processed(10, 10_000);
    assert!(!slow.meets_requirements());
}

#[test]
fn throughput_per_second() {
    let mut m = Metrics::new();
    for _ in 0..5 {
        m.record_processed(1, 1);
    }
    assert_eq!(m.throughput_pps(0), 0);
    assert_eq!(m.throughput_pps(2_000_000), 2);
    assert_eq!(m.throughput_pps(500_000), 10);
}

#[test]
fn p99_of_single_sample_is_that_sample() {
    let mut m = Metrics::new();
    m.add_latency(777);
    let s = m.latency_stats();
    assert_eq!((s.count, s.median_low_us, s.median_high_us, s.p99_us), (1, 777, 777, 777));
}
