use pipeline::metrics::Metrics;
use pipeline::processor::{
    CostModel, DelayRange, DropReason, PacketDecoder, PacketInfo, TelemetryProcessor, Verdict,
};
use pipeline::telemetry::DecodeError;

fn record(id: u8) -> Vec<u8> {
    vec![0x82, 0xa2, b'i', b'd', id, 0xa3, b's', b'p', b'd', 0xcc, 200]
}

fn info(id: u32) -> PacketInfo {
    PacketInfo { packet_id: id, priority: 1, speed: None }
}

#[test]
fn over_budget_is_dropped() {
    let mut p = TelemetryProcessor::new(false);
    let mut m = Metrics::new();
    let v = p.finish(&mut m, record(9), info(9), 10_001);
    assert_eq!(
        v,
        Verdict::Dropped(DropReason::LatencyBudgetExceeded { packet_id: 9, latency_us: 10_001 })
    );
    assert_eq!((m.packets_processed(), m.packets_dropped()), (0, 1));
    assert_eq!(m.sample_count(), 1);
    assert_eq!(p.buffer_stats(), (0, 1000));
}

#[test]
fn within_budget_is_processed() {
    let mut p = TelemetryProcessor::new(false);
    let mut m = Metrics::new();
    let v = p.finish(&mut m, record(9), info(9), 10_000);
    assert_eq!(v, Verdict::Accepted { publish_sample: false, pause: false });
    assert_eq!((m.packets_processed(), m.packets_dropped()), (1, 0));
    assert_eq!(p.buffer_stats(), (1, 1000));
}

#[test]
fn every_tenth_accepted_is_sampled() {
    let mut p = TelemetryProcessor::new(false);
    let mut m = Metrics::new();
    let mut published = Vec::new();
    for i in 1..=35u32 {
        // drops in between do not count toward the sampling
        p.finish(&mut m, record(0), info(0), 50_000);
        if let Verdict::Accepted { publish_sample, .. } = p.finish(&mut m, record(1), info(i), 10) {
            if publish_sample {
                published.push(i);
            }
        }
    }
    assert_eq!(published, vec![10, 20, 30]);
}

#[test]
fn recency_buffer_keeps_newest_in_order() {
    let mut p = TelemetryProcessor::with_config(false, 10_000, 3, 10);
    let mut m = Metrics::new();
    for id in 1..=5u8 {
        p.finish(&mut m, record(id), info(id as u32), 1);
    }
    assert_eq!(p.buffer_stats(), (3, 3));
    assert_eq!(p.recent(0), &record(3));
    assert_eq!(p.recent(1), &record(4));
    assert_eq!(p.recent(2), &record(5));
}

#[test]
fn reclamation_pause_every_ten_thousand() {
    let mut p = TelemetryProcessor::new(true);
    let mut m = Metrics::new();
    let mut pauses = Vec::new();
    for i in 1..=20_000u32 {
        if let Verdict::Accepted { pause: true, .. } = p.finish(&mut m, vec![0x80], info(i), 1) {
            pauses.push(i);
        }
    }
    assert_eq!(pauses, vec![10_000, 20_000]);
    let mut q = TelemetryProcessor::new(false);
    for i in 1..=10_000u32 {
        assert!(!matches!(
            q.finish(&mut m, vec![0x80], info(i), 1),
            Verdict::Accepted { pause: true, .. }
        ));
    }
}

#[test]
fn decode_fields_reads_processing_inputs() {
    let p = TelemetryProcessor::new(true);
    assert_eq!(
        p.decode_fields(&record(7)),
        Ok(PacketInfo { packet_id: 7, priority: 1, speed: Some(200) })
    );
    let q = TelemetryProcessor::new(false);
    assert_eq!(
        q.decode_fields(&record(7)),
        Ok(PacketInfo { packet_id: 7, priority: 1, speed: None })
    );
    assert_eq!(q.decode_fields(&[0x80]), Err(DecodeError::FieldNotFound));
    assert_eq!(q.decode_fields(&[0x83]), Err(DecodeError::BufferUnderflow));
}

#[test]
fn reject_counts_dropped() {
    let p = TelemetryProcessor::new(false);
    let mut m = Metrics::new();
    p.reject(&mut m, 64);
    assert_eq!((m.packets_received(), m.packets_dropped(), m.sample_count()), (1, 1, 0));
}

#[test]
fn decode_raw_copies_without_corruption() {
    let d = PacketDecoder::new(false);
    let data = record(3);
    for _ in 0..2000 {
        assert_eq!(d.decode_raw(&data), Ok(data.clone()));
    }
}

#[test]
fn cost_formula() {
    assert_eq!(CostModel::cost_us(100, 300, false), 100);
    assert_eq!(CostModel::cost_us(100, 301, false), 200);
    assert_eq!(CostModel::cost_us(100, 301, true), 2000);
    assert_eq!(CostModel::cost_us(150, 10, true), 1500);
}

#[test]
fn drawn_cost_lies_in_tier_ranges() {
    let c = CostModel::new();
    assert_eq!(c.tier(0), DelayRange { lo: 50, hi: 150 });
    assert_eq!(c.tier(1), DelayRange { lo: 150, hi: 400 });
    assert_eq!(c.tier(7), DelayRange { lo: 400, hi: 800 });
    for _ in 0..500 {
        let r = c.draw_cost_us(0, 100);
        assert!((50..150).contains(&r) || (500..1500).contains(&r));
        let f = c.draw_cost_us(2, 350);
        assert!((800..1600).contains(&f) || (8000..16000).contains(&f));
    }
}

#[test]
fn configured_ranges_must_be_disjoint_and_ordered() {
    let r = |lo, hi| DelayRange { lo, hi };
    assert!(CostModel::with_ranges(r(10, 20), r(20, 30), r(30, 40)).is_some());
    assert!(CostModel::with_ranges(r(50, 200), r(100, 500), r(200, 800)).is_none());
    assert!(CostModel::with_ranges(r(10, 10), r(20, 30), r(30, 40)).is_none());
    assert!(CostModel::with_ranges(r(30, 40), r(20, 30), r(10, 20)).is_none());
}

#[test]
fn malformed_priority_or_speed_refuses_record() {
    let p = TelemetryProcessor::new(true);
    // {"id": 1, "p": "x"}
    let bad_priority = vec![0x82, 0xa2, b'i', b'd', 1, 0xa1, b'p', 0xa1, b'x'];
    assert_eq!(p.decode_fields(&bad_priority), Err(DecodeError::TypeMismatch));
    // {"id": 1, "spd": uint16 cut short}
    let bad_speed = vec![0x82, 0xa2, b'i', b'd', 1, 0xa3, b's', b'p', b'd', 0xcd, 0x01];
    assert_eq!(p.decode_fields(&bad_speed), Err(DecodeError::BufferUnderflow));
    // {"id": 1}: no speed, nothing to simulate
    let no_speed = vec![0x81, 0xa2, b'i', b'd', 1];
    assert_eq!(
        p.decode_fields(&no_speed),
        Ok(PacketInfo { packet_id: 1, priority: 1, speed: None })
    );
}
