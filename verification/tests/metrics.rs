use olwsx::observability::metrics::{
    counter, encode_wire, gauge, summary, LatencyHistogram, MetricEnvelope, MetricKind, LAT_BOUNDS,
};

#[test]
fn test_hist() {
    let mut h = LatencyHistogram::new();
    for ms in [3u64, 7, 12, 55, 180, 240, 510].iter() {
        h.observe_ms(*ms);
    }
    assert!(h.p90() >= 240);
    let env = h.export("latency", &[("route", "/hello"), ("method", "GET")]);
    let wire = encode_wire(&env);
    assert!(wire.len() > 16);
}

#[test]
fn test_counter_encode() {
    let env = counter("requests_total", 1, &[("tenant", "default")]);
    let wire = encode_wire(&env);
    assert_eq!(wire[8 + 2 + "requests_total".len() + 2 + (2 + 6 + 2 + 7)], 1u8);
}

#[test]
fn histogram_starts_empty() {
    let h = LatencyHistogram::new();
    assert_eq!(h.count(), 0);
    assert_eq!(h.sum_ms(), 0);
    assert_eq!(h.p50(), 0);
    assert_eq!(h.p90(), 0);
    assert_eq!(h.p99(), 0);
    match h.export("latency", &[]).kind {
        MetricKind::LatencyHist { bins } => assert_eq!(bins, [0u64; 16]),
        _ => panic!("expected a histogram"),
    }
}

#[test]
fn histogram_counts_each_observation_in_its_bin() {
    let mut h = LatencyHistogram::new();
    for ms in [0u64, 5, 6, 10, 11, 300, 301, 600, 601, u64::MAX / 2].iter() {
        h.observe_ms(*ms);
    }
    assert_eq!(h.count(), 10);
    assert_eq!(h.sum_ms(), 5 + 6 + 10 + 11 + 300 + 301 + 600 + 601 + u64::MAX / 2);
    match h.export("latency", &[]).kind {
        MetricKind::LatencyHist { bins } => {
            assert_eq!(bins, [2, 2, 1, 0, 0, 0, 0, 0, 0, 0, 0, 0, 1, 1, 1, 2]);
        }
        _ => panic!("expected a histogram"),
    }
}

#[test]
fn histogram_quantiles_are_bin_bounds() {
    let mut h = LatencyHistogram::new();
    for ms in [3u64, 7, 12, 55, 180, 240, 510].iter() {
        h.observe_ms(*ms);
    }
    // Ranks: 4 of 7 for the median, 7 of 7 for the others.
    assert_eq!(h.p50(), 60);
    assert_eq!(h.p90(), 600);
    assert_eq!(h.p99(), 600);
    assert_eq!(h.quantile_pct(0), 0);
    assert_eq!(h.quantile_pct(1), 5);
    assert_eq!(h.quantile_pct(14), 5);
    assert_eq!(h.quantile_pct(15), 10);
    assert_eq!(h.quantile_pct(100), 600);
    assert_eq!(h.quantile_pct(101), u64::MAX);
    assert_eq!(h.count(), 7);
    assert_eq!(h.sum_ms(), 1007);
}

#[test]
fn histogram_quantile_of_one_observation() {
    let mut h = LatencyHistogram::new();
    h.observe_ms(1_000);
    assert_eq!(h.p50(), u64::MAX);
    assert_eq!(h.p99(), LAT_BOUNDS[15]);
    let mut g = LatencyHistogram::new();
    g.observe_ms(25);
    assert_eq!(g.p50(), 30);
    assert_eq!(g.p90(), 30);
}

#[test]
fn envelopes_keep_name_labels_and_kind() {
    let c = counter("requests_total", 3, &[("tenant", "default")]);
    assert_eq!(c.name, "requests_total");
    assert_eq!(c.labels, &[("tenant", "default")]);
    match c.kind {
        MetricKind::Counter { delta } => assert_eq!(delta, 3),
        _ => panic!("expected a counter"),
    }
    let g = gauge("queue_depth", -4, &[]);
    assert_eq!(g.name, "queue_depth");
    assert_eq!(g.labels.len(), 0);
    match g.kind {
        MetricKind::Gauge { value } => assert_eq!(value, -4),
        _ => panic!("expected a gauge"),
    }
    let s = summary("bytes", 2, 700, &[("a", "b"), ("c", "d")]);
    assert_eq!(s.labels.len(), 2);
    match s.kind {
        MetricKind::Summary { count, sum } => {
            assert_eq!(count, 2);
            assert_eq!(sum, 700);
        }
        _ => panic!("expected a summary"),
    }
    // Stamped after the year 2001.
    assert!(c.ts_ms > 1_000_000_000_000);
}

#[test]
fn counter_wire_layout() {
    let env = MetricEnvelope {
        ts_ms: 0x0102_0304_0506_0708,
        name: "requests_total",
        labels: &[("tenant", "default")],
        kind: MetricKind::Counter { delta: 1 },
    };
    let mut want: Vec<u8> = vec![1, 2, 3, 4, 5, 6, 7, 8];
    want.extend_from_slice(&[0, 14]);
    want.extend_from_slice(b"requests_total");
    want.extend_from_slice(&[0, 1]);
    want.extend_from_slice(&[0, 6]);
    want.extend_from_slice(b"tenant");
    want.extend_from_slice(&[0, 7]);
    want.extend_from_slice(b"default");
    want.push(1);
    want.extend_from_slice(&[0, 0, 0, 0, 0, 0, 0, 1]);
    assert_eq!(encode_wire(&env), want);
    assert_eq!(want.len(), 52);
}

#[test]
fn gauge_wire_is_twos_complement() {
    let env = MetricEnvelope { ts_ms: 0, name: "", labels: &[], kind: MetricKind::Gauge { value: -2 } };
    let wire = encode_wire(&env);
    let mut want: Vec<u8> = vec![0; 8];
    want.extend_from_slice(&[0, 0]);
    want.extend_from_slice(&[0, 0]);
    want.push(2);
    want.extend_from_slice(&[0xff, 0xff, 0xff, 0xff, 0xff, 0xff, 0xff, 0xfe]);
    assert_eq!(wire, want);
    let env = MetricEnvelope { ts_ms: 0, name: "", labels: &[], kind: MetricKind::Gauge { value: i64::MIN } };
    assert_eq!(encode_wire(&env)[13..], [0x80, 0, 0, 0, 0, 0, 0, 0]);
    let env = MetricEnvelope { ts_ms: 0, name: "", labels: &[], kind: MetricKind::Gauge { value: 258 } };
    assert_eq!(encode_wire(&env)[13..], [0, 0, 0, 0, 0, 0, 1, 2]);
}

#[test]
fn summary_wire_layout() {
    let env = MetricEnvelope {
        ts_ms: u64::MAX,
        name: "s",
        labels: &[],
        kind: MetricKind::Summary { count: 0x0100, sum: 0x0a0b_0c0d_0e0f_1011 },
    };
    let mut want: Vec<u8> = vec![0xff; 8];
    want.extend_from_slice(&[0, 1, b's']);
    want.extend_from_slice(&[0, 0]);
    want.push(3);
    want.extend_from_slice(&[0, 0, 0, 0, 0, 0, 1, 0]);
    want.extend_from_slice(&[0x0a, 0x0b, 0x0c, 0x0d, 0x0e, 0x0f, 0x10, 0x11]);
    assert_eq!(encode_wire(&env), want);
}

#[test]
fn histogram_wire_layout() {
    let mut bins = [0u64; 16];
    bins[0] = 1;
    bins[15] = 0x0203;
    let env = MetricEnvelope {
        ts_ms: 9,
        name: "lat",
        labels: &[("k", "v"), ("", "\u{e9}")],
        kind: MetricKind::LatencyHist { bins },
    };
    let wire = encode_wire(&env);
    let mut want: Vec<u8> = vec![0, 0, 0, 0, 0, 0, 0, 9];
    want.extend_from_slice(&[0, 3]);
    want.extend_from_slice(b"lat");
    want.extend_from_slice(&[0, 2]);
    want.extend_from_slice(&[0, 1, b'k', 0, 1, b'v']);
    want.extend_from_slice(&[0, 0, 0, 2, 0xc3, 0xa9]);
    want.push(4);
    want.extend_from_slice(&[0, 0, 0, 0, 0, 0, 0, 1]);
    let mut i = 0;
    while i < 14 {
        want.extend_from_slice(&[0; 8]);
        i += 1;
    }
    want.extend_from_slice(&[0, 0, 0, 0, 0, 0, 2, 3]);
    assert_eq!(wire, want);
    assert_eq!(wire.len(), 8 + 5 + 2 + 6 + 6 + 1 + 128);
}
