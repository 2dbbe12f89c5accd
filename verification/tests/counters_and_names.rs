use metric_proxy::counters::CounterType;
use metric_proxy::exporter::Exporter;
use metric_proxy::fmt::{i64_to_string, u64_to_string};
use metric_proxy::names::basename;
use metric_proxy::snapshot::CounterSnapshot;

fn counter(ts: u64, value: i64) -> CounterType {
    CounterType::Counter { ts, value }
}

fn gauge(min: i64, max: i64, hits: u64, total: i64) -> CounterType {
    CounterType::Gauge { min, max, hits, total }
}

#[test]
fn merge_counter_adds_values_and_averages_timestamps() {
    let mut a = counter(10, 4);
    let b = counter(20, 5);
    assert!(a.merge(&b).is_ok());
    assert_eq!(a, counter(15, 9));
}

#[test]
fn merge_counter_commutes_on_values() {
    let mut ab = counter(0, 7);
    ab.merge(&counter(0, 11)).unwrap();
    let mut ba = counter(0, 11);
    ba.merge(&counter(0, 7)).unwrap();
    assert_eq!(ab.value(), ba.value());
    assert_eq!(ab.value(), 18);
}

#[test]
fn merge_gauge_keeps_range_and_sums() {
    let mut a = gauge(2, 9, 3, 12);
    let b = gauge(1, 4, 2, 6);
    assert!(a.merge(&b).is_ok());
    assert_eq!(a, gauge(1, 9, 5, 18));
}

#[test]
fn repeated_gauge_merge_aggregates_the_run() {
    let inputs = [gauge(5, 6, 1, 5), gauge(2, 8, 2, 10), gauge(3, 9, 4, 20)];
    let mut acc = inputs[0];
    for g in &inputs[1..] {
        acc.merge(g).unwrap();
    }
    assert_eq!(acc, gauge(2, 9, 7, 35));
}

#[test]
fn merge_across_variants_fails_and_leaves_target_alone() {
    let mut c = counter(1, 2);
    let g = gauge(0, 0, 1, 3);
    assert!(c.merge(&g).is_err());
    assert_eq!(c, counter(1, 2));
    let mut g2 = gauge(0, 0, 1, 3);
    assert!(g2.merge(&counter(1, 2)).is_err());
    assert_eq!(g2, gauge(0, 0, 1, 3));
}

#[test]
fn set_accumulates_counters_and_replaces_gauges() {
    let mut c = counter(0, 5);
    c.set(&counter(0, 3)).unwrap();
    assert_eq!(c.value(), 8);
    let mut g = gauge(1, 9, 4, 20);
    g.set(&gauge(7, 7, 9, 7)).unwrap();
    assert_eq!(g, gauge(7, 7, 1, 7));
}

#[test]
fn delta_subtracts_elementwise() {
    let mut c = counter(30, 9);
    c.delta(&counter(10, 4)).unwrap();
    assert_eq!(c, counter(20, 5));
}

#[test]
fn gauge_value_is_total_over_hits_and_zero_when_empty() {
    assert_eq!(gauge(0, 0, 4, 22).value(), 5);
    assert_eq!(gauge(0, 0, 0, 22).value(), 0);
    assert_eq!(gauge(0, 0, 2, -7).value(), -3);
}

#[test]
fn hasdata_follows_the_variant() {
    assert!(!counter(5, 0).hasdata());
    assert!(counter(5, 1).hasdata());
    assert!(!gauge(1, 2, 0, 0).hasdata());
    assert!(gauge(1, 2, 1, 0).hasdata());
}

#[test]
fn basename_is_the_prefix_before_the_brace()  {
    assert_eq!(basename("plain_name"), "plain_name");
    assert_eq!(basename("a{k=\"v\"}"), "a");
    assert_eq!(basename("x{y{z"), "x");
}

#[test]
fn push_rejects_unbalanced_braces() {
    let mut e = Exporter::new();
    let bad = CounterSnapshot {
        name: String::from("oops{k=\"v\""),
        doc: String::new(),
        ctype: CounterType::newcounter(),
    };
    assert!(e.push(&bad).is_err());
    let good = CounterSnapshot {
        name: String::from("fine{k=\"v\"}"),
        doc: String::new(),
        ctype: CounterType::newcounter(),
    };
    assert!(e.push(&good).is_ok());
    let plain = CounterSnapshot {
        name: String::from("noise"),
        doc: String::new(),
        ctype: CounterType::newcounter(),
    };
    assert!(e.push(&plain).is_ok());
}

#[test]
fn labels_are_rendered_and_escaped() {
    let attrs = vec![
        (String::from("k"), String::from("v")),
        (String::from("q"), String::from("sa\"id")),
    ];
    let s = CounterSnapshot::new(
        String::from("m"),
        &attrs,
        String::new(),
        CounterType::newcounter(),
    );
    assert_eq!(s.name, "m{k=\"v\",q=\"sa\\\"id\"}");
}

#[test]
fn decimal_rendering_is_exact() {
    assert_eq!(u64_to_string(0), "0");
    assert_eq!(u64_to_string(90210), "90210");
    assert_eq!(u64_to_string(u64::MAX), "18446744073709551615");
    assert_eq!(i64_to_string(-42), "-42");
    assert_eq!(i64_to_string(i64::MIN), "-9223372036854775808");
}

#[test]
fn sample_lines_and_document_shape() {
    let mut e = Exporter::new();
    let c = CounterSnapshot {
        name: String::from("hits"),
        doc: String::from("number of hits"),
        ctype: counter(7, 3),
    };
    e.push(&c).unwrap();
    let text = e.serialize();
    assert_eq!(
        text,
        "# HELP hits number of hits\n# TYPE hits counter\nhits 7 3\n# EOF\n"
    );
}

#[test]
fn saturating_merge_clips_at_the_range_end() {
    let mut c = counter(0, i64::MAX);
    c.merge(&counter(0, 1)).unwrap();
    assert_eq!(c.value(), i64::MAX);
}

#[test]
fn cpu_snapshots_shape_one_core() {
    let entries = vec![(
        "cpu0".to_string(),
        "GenuineIntel".to_string(),
        "Xeon".to_string(),
        2400u64,
        50i64,
    )];
    let snaps = metric_proxy::system::cpu_snapshots(&entries);
    assert_eq!(snaps.len(), 4);
    assert_eq!(
        snaps[0].name,
        "proxy_cpu_frequency_ghz{name=\"cpu0\",vendor=\"GenuineIntel\",model=\"Xeon\"}"
    );
    match snaps[1].ctype {
        metric_proxy::counters::CounterType::Gauge { total, .. } => assert_eq!(total, 50),
        _ => panic!("expected a gauge"),
    }
    assert_eq!(snaps[2].name, "proxy_cpu_total");
    match snaps[3].ctype {
        metric_proxy::counters::CounterType::Gauge { total, .. } => assert_eq!(total, 50),
        _ => panic!("expected a gauge"),
    }
}

#[test]
fn temperature_snapshots_critical_reached() {
    let snaps = metric_proxy::system::temperature_snapshots(
        &"coretemp".to_string(),
        Some(95),
        Some(90),
    );
    assert_eq!(snaps.len(), 3);
    assert_eq!(snaps[0].name, "proxy_component_temperature_celcius{component=\"coretemp\"}");
    match snaps[2].ctype {
        metric_proxy::counters::CounterType::Gauge { total, .. } => assert_eq!(total, 1),
        _ => panic!("expected a gauge"),
    }
}

#[test]
fn temperature_snapshots_without_readings() {
    let snaps = metric_proxy::system::temperature_snapshots(&"idle".to_string(), None, None);
    assert_eq!(snaps.len(), 0);
}

#[test]
fn network_rate_snapshots_divide_by_interval() {
    let entries = vec![("eth0".to_string(), 100u64, 60u64, 10u64, 4u64)];
    let snaps = metric_proxy::system::network_rate_snapshots(&entries, 2);
    assert_eq!(snaps.len(), 4);
    assert_eq!(
        snaps[0].name,
        "proxy_network_transmit_bandwidth_bytes{interface=\"eth0\"}"
    );
    match snaps[0].ctype {
        metric_proxy::counters::CounterType::Gauge { total, .. } => assert_eq!(total, 50),
        _ => panic!("expected a gauge"),
    }
    match snaps[1].ctype {
        metric_proxy::counters::CounterType::Gauge { total, .. } => assert_eq!(total, 30),
        _ => panic!("expected a gauge"),
    }
}

#[test]
fn scrape_info_counts_one() {
    let snap = metric_proxy::system::scrape_info_snapshot(
        &"linux".to_string(),
        &"6.1".to_string(),
        &"6.1.0".to_string(),
        &"node1".to_string(),
        7,
    );
    assert!(snap.name.starts_with("proxy_scrape_total{os=\"linux\""));
    match snap.ctype {
        metric_proxy::counters::CounterType::Counter { ts, value } => {
            assert_eq!(ts, 7);
            assert_eq!(value, 1);
        },
        _ => panic!("expected a counter"),
    }
}
