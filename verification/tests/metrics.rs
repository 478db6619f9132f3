use dormlab_nodeexporter::metrics::{CounterTracker, Direction, IntMetrics};
use dormlab_nodeexporter::snapshot::IfaceCounters;

fn iface(name: &str, rx: u64, tx: u64) -> IfaceCounters {
    IfaceCounters { name: name.to_string(), rx_bytes: rx, tx_bytes: tx }
}

#[test]
fn tracker_exports_increases_and_restarts_after_reset() {
    let mut t = CounterTracker::new();
    let en0 = "en0".to_string();
    assert_eq!(t.advance(&en0, 100), 100);
    assert_eq!(t.advance(&en0, 150), 50);
    assert_eq!(t.advance(&en0, 150), 0);
    // The counter went backwards: a fresh start, nothing exported.
    assert_eq!(t.advance(&en0, 40), 0);
    assert_eq!(t.advance(&en0, 60), 20);
    assert_eq!(t.advance(&"en1".to_string(), 7), 7);
}

#[test]
fn monotone_readings_export_the_last_value() {
    let mut t = CounterTracker::new();
    let name = "en2".to_string();
    let readings = [3u64, 3, 10, 25, 25, 1000];
    let total: u64 = readings.iter().map(|r| t.advance(&name, *r)).sum();
    assert_eq!(total, 1000);
}

#[test]
fn observe_applies_positive_increases() {
    let mut m = IntMetrics::create().unwrap();
    let snap = vec![iface("en0", 100, 0), iface("en2", 5, 7)];
    let o = m.observe(Some(10093 * 1048576), Some(17179869184), &snap);
    assert_eq!(o.memory_used, Some(10093 * 1048576));
    assert_eq!(o.memory_total, Some(17179869184));
    let incs: Vec<(Direction, String, u64)> =
        o.increments.iter().map(|c| (c.direction, c.iface.clone(), c.delta)).collect();
    assert_eq!(
        incs,
        vec![
            (Direction::Received, "en0".to_string(), 100),
            (Direction::Received, "en2".to_string(), 5),
            (Direction::Transmitted, "en2".to_string(), 7),
        ]
    );
    let o = m.observe(None, None, &vec![iface("en0", 160, 3), iface("en2", 1, 9)]);
    assert_eq!(o.memory_used, None);
    let incs: Vec<(Direction, String, u64)> =
        o.increments.iter().map(|c| (c.direction, c.iface.clone(), c.delta)).collect();
    assert_eq!(
        incs,
        vec![
            (Direction::Received, "en0".to_string(), 60),
            (Direction::Transmitted, "en0".to_string(), 3),
            (Direction::Transmitted, "en2".to_string(), 2),
        ]
    );
}

#[test]
fn reobserving_a_snapshot_exports_nothing() {
    let mut m = IntMetrics::create().unwrap();
    let snap = vec![iface("en0", 100, 20), iface("en2", 5, 7)];
    let first = m.observe(None, None, &snap);
    assert_eq!(first.increments.len(), 4);
    let second = m.observe(None, None, &snap);
    assert!(second.increments.is_empty());
}

#[test]
fn memory_gauge_takes_the_bytes_as_i64() {
    let mut m = IntMetrics::create().unwrap();
    let o = m.observe(Some(u64::MAX), Some(5), &vec![]);
    assert_eq!(o.memory_used, Some(-1));
    assert_eq!(o.memory_total, Some(5));
}

#[test]
fn registers_into_a_registry() {
    let m = IntMetrics::create().unwrap();
    let mut registry = prometheus::Registry::new();
    assert!(m.register(&mut registry).is_ok());
    // The same metrics cannot be registered twice.
    assert!(m.register(&mut registry).is_err());
}

/// The value of the counter or gauge `name` (with the label value `label`,
/// when given) that the registry gathers.
fn gathered(registry: &prometheus::Registry, name: &str, label: Option<&str>) -> Option<f64> {
    for family in registry.gather() {
        if family.get_name() != name {
            continue;
        }
        for metric in family.get_metric() {
            let labels = metric.get_label();
            let matches = match label {
                Some(l) => labels.len() == 1 && labels[0].get_value() == l,
                None => labels.is_empty(),
            };
            if matches {
                return Some(match family.get_field_type() {
                    prometheus::proto::MetricType::COUNTER => metric.get_counter().get_value(),
                    _ => metric.get_gauge().get_value(),
                });
            }
        }
    }
    None
}

#[test]
fn registered_names_are_gathered() {
    let m = IntMetrics::create().unwrap();
    let mut registry = prometheus::Registry::new();
    m.register(&mut registry).unwrap();
    assert_eq!(gathered(&registry, "dormlab_memory_used_bytes", None), Some(0.0));
    assert_eq!(gathered(&registry, "dormlab_memory_total_bytes", None), Some(0.0));
    let help = |name: &str| {
        registry.gather().into_iter().find(|f| f.get_name() == name).map(|f| f.get_help().to_string())
    };
    assert_eq!(help("dormlab_memory_total_bytes").as_deref(), Some("Physical memory installed (sysctl hw.memsize)."));
    assert_eq!(
        help("dormlab_memory_used_bytes").as_deref(),
        Some("Memory in use: wired + compressor (top PhysMem). Excludes reclaimable file-backed cache.")
    );
    // Counter vectors have no samples before a first increase.
    assert_eq!(gathered(&registry, "dormlab_network_rx_bytes_total", Some("en0")), None);
}

#[test]
fn exported_counter_sums_the_increases() {
    let mut m = IntMetrics::create().unwrap();
    let mut registry = prometheus::Registry::new();
    m.register(&mut registry).unwrap();
    m.observe(None, None, &vec![iface("en0", 100, 0)]);
    // Backwards: a fresh start, nothing added.
    m.observe(None, None, &vec![iface("en0", 50, 0)]);
    m.observe(None, None, &vec![iface("en0", 80, 0)]);
    assert_eq!(gathered(&registry, "dormlab_network_rx_bytes_total", Some("en0")), Some(130.0));
    // The sent counter was never increased.
    assert_eq!(gathered(&registry, "dormlab_network_tx_bytes_total", Some("en0")), None);
}

#[test]
fn exported_counters_track_monotone_kernel_counters() {
    let mut m = IntMetrics::create().unwrap();
    let mut registry = prometheus::Registry::new();
    m.register(&mut registry).unwrap();
    for (rx, tx) in [(10u64, 1u64), (10, 5), (250, 5), (4000, 77)] {
        m.observe(None, None, &vec![iface("en0", rx, tx), iface("en2", 3, 3)]);
    }
    assert_eq!(gathered(&registry, "dormlab_network_rx_bytes_total", Some("en0")), Some(4000.0));
    assert_eq!(gathered(&registry, "dormlab_network_tx_bytes_total", Some("en0")), Some(77.0));
    assert_eq!(gathered(&registry, "dormlab_network_rx_bytes_total", Some("en2")), Some(3.0));
    // An interface left out of a snapshot keeps its counters and last values.
    m.observe(None, None, &vec![iface("en2", 4, 3)]);
    m.observe(None, None, &vec![iface("en0", 4010, 77)]);
    assert_eq!(gathered(&registry, "dormlab_network_rx_bytes_total", Some("en0")), Some(4010.0));
    assert_eq!(gathered(&registry, "dormlab_network_rx_bytes_total", Some("en2")), Some(4.0));
}

#[test]
fn memory_gauges_keep_their_reading_without_a_value() {
    let mut m = IntMetrics::create().unwrap();
    let mut registry = prometheus::Registry::new();
    m.register(&mut registry).unwrap();
    m.observe(Some(10093 * 1048576), Some(17179869184), &vec![]);
    m.observe(None, None, &vec![]);
    assert_eq!(gathered(&registry, "dormlab_memory_used_bytes", None), Some((10093u64 * 1048576) as f64));
    assert_eq!(gathered(&registry, "dormlab_memory_total_bytes", None), Some(17179869184.0));
    m.observe(Some(5), None, &vec![]);
    assert_eq!(gathered(&registry, "dormlab_memory_used_bytes", None), Some(5.0));
    assert_eq!(gathered(&registry, "dormlab_memory_total_bytes", None), Some(17179869184.0));
}
