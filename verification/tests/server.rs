use contextstore::config::{ClusterNodeConfig, Config};
use contextstore::metrics::{
    all_metrics, connection_state, feature_flags, first_values, refresh, route, DeviceCounters, Metric,
    MetricKind, Route, StorageCounters,
};
use contextstore::startup::{
    choose_devices, device_to_select, parse_devices, slab_size_mb, RdmaDeviceConfig,
};
use contextstore::text::{blank, is_before, parse_usize, split, trim};

#[test]
fn a_default_configuration_is_valid() {
    let config = Config::default();
    assert!(config.validate().is_ok());
    assert_eq!(config.storage.striping_threshold, 256 * 1024 * 1024);
    assert_eq!(config.metadata.redis_key_prefix, "contextstore:metadata:");
}

fn fault(change: impl Fn(&mut Config)) -> String {
    let mut config = Config::default();
    change(&mut config);
    config.validate().unwrap_err().message()
}

#[test]
fn faults_of_a_configuration_are_told() {
    assert!(fault(|c| c.storage.devices.clear()).starts_with("config error: "));
    assert!(fault(|c| c.metadata.redis_url = "  ".to_string()).starts_with("config error: "));
    assert!(fault(|c| c.metadata.redis_key_prefix.clear()).starts_with("config error: "));
    assert!(fault(|c| c.cluster.data_nodes = vec![ClusterNodeConfig::default()])
        .starts_with("config error: "));
}

#[test]
fn network_cards_are_listed() {
    let devices = match parse_devices(" mlx5_0:0.0.0.0:50053 ,, mlx5_1:h:1") {
        Ok(d) => d,
        Err(e) => panic!("{}", e),
    };
    assert_eq!(devices.len(), 2);
    assert_eq!(devices[0].device_name, "mlx5_0");
    assert_eq!(devices[0].tcp_listen, "0.0.0.0:50053");
    assert_eq!((devices[1].port_num, devices[1].gid_index), (1, 3));
    match parse_devices("a:b, bad ,worse") {
        Err(e) => assert_eq!(e, "bad item 'bad', expect dev:host:port"),
        Ok(_) => panic!("an item has no colon"),
    }
    let fallback = || {
        vec![RdmaDeviceConfig {
            device_name: "d".to_string(),
            port_num: 9,
            gid_index: 9,
            tcp_listen: String::new(),
        }]
    };
    let (used, complaint) = choose_devices(Some("bad"), fallback());
    assert_eq!((used[0].port_num, complaint.is_some()), (9, true));
    let (used, complaint) = choose_devices(Some(" , "), fallback());
    assert_eq!((used[0].port_num, complaint.is_some()), (9, false));
    let (used, _) = choose_devices(Some("x:y"), fallback());
    assert_eq!(used[0].device_name, "x");
    assert_eq!(choose_devices(None, fallback()).0.len(), 1);
    assert_eq!(slab_size_mb(Some("12"), 5), 12);
    assert_eq!(slab_size_mb(Some("x"), 5), 5);
    assert_eq!(slab_size_mb(None, 5), 5);
    assert_eq!(device_to_select(true, 0), Some(0));
    assert_eq!(device_to_select(true, -1), None);
    assert_eq!(device_to_select(false, 0), None);
}

#[test]
fn metrics_are_described() {
    let all = all_metrics();
    assert_eq!(all.len(), 24);
    let mut names: Vec<&str> = all.iter().map(|m| m.name()).collect();
    names.sort();
    names.dedup();
    assert_eq!(names.len(), 24);
    assert_eq!(Metric::Up.name(), "kvservice_up");
    assert_eq!(Metric::FallbackTotal.labels(), vec!["from", "to", "reason"]);
    assert_eq!(Metric::RequestDuration.kind(), MetricKind::HistogramVec);
    assert_eq!(Metric::L1Hits.help(), "L1 cache hits");
    for m in all {
        let labelled = matches!(
            m.kind(),
            MetricKind::GaugeVec | MetricKind::IntCounterVec | MetricKind::HistogramVec
        );
        assert_eq!(labelled, !m.labels().is_empty());
    }
}

#[test]
fn a_scrape_refreshes_the_counters() {
    let storage = StorageCounters {
        reads_total: 5,
        writes_total: 6,
        bytes_read: 7,
        bytes_written: 8,
        striped_writes: 9,
    };
    let devices = vec![
        DeviceCounters { read_bytes: 10, used_bytes: 11 },
        DeviceCounters { read_bytes: 12, used_bytes: 13 },
    ];
    let updates = refresh((1, 2, 3, 4), storage, &devices);
    assert_eq!(updates.len(), 14);
    assert_eq!(updates[0].label.as_deref(), Some("l1"));
    assert_eq!(updates[0].value, 1);
    assert_eq!((updates[4].metric, updates[4].value), (Metric::L1SizeBytes, 4));
    assert_eq!((updates[13].metric, updates[13].value), (Metric::DeviceUsedBytes, 13));
    assert_eq!(updates[13].label.as_deref(), Some("nvme1"));
    assert_eq!((connection_state(true), connection_state(false)), (1, 0));
}

#[test]
fn requests_to_the_exporter_are_routed() {
    assert_eq!(route("/metrics"), Route::Metrics);
    assert_eq!(route("/health"), Route::Health);
    assert_eq!(route("/"), Route::NotFound);
    assert_eq!(feature_flags(true, true, true), "metrics,rdma,io-uring,gds");
    assert_eq!(feature_flags(true, false, true), "metrics,rdma");
    assert_eq!(feature_flags(false, true, true), "metrics,io-uring,gds");
    assert_eq!(feature_flags(false, false, true), "metrics");
}

#[test]
fn metrics_start_with_the_build() {
    let labels = |commit| {
        let first = first_values("0.1.0", commit, "metrics");
        assert_eq!(first.len(), 2);
        assert_eq!((first[0].metric, first[0].value), (Metric::Up, 1));
        assert!(first[0].labels.is_empty());
        assert_eq!((first[1].metric, first[1].value), (Metric::BuildInfo, 1));
        first[1].labels.clone()
    };
    assert_eq!(labels(Some("abc")), vec!["0.1.0", "abc", "metrics"]);
    assert_eq!(labels(None), vec!["0.1.0", "unknown", "metrics"]);
}

#[test]
fn texts_are_cut_and_compared() {
    assert_eq!(trim("  a b\u{3000}\n"), "a b");
    assert_eq!(trim(" \t"), "");
    assert!(blank("\u{2003} "));
    assert_eq!(split("a,,b", ','), vec!["a", "", "b"]);
    assert_eq!(split("", ','), vec![""]);
    assert!(is_before("a", "ab") && is_before("ab", "b") && !is_before("b", "b"));
    assert_eq!(is_before("z", "ä"), "z" < "ä");
    assert_eq!(parse_usize("18446744073709551615"), Some(usize::MAX));
    assert_eq!(parse_usize("18446744073709551616"), None);
    assert_eq!(parse_usize("+7"), Some(7));
    assert_eq!(parse_usize("-7"), None);
    assert_eq!(parse_usize("+"), None);
}
