use contextstore::config::Config;
use contextstore::inspect::{
    ambiguous_selector, block_redis_key, block_redis_prefix, byte_unit, checksum_status,
    empty_as_unset, format_timestamp, list_entries, resolve_get_key, select_record,
    stripe_checksum, stripe_count, stripe_device, timestamp_or_number, truncate_for_table,
    ByteUnit, Entry, GetArgs, NamespaceCounter, SelectorError,
};
use contextstore::key::ObjectKey;
use contextstore::metadata::{ChunkLocation, StripingInfo};
use contextstore::store_bench::make_meta;

fn striping(paths: &[&str]) -> StripingInfo {
    StripingInfo {
        chunk_size: 0,
        chunk_devices: vec![],
        chunk_paths: paths.iter().map(|p| p.to_string()).collect(),
        total_size: 0,
        chunk_locations: vec![],
        chunk_checksums: vec![],
    }
}

#[test]
fn cs_meta_readable_selector_encodes_canonical_key() {
    let key = resolve_get_key(GetArgs {
        key: None,
        namespace: Some("redhare".to_string()),
        object_key: Some("request/prefix".to_string()),
    });
    match key {
        Ok(key) => assert_eq!(key.to_string_key(), "7:redharerequest/prefix"),
        Err(_) => panic!("the selector names an object"),
    }
}

#[test]
fn checksum_status_distinguishes_legacy_metadata() {
    let mut striping = striping(&["a", "b"]);
    assert_eq!(checksum_status(Some(&striping)), "missing (0/2)");
    striping.chunk_checksums = vec!["abcd".to_string(), "efgh".to_string()];
    assert_eq!(checksum_status(Some(&striping)), "complete (2/2)");
}

#[test]
fn table_truncation_preserves_character_boundaries() {
    assert_eq!(truncate_for_table("short", 8), "short");
    assert_eq!(truncate_for_table("abcdef", 5), "ab...");
    assert_eq!(truncate_for_table("metadata-key", 3), "...");
    assert_eq!(truncate_for_table("rust-bench/combined", 12), "rust-benc...");
}

#[test]
fn selectors_are_told_apart() {
    let by_key = resolve_get_key(GetArgs {
        key: Some("2:nsobj".to_string()),
        namespace: None,
        object_key: None,
    });
    match by_key {
        Ok(k) => {
            assert_eq!(k.namespace, "ns");
            assert_eq!(k.object_key, "obj");
        }
        Err(_) => panic!("a canonical key names an object"),
    }
    let unreadable = resolve_get_key(GetArgs {
        key: Some("9:short".to_string()),
        namespace: None,
        object_key: None,
    });
    match unreadable {
        Err(SelectorError::UnreadableKey(text)) => assert_eq!(text, "9:short"),
        _ => panic!("the length exceeds the key"),
    }
    let half = resolve_get_key(GetArgs {
        key: None,
        namespace: Some("ns".to_string()),
        object_key: None,
    });
    assert!(matches!(half, Err(SelectorError::Ambiguous)));
    assert_eq!(
        ambiguous_selector(),
        "provide either --key <canonical-key> or both --namespace <namespace> and --object-key <object-key>"
    );
}

#[test]
fn record_names_carry_the_prefix() {
    let config = Config::default();
    assert_eq!(
        block_redis_prefix(&config),
        "contextstore:metadata:block_meta:"
    );
    assert_eq!(
        block_redis_key(&config, "2:nsobj"),
        "contextstore:metadata:block_meta:2:nsobj"
    );
}

#[test]
fn records_are_selected_by_namespace_and_prefix() {
    let hit = select_record("p:2:nsab/c", "p:", "ns", "ab/").unwrap();
    let (canonical, key) = hit.unwrap();
    assert_eq!(canonical, "2:nsab/c");
    assert_eq!(key.object_key, "ab/c");
    assert!(select_record("p:2:nsab/c", "p:", "other", "ab/").unwrap().is_none());
    assert!(select_record("p:2:nsab/c", "p:", "ns", "x").unwrap().is_none());
    assert!(select_record("q:2:nsab/c", "p:", "ns", "").unwrap().is_none());
    assert_eq!(
        select_record("p:nothing", "p:", "ns", "").unwrap_err(),
        "parse Redis metadata key p:nothing"
    );
}

#[test]
fn namespaces_are_counted_in_order() {
    let mut counter = NamespaceCounter::new("p:".to_string());
    for name in ["p:1:bx", "p:1:ay", "p:1:bz", "other", "p:2:abq", "p:1:bx"] {
        counter.note(name).unwrap();
    }
    assert_eq!(counter.note("p:bad").unwrap_err(), "parse Redis metadata key p:bad");
    assert_eq!(counter.counted(), 5);
    let table = counter.finish();
    let seen: Vec<(String, usize)> =
        table.into_iter().map(|s| (s.namespace, s.object_count)).collect();
    assert_eq!(
        seen,
        vec![("a".to_string(), 1), ("ab".to_string(), 1), ("b".to_string(), 3)]
    );
}

fn entry(namespace: &str, object_key: &str, redis_key: &str) -> Entry {
    Entry {
        redis_key: redis_key.to_string(),
        canonical_key: String::new(),
        object_key: ObjectKey::new(namespace.to_string(), object_key.to_string()),
        metadata: make_meta(1),
    }
}

#[test]
fn entries_are_listed_by_namespace_and_key() {
    let entries = vec![
        entry("b", "a", "1"),
        entry("a", "c", "2"),
        entry("a", "b", "3"),
        entry("a", "c", "4"),
    ];
    let listed = list_entries(entries, None);
    let order: Vec<String> = listed.into_iter().map(|e| e.redis_key).collect();
    assert_eq!(order, vec!["3", "2", "4", "1"]);
    let few = list_entries(vec![entry("b", "a", "1"), entry("a", "c", "2")], Some(1));
    assert_eq!(few.len(), 1);
    assert_eq!(few[0].redis_key, "2");
    assert_eq!(list_entries(vec![entry("b", "a", "1")], Some(5)).len(), 1);
}

#[test]
fn stripes_are_described() {
    let mut s = striping(&["a", "b", "c"]);
    assert_eq!(stripe_count(Some(&s)), 3);
    assert_eq!(stripe_count(None), 0);
    assert_eq!(checksum_status(None), "not-striped");
    assert_eq!(checksum_status(Some(&striping(&[]))), "empty-layout");
    s.chunk_devices = vec![4, 5];
    s.chunk_locations = vec![ChunkLocation {
        stripe_index: 0,
        node_id: "n1".to_string(),
        grpc_endpoint: String::new(),
        rdma_endpoint: String::new(),
        device_id: 7,
        storage_handle: String::new(),
        offset: 0,
        length: 0,
        checksum: String::new(),
    }];
    assert_eq!(stripe_device(&s, 0), "n1:7");
    assert_eq!(stripe_device(&s, 1), "local:5");
    assert_eq!(stripe_device(&s, 2), "<unknown>");
    s.chunk_checksums = vec!["ab".to_string(), String::new()];
    assert_eq!(stripe_checksum(&s, 0), "ab");
    assert_eq!(stripe_checksum(&s, 1), "<missing>");
    assert_eq!(stripe_checksum(&s, 2), "<missing>");
    assert_eq!(checksum_status(Some(&s)), "partial (1/3)");
}

#[test]
fn times_and_sizes_are_shown() {
    assert_eq!(format_timestamp(0), "1970-01-01T00:00:00Z");
    assert_eq!(format_timestamp(1_700_000_000), "2023-11-14T22:13:20Z");
    assert_eq!(
        format_timestamp(i64::MAX),
        "<invalid: 9223372036854775807>"
    );
    assert_eq!(timestamp_or_number(None, -5), "<invalid: -5>");
    assert_eq!(timestamp_or_number(Some("x".to_string()), -5), "x");
    assert_eq!(byte_unit(1024 * 1024 * 1024), ByteUnit::GiB);
    assert_eq!(byte_unit(1024 * 1024 * 1024 - 1), ByteUnit::MiB);
    assert_eq!(byte_unit(1024 * 1024 - 1), ByteUnit::B);
    assert_eq!(empty_as_unset(""), "<unset>");
    assert_eq!(empty_as_unset("v"), "v");
    assert_eq!(truncate_for_table("äöüß", 2), "..");
    assert_eq!(truncate_for_table("äöüßxy", 5), "äö...");
}
