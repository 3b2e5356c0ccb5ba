use contextstore::config::Config;
use contextstore::key::ObjectKey;
use contextstore::memory_tier::{slab_views, stored_or, MemoryTier};
use contextstore::metadata::BlockMeta;
use prost::bytes::Bytes;
use std::collections::HashMap;

fn mk_meta() -> BlockMeta {
    BlockMeta {
        device_id: 0,
        file_path: String::new(),
        size: 0,
        object_handle: String::new(),
        object_generation: 1,
        content_etag: String::new(),
        layout_version: 1,
        created_at: 0,
        last_accessed_at: 0,
        ttl_seconds: 0,
        num_tokens: 128,
        num_layers: 1,
        dtype: "bfloat16".to_string(),
        compressed: false,
        striping: None,
    }
}

fn key(namespace: &str, object_key: &str) -> ObjectKey {
    ObjectKey { namespace: namespace.into(), object_key: object_key.into() }
}

/// The tier in front of a disk that keeps everything.
struct Store {
    tier: MemoryTier,
    disk: HashMap<String, Vec<u8>>,
}

impl Store {
    fn new() -> Store {
        let mut cfg = Config::default();
        cfg.memory_tier.capacity_mb = 1; // 1MB cap
        Store { tier: MemoryTier::new(&cfg), disk: HashMap::new() }
    }

    fn put(&mut self, key: &ObjectKey, data: Bytes) {
        self.disk.insert(key.to_string_key(), data.to_vec());
        self.tier.put(key, data, mk_meta());
    }

    fn put_chunks(&mut self, key: &ObjectKey, segments: Vec<Bytes>) {
        self.disk.insert(key.to_string_key(), flatten_segments(&segments));
        self.tier.put_chunks(key, segments, mk_meta(), None);
    }

    fn get(&mut self, key: &ObjectKey) -> Option<Bytes> {
        if let Some((data, _)) = self.tier.get(key) {
            return Some(data);
        }
        let fetched = self
            .disk
            .get(&key.to_string_key())
            .map(|d| (Bytes::from(d.clone()), mk_meta()));
        self.tier.get_fetched(key, Ok(fetched)).unwrap().map(|(data, _)| data)
    }

    fn get_chunks(&mut self, key: &ObjectKey) -> Option<Vec<Bytes>> {
        if let Some((segments, _)) = self.tier.get_chunks(key) {
            return Some(segments);
        }
        let fetched = self
            .disk
            .get(&key.to_string_key())
            .map(|d| (vec![Bytes::from(d.clone())], mk_meta()));
        self.tier
            .get_chunks_fetched(key, Ok(fetched), None)
            .unwrap()
            .map(|(segments, _)| segments)
    }
}

fn flatten_segments(segments: &[Bytes]) -> Vec<u8> {
    segments.iter().flat_map(|segment| segment.iter().copied()).collect()
}

#[test]
fn cache_hit_after_put() {
    let mut store = Store::new();
    let key = key("test", "abcdef/layer_0");
    store.put(&key, Bytes::from_static(b"hello"));
    let data = store.get(&key).unwrap();
    assert_eq!(data, b"hello".as_ref());
    let (h, m, _, _) = store.tier.stats();
    assert_eq!(h, 1);
    assert_eq!(m, 0);
}

#[test]
fn single_put_invalidates_chunks_cache_for_same_object() {
    let mut store = Store::new();
    let key = key("test", "object");

    store.put_chunks(&key, vec![Bytes::from_static(b"old")]);
    let old_segments = store.get_chunks(&key).unwrap();
    assert_eq!(flatten_segments(&old_segments), b"old");

    store.put(&key, Bytes::from_static(b"new"));

    let segments = store.get_chunks(&key).unwrap();
    assert_eq!(flatten_segments(&segments), b"new");
    let data = store.get(&key).unwrap();
    assert_eq!(data.as_ref(), b"new");
}

#[test]
fn chunk_put_invalidates_single_cache_for_same_object() {
    let mut store = Store::new();
    let key = key("test", "object");

    store.put(&key, Bytes::from_static(b"old"));
    let old_data = store.get(&key).unwrap();
    assert_eq!(old_data.as_ref(), b"old");

    store.put_chunks(&key, vec![Bytes::from_static(b"ne"), Bytes::from_static(b"w")]);

    let data = store.get(&key).unwrap();
    assert_eq!(data.as_ref(), b"new");
    let segments = store.get_chunks(&key).unwrap();
    assert_eq!(flatten_segments(&segments), b"new");
}

#[test]
fn the_least_recently_used_object_leaves_first() {
    let mut store = Store::new();
    let big = |b: u8| Bytes::from(vec![b; 400 * 1024]);
    let (a, b, c) = (key("n", "a"), key("n", "b"), key("n", "c"));
    store.put(&a, big(1));
    store.put(&b, big(2));
    assert!(store.tier.get(&a).is_some());
    store.put(&c, big(3));
    assert!(store.tier.contains(&a));
    assert!(!store.tier.contains(&b));
    assert!(store.tier.contains(&c));
    let (_, _, evictions, size) = store.tier.stats();
    assert_eq!(evictions, 1);
    assert_eq!(size, 800 * 1024);
}

#[test]
fn invalidation_removes_one_object_only() {
    let mut store = Store::new();
    let (a, b) = (key("n", "a"), key("n", "b"));
    store.put(&a, Bytes::from_static(b"1"));
    store.put_chunks(&b, vec![Bytes::from_static(b"22")]);
    store.tier.invalidate(&a);
    assert!(!store.tier.contains(&a));
    assert!(store.tier.get_chunks(&b).is_some());
    store.tier.delete(&b);
    assert!(store.tier.get_chunks(&b).is_none());
    assert_eq!(store.tier.stats().3, 0);
}

#[test]
fn stale_records_are_not_served() {
    let mut store = Store::new();
    let a = key("n", "a");
    store.put(&a, Bytes::from_static(b"1"));
    assert!(store.tier.get_with_meta(&a, &mk_meta()).is_some());
    let mut newer = mk_meta();
    newer.object_generation = 2;
    assert!(store.tier.get_with_meta(&a, &newer).is_none());
    store.put_chunks(&a, vec![Bytes::from_static(b"1")]);
    assert!(store.tier.get_chunks_with_meta(&a, &newer).is_none());
}

#[test]
fn batches_ask_storage_for_the_rest() {
    let mut store = Store::new();
    let keys = vec![key("n", "a"), key("n", "b"), key("n", "c")];
    store.put(&keys[1], Bytes::from_static(b"b"));
    let found = store.tier.get_batch(&keys);
    assert_eq!(found.misses, vec![0, 2]);
    let answers = store.tier.get_batch_fetched(
        &keys,
        found,
        vec![Ok(Some((Bytes::from_static(b"a"), mk_meta()))), Ok(None)],
    );
    let data: Vec<Option<Vec<u8>>> = answers
        .into_iter()
        .map(|r| r.unwrap().map(|(d, _)| d.to_vec()))
        .collect();
    assert_eq!(data, vec![Some(b"a".to_vec()), Some(b"b".to_vec()), None]);
    assert!(store.tier.contains(&keys[0]));
    store.tier.put_batch(
        vec![
            (key("n", "x"), Bytes::from_static(b"x"), mk_meta()),
            (key("n", "y"), Bytes::from_static(b"y"), mk_meta()),
        ],
        &vec![true, false],
    );
    assert!(store.tier.contains(&key("n", "x")));
    assert!(!store.tier.contains(&key("n", "y")));
}

#[test]
fn slab_extents_are_kept_with_their_objects() {
    let mut store = Store::new();
    assert_eq!(store.tier.rdma_slab_get(), None);
    assert!(store.tier.set_rdma_slab(1 << 20));
    assert!(!store.tier.set_rdma_slab(1 << 21));
    assert_eq!(store.tier.rdma_slab_get(), Some(1 << 20));
    let a = key("n", "a");
    let whole = Bytes::from_static(b"abcdef");
    let views = slab_views(&whole, &vec![Bytes::from_static(b"abcd"), Bytes::from_static(b"ef")]);
    assert_eq!(views.len(), 2);
    assert_eq!(&views[0][..], b"abcd");
    assert_eq!(&views[1][..], b"ef");
    store.tier.insert_chunks_from_slab(a.to_string_key(), 77, whole, mk_meta());
    let (extent, _) = store.tier.get_chunks_slab(&a).unwrap();
    assert_eq!(extent, 77);
    store.tier.evict_chunks_cache_to_free(1);
    assert!(store.tier.get_chunks_slab(&a).is_none());
}

#[test]
fn the_stored_record_wins() {
    let mut stored = mk_meta();
    stored.object_generation = 9;
    assert_eq!(stored_or(Some(stored), mk_meta()).object_generation, 9);
    assert_eq!(stored_or(None, mk_meta()).object_generation, 1);
}

#[test]
fn failed_fetches_are_handed_on() {
    let mut store = Store::new();
    let a = key("n", "a");
    assert!(store.tier.get(&a).is_none());
    let err = contextstore::error::KVError::Internal("disk".to_string());
    assert!(store.tier.get_fetched(&a, Err(err)).is_err());
    assert!(!store.tier.contains(&a));
    store.put(&a, Bytes::from_static(b"1"));
    store.tier.put_from_gpu(&a);
    assert!(!store.tier.contains(&a));
}

#[test]
fn any_mix_of_calls_reads_the_last_write() {
    let mut store = Store::new();
    let objects = [key("ns", "a"), key("ns", "b"), key("ns", "c")];
    let mut last: Vec<Option<Vec<u8>>> = vec![None; objects.len()];
    let mut seed: u32 = 1;
    for round in 0..300u32 {
        seed = seed.wrapping_mul(1664525).wrapping_add(1013904223);
        let i = (seed >> 8) as usize % objects.len();
        let data = format!("{}-{}", round, "x".repeat((seed >> 16) as usize % 700_000)).into_bytes();
        match (seed >> 28) % 6 {
            0 => {
                store.put(&objects[i], Bytes::from(data.clone()));
                last[i] = Some(data);
            }
            1 => {
                let (front, back) = data.split_at(data.len() / 2);
                let segments = vec![Bytes::from(front.to_vec()), Bytes::from(back.to_vec())];
                store.put_chunks(&objects[i], segments);
                last[i] = Some(data);
            }
            2 => store.tier.invalidate(&objects[i]),
            3 => {
                let segments = store.get_chunks(&objects[i]);
                assert_eq!(segments.map(|s| flatten_segments(&s)), last[i]);
            }
            _ => assert_eq!(store.get(&objects[i]).map(|d| d.to_vec()), last[i]),
        }
    }
}
