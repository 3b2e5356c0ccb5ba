use contextstore::config::{ClusterNodeConfig, Config};
use contextstore::convert::{grpc_uri, meta_from_pb, meta_from_pb_at, meta_to_pb};
use contextstore::distributed::{
    conclude_put, local_write_result, node_unavailable, plan_stripe_writes, settle_writes,
    stripe_read, stripe_source, stripe_stream_broken, stripe_target, ChunkWriteResult,
    CommitOutcome, NodeCall, ReadStripe, StripeTarget, WriteVerdict,
};
use contextstore::error::{to_status, Code, KVError, Status};
use contextstore::handlers::{
    accept_stripe, check_commit, check_gpu_request, check_read, commit_reply, distributed_get_reply,
    existence_gate, expected_checksum, get_batch_reply, get_reply, gpu_read_reply, join_stripes, live_after_purge, live_lookup, live_reread,
    lookup_reply, meta_identity_matches, plan_commit, plan_put_batch, prepare_existence,
    prepare_precheck, prepare_reply, purge_confirmed, purge_plan, put_batch_flags, put_reply, read_reply,
    read_request_key, read_route, require_chunk, require_key, require_stripe_data, stats_reply,
    stored_stripe, validation_placement, ExistenceGate, GpuSupport, LiveStep, PurgeStep, PutItem,
    ReadRoute,
};
use contextstore::key::ObjectKey;
use contextstore::metadata::{BlockMeta, ChunkLocation, StripingInfo};
use contextstore::pb;
use contextstore::placement::{
    chunk_location_to_pb, configured_data_nodes, descriptor_from_meta, distributed_placement_enabled,
    is_local_node, key_from_descriptor, local_device_stripe_index, local_node, object_handle,
    pb_chunk_to_location, placement_epoch, placement_from_meta, placement_policy_id,
    select_data_node, validate_descriptor, validate_placement_descriptor, KVServiceContext,
    NodeEnv,
};
use prost::bytes::Bytes;

fn no_env() -> NodeEnv {
    NodeEnv { node_id: None, grpc_advertise: None, rdma_advertise: None }
}

fn ctx_with_nodes(nodes: Vec<ClusterNodeConfig>) -> KVServiceContext {
    ctx_with_local_and_nodes("coordinator", "127.0.0.1:50051", nodes)
}

fn ctx_with_local_and_nodes(
    node_id: &str,
    grpc_advertise: &str,
    nodes: Vec<ClusterNodeConfig>,
) -> KVServiceContext {
    let mut cfg = Config::default();
    cfg.cluster.node_id = node_id.to_string();
    cfg.cluster.grpc_advertise = grpc_advertise.to_string();
    cfg.cluster.data_nodes = nodes;
    cfg.metadata.redis_url = format!(
        "memory://api-service-placement-{}-{}",
        node_id,
        cfg.cluster.data_nodes.len(),
    );
    KVServiceContext::new(cfg, no_env())
}

fn data_node(id: &str, grpc: &str) -> ClusterNodeConfig {
    ClusterNodeConfig {
        node_id: id.to_string(),
        grpc_endpoint: grpc.to_string(),
        rdma_endpoint: String::new(),
    }
}

fn meta() -> BlockMeta {
    BlockMeta {
        device_id: 0,
        file_path: "/tmp/object.bin".to_string(),
        size: 128,
        object_handle: "handle-2".to_string(),
        object_generation: 2,
        content_etag: "etag-2".to_string(),
        layout_version: 1,
        created_at: 0,
        last_accessed_at: 0,
        ttl_seconds: 0,
        num_tokens: 16,
        num_layers: 1,
        dtype: "bfloat16".to_string(),
        compressed: false,
        striping: None,
    }
}

fn key() -> ObjectKey {
    ObjectKey { namespace: "test".to_string(), object_key: "object".to_string() }
}

#[test]
fn descriptor_contains_version_identity() {
    let meta = meta();
    let desc = descriptor_from_meta(&key(), &meta);

    assert_eq!(desc.object_generation, 2);
    assert_eq!(desc.content_etag, "etag-2");
    assert_eq!(desc.layout_version, 1);
    assert_eq!(desc.size, 128);
    assert!(!desc.object_handle.is_empty());
    validate_descriptor(&desc, &meta).unwrap();
}

#[test]
fn descriptor_validation_rejects_stale_generation() {
    let meta = meta();
    let mut desc = descriptor_from_meta(&key(), &meta);
    desc.object_generation = 1;

    let err = validate_descriptor(&desc, &meta).unwrap_err();
    assert_eq!(err.code, Code::FailedPrecondition);
}

fn two_stripes() -> StripingInfo {
    StripingInfo {
        chunk_size: 6,
        chunk_devices: vec![0, 0],
        chunk_paths: vec!["/tmp/a".to_string(), "/tmp/b".to_string()],
        total_size: 12,
        chunk_locations: vec![
            ChunkLocation {
                stripe_index: 0,
                node_id: "node-a".to_string(),
                grpc_endpoint: "10.0.0.1:50051".to_string(),
                rdma_endpoint: String::new(),
                device_id: 0,
                storage_handle: "/tmp/a".to_string(),
                offset: 0,
                length: 6,
                checksum: "checksum-a".to_string(),
            },
            ChunkLocation {
                stripe_index: 1,
                node_id: "node-b".to_string(),
                grpc_endpoint: "10.0.0.2:50051".to_string(),
                rdma_endpoint: String::new(),
                device_id: 0,
                storage_handle: "/tmp/b".to_string(),
                offset: 6,
                length: 6,
                checksum: "checksum-b".to_string(),
            },
        ],
        chunk_checksums: vec!["checksum-a".to_string(), "checksum-b".to_string()],
    }
}

#[test]
fn placement_uses_materialized_chunk_locations() {
    let mut cfg = Config::default();
    cfg.cluster.node_id = "coordinator".to_string();
    cfg.cluster.grpc_advertise = "127.0.0.1:50051".to_string();
    cfg.metadata.redis_url = "memory://api-service-placement".to_string();
    let ctx = KVServiceContext::new(cfg, no_env());
    let mut meta = meta();
    meta.size = 12;
    meta.file_path.clear();
    meta.striping = Some(two_stripes());

    let placement = placement_from_meta(&ctx, &key(), &meta);
    assert_eq!(placement.chunks.len(), 2);
    assert_eq!(placement.chunks[0].node_id, "node-a");
    assert_eq!(placement.chunks[1].grpc_endpoint, "10.0.0.2:50051");
    assert_eq!(placement.chunks[0].checksum, "checksum-a");
}

#[test]
fn placement_epoch_changes_when_topology_changes() {
    let ctx_a = ctx_with_nodes(vec![
        data_node("node-a", "10.0.0.1:50051"),
        data_node("node-b", "10.0.0.2:50051"),
    ]);
    let ctx_b = ctx_with_nodes(vec![
        data_node("node-a", "10.0.0.1:50051"),
        data_node("node-c", "10.0.0.3:50051"),
    ]);

    let meta = meta();
    let placement_a = placement_from_meta(&ctx_a, &key(), &meta);
    let placement_b = placement_from_meta(&ctx_b, &key(), &meta);

    assert_ne!(placement_a.placement_epoch, placement_b.placement_epoch);
    assert_ne!(placement_a.layout_hash, placement_b.layout_hash);
}

#[test]
fn placement_epoch_is_stable_across_local_nodes() {
    let nodes = vec![
        data_node("node-a", "10.0.0.1:50051"),
        data_node("node-b", "10.0.0.2:50051"),
    ];
    let ctx_a = ctx_with_local_and_nodes("node-a", "10.0.0.1:50051", nodes.clone());
    let ctx_b = ctx_with_local_and_nodes("node-b", "10.0.0.2:50051", nodes);

    assert_eq!(placement_epoch(&ctx_a), placement_epoch(&ctx_b));
}

#[test]
fn local_stripe_indices_rotate_devices_per_data_node() {
    let nodes = vec![
        data_node("node-a", "10.0.0.1:50051"),
        data_node("node-b", "10.0.0.2:50051"),
    ];
    let ctx_a = ctx_with_local_and_nodes("node-a", "10.0.0.1:50051", nodes.clone());
    let ctx_b = ctx_with_local_and_nodes("node-b", "10.0.0.2:50051", nodes);
    let key = key();
    let mut node_a_seen = 0;
    let mut node_b_seen = 0;

    for stripe_index in 0..8 {
        let node = select_data_node(&ctx_a, &key, stripe_index);
        let (ctx, seen) = if node.node_id == "node-a" {
            (&ctx_a, &mut node_a_seen)
        } else {
            (&ctx_b, &mut node_b_seen)
        };
        assert_eq!(local_device_stripe_index(ctx, &key, stripe_index), Some(*seen));
        *seen += 1;
    }
}

#[test]
fn local_stripe_indices_handle_duplicate_local_data_nodes() {
    let nodes = vec![
        data_node("node-a", "10.0.0.1:50051"),
        data_node("node-a", "10.0.0.1:50051"),
    ];
    let ctx = ctx_with_local_and_nodes("node-a", "10.0.0.1:50051", nodes);

    for stripe_index in 0..8 {
        assert_eq!(local_device_stripe_index(&ctx, &key(), stripe_index), Some(stripe_index));
    }
}

#[test]
fn placement_validation_accepts_current_descriptor() {
    let ctx = ctx_with_nodes(vec![data_node("node-a", "10.0.0.1:50051")]);
    let meta = meta();
    let placement = placement_from_meta(&ctx, &key(), &meta);

    validate_placement_descriptor(&ctx, &key(), &meta, Some(&placement)).unwrap();
}

#[test]
fn placement_validation_rejects_stale_epoch() {
    let ctx = ctx_with_nodes(vec![data_node("node-a", "10.0.0.1:50051")]);
    let meta = meta();
    let mut placement = placement_from_meta(&ctx, &key(), &meta);
    placement.placement_epoch = placement.placement_epoch.wrapping_add(1);

    let err = validate_placement_descriptor(&ctx, &key(), &meta, Some(&placement)).unwrap_err();
    assert_eq!(err.code, Code::FailedPrecondition);
}

fn options(ttl_seconds: i64, if_not_exists: bool) -> pb::PutOptions {
    pb::PutOptions { ttl_seconds, if_not_exists, compression: 0 }
}

#[test]
fn meta_from_pb_applies_put_options_ttl() {
    let options = options(30, false);
    let meta = meta_from_pb(None, Some(&options));

    assert_eq!(meta.ttl_seconds, 30);
}

#[test]
fn meta_from_pb_clamps_negative_ttl_to_disabled() {
    let options = options(-1, false);
    let meta = meta_from_pb(None, Some(&options));

    assert_eq!(meta.ttl_seconds, 0);
}

#[test]
fn fresh_records_carry_the_clock() {
    let meta = meta_from_pb(None, None);
    assert!(meta.created_at > 1_600_000_000);
    assert_eq!(meta.created_at, meta.last_accessed_at);
    assert_eq!(meta.dtype, "bfloat16");
    let told = pb::KvMetadata {
        num_tokens: 3,
        num_layers: 4,
        dtype: "f16".to_string(),
        shape: vec![1, 2],
        compressed: true,
        compression_level: 1,
        created_at: 77,
        last_accessed_at: 5,
    };
    let stored = meta_from_pb_at(Some(&told), None, 100);
    assert_eq!(stored.created_at, 77);
    assert_eq!(stored.last_accessed_at, 100);
    let back = meta_to_pb(&stored);
    assert_eq!((back.num_tokens, back.num_layers), (3, 4));
    assert_eq!(back.dtype, "f16");
    assert!(back.compressed);
}

#[test]
fn the_node_knows_itself_from_config_then_environment() {
    let mut cfg = Config::default();
    cfg.cluster.node_id = "from-config".to_string();
    let env = NodeEnv {
        node_id: Some("from-env".to_string()),
        grpc_advertise: Some("1.2.3.4:5".to_string()),
        rdma_advertise: None,
    };
    let ctx = KVServiceContext::new(cfg, env);
    let node = local_node(&ctx);
    assert_eq!(node.node_id, "from-config");
    assert_eq!(node.grpc_endpoint, "1.2.3.4:5");
    let alone = configured_data_nodes(&ctx);
    assert_eq!(alone.len(), 1);
    assert!(is_local_node(&ctx, &alone[0]));
    assert!(!distributed_placement_enabled(&ctx, u64::MAX));
}

fn two_node_ctx() -> KVServiceContext {
    let mut ctx = ctx_with_local_and_nodes(
        "node-a",
        "10.0.0.1:50051",
        vec![data_node("node-a", "10.0.0.1:50051"), data_node("node-b", "10.0.0.2:50051")],
    );
    ctx.config.storage.striping_threshold = 10;
    ctx.config.storage.striping_chunk_size = 4;
    ctx
}

#[test]
fn distribution_starts_above_the_threshold() {
    let ctx = two_node_ctx();
    assert!(!distributed_placement_enabled(&ctx, 10));
    assert!(distributed_placement_enabled(&ctx, 11));
    assert!(placement_policy_id(&ctx).len() > 0);
}

#[test]
fn locations_travel_and_come_back() {
    let loc = two_stripes().chunk_locations[1].clone();
    let sent = chunk_location_to_pb(&key(), &loc);
    assert_eq!(pb_chunk_to_location(&sent), loc);
}

#[test]
fn a_descriptor_names_its_key() {
    let desc = descriptor_from_meta(&key(), &meta());
    let k = key_from_descriptor(&desc).unwrap();
    assert!(k.matches(&key()));
    let mut nameless = descriptor_from_meta(&key(), &meta());
    nameless.key = None;
    let err = key_from_descriptor(&nameless).unwrap_err();
    assert_eq!((err.code, err.message.as_str()), (Code::InvalidArgument, "descriptor missing key"));
    assert_eq!(object_handle(&key(), &meta()), "handle-2");
    let mut old = meta();
    old.object_handle.clear();
    assert!(!object_handle(&key(), &old).is_empty());
    assert!(read_request_key(None).is_err());
    assert!(read_request_key(Some(&desc)).is_ok());
}

#[test]
fn expired_records_are_purged_or_reread() {
    assert!(matches!(live_lookup(None, false), LiveStep::Answer(None)));
    assert!(matches!(live_lookup(Some(meta()), false), LiveStep::Answer(Some(_))));
    assert!(matches!(live_lookup(Some(meta()), true), LiveStep::Purge(_)));
    assert!(matches!(live_after_purge(true), LiveStep::Answer(None)));
    assert!(matches!(live_after_purge(false), LiveStep::Reread));
    assert!(matches!(live_reread(Some(meta()), true), LiveStep::Answer(None)));
    assert!(matches!(live_reread(Some(meta()), false), LiveStep::Answer(Some(_))));
    let mut newer = meta();
    newer.object_generation = 3;
    assert!(meta_identity_matches(&meta(), &meta()));
    assert!(!meta_identity_matches(&newer, &meta()));
    assert!(purge_confirmed(Some(&meta()), true, &meta()));
    assert!(!purge_confirmed(Some(&newer), true, &meta()));
    assert!(!purge_confirmed(Some(&meta()), false, &meta()));
    assert!(!purge_confirmed(None, true, &meta()));
    let ctx = two_node_ctx();
    let mut striped = meta();
    striped.striping = Some(two_stripes());
    assert!(matches!(purge_plan(&ctx, &key(), &meta(), false), PurgeStep::Keep));
    assert!(matches!(purge_plan(&ctx, &key(), &striped, true), PurgeStep::Distributed(_)));
}

#[test]
fn reads_go_to_the_nodes_that_hold_the_stripes() {
    let ctx = two_node_ctx();
    let mut striped = meta();
    striped.striping = Some(two_stripes());
    match read_route(&ctx, &key(), Some(&striped)) {
        ReadRoute::Distributed { descriptor, placement } => {
            assert_eq!(descriptor.object_generation, 2);
            assert_eq!(placement.chunks.len(), 2);
            assert!(validation_placement(&placement).chunks.is_empty());
            assert_eq!(
                expected_checksum(&descriptor, &placement.chunks[0]),
                Some("checksum-a".to_string())
            );
        }
        ReadRoute::Local => panic!("stripe one is on another node"),
    }
    assert!(matches!(read_route(&ctx, &key(), None), ReadRoute::Local));
}

#[test]
fn replies_carry_what_was_found() {
    let found = get_reply(Some((Bytes::from_static(b"abc"), meta())));
    assert!(found.found);
    assert_eq!(&found.data[..], b"abc");
    assert!(!get_reply(None).found);
    let batch = get_batch_reply(vec![
        Ok(Some((Bytes::from_static(b"x"), meta()))),
        Ok(None),
        Err(KVError::Internal("broken".to_string())),
    ]);
    assert_eq!(batch.iter().map(|r| r.found).collect::<Vec<_>>(), vec![true, false, false]);
    let ctx = two_node_ctx();
    let lookup = lookup_reply(&ctx, &key(), Some(&meta()));
    assert!(lookup.found && lookup.descriptor.is_some() && lookup.placement.is_some());
    assert!(!lookup_reply(&ctx, &key(), None).found);
    let read = read_reply(&ctx, &key(), &meta(), Some(Bytes::from_static(b"abc")));
    assert!(read.found && read.descriptor.is_some());
    assert!(!read_reply(&ctx, &key(), &meta(), None).found);
    let ok = put_reply(true);
    assert!(ok.success && ok.message.is_empty());
    assert_eq!(put_reply(false).message, "already exists");
    let stats = stats_reply((1, 2, 3, 4));
    assert_eq!((stats.l1_cache_hits, stats.l1_cache_misses, stats.l1_cache_size_bytes), (1, 2, 4));
    assert_eq!((stats.l2_reads_total, stats.l2_writes_total), (0, 0));
    assert_eq!((stats.l2_bytes_read, stats.l2_bytes_written), (0, 0));
    assert_eq!(stats.metadata_entries, 0);
}

#[test]
fn a_missing_key_is_refused() {
    let err = require_key(None, "missing key").unwrap_err();
    assert_eq!((err.code, err.message.as_str()), (Code::InvalidArgument, "missing key"));
    assert_eq!(require_chunk(None).unwrap_err().message, "missing placement chunk");
    assert_eq!(require_stripe_data(None).unwrap_err().code, Code::NotFound);
}

#[test]
fn stale_reads_are_refused() {
    let ctx = two_node_ctx();
    let desc = descriptor_from_meta(&key(), &meta());
    assert!(check_read(&ctx, &key(), &desc, &meta(), None).is_ok());
    let mut newer = meta();
    newer.object_generation = 3;
    assert_eq!(
        check_read(&ctx, &key(), &desc, &newer, None).unwrap_err().message,
        "stale descriptor"
    );
}

#[test]
fn an_existing_object_refuses_a_conditional_write() {
    assert!(matches!(existence_gate(None, false), ExistenceGate::Write));
    assert!(matches!(existence_gate(Some(meta()), true), ExistenceGate::PurgeFirst(_)));
    assert!(matches!(existence_gate(Some(meta()), false), ExistenceGate::Refuse));
}

fn item(name: Option<&str>, if_not_exists: bool) -> PutItem {
    PutItem {
        key: name.map(|n| pb::ObjectKey { namespace: "n".to_string(), object_key: n.to_string() }),
        data: Bytes::from_static(b"d"),
        metadata: None,
        options: Some(options(0, if_not_exists)),
    }
}

#[test]
fn batches_are_planned_item_by_item() {
    let plan = plan_put_batch(vec![item(Some("a"), false), item(Some("b"), true)]);
    match plan {
        Ok(plan) => {
            assert!(plan.one_by_one);
            assert_eq!(plan.items.len(), 2);
            assert_eq!(plan.items[1].key.object_key, "b");
        }
        Err(_) => panic!("both items have keys"),
    }
    match plan_put_batch(vec![item(Some("a"), false), item(None, false)]) {
        Err(e) => assert_eq!(e.message, "missing key in batch item"),
        Ok(_) => panic!("an item has no key"),
    }
    assert_eq!(
        put_batch_flags(&vec![Ok(true), Ok(false), Err(KVError::Internal(String::new()))]),
        vec![true, false, false]
    );
}

#[test]
fn stripe_writes_are_planned_round_the_nodes() {
    let ctx = two_node_ctx();
    let tasks = plan_stripe_writes(&ctx, &key(), &Bytes::from_static(b"0123456789"));
    assert_eq!(tasks.len(), 3);
    let mut joined = Vec::new();
    for (i, task) in tasks.iter().enumerate() {
        assert_eq!(task.stripe.index, i);
        assert_eq!(task.stripe.offset, 4 * i as u64);
        assert_eq!(task.node.node_id, select_data_node(&ctx, &key(), i).node_id);
        for s in &task.stripe.segments {
            joined.extend_from_slice(s);
        }
        let here = task.node.node_id == "node-a";
        match stripe_target(&ctx, &key(), i, &task.node).unwrap() {
            StripeTarget::Local(n) => {
                assert!(here);
                assert_eq!(Some(n), local_device_stripe_index(&ctx, &key(), i));
            }
            StripeTarget::Remote => assert!(!here),
        }
    }
    assert_eq!(joined, b"0123456789");
    assert_ne!(tasks[0].node.node_id, tasks[1].node.node_id);
}

fn written(i: usize, checksum: &str) -> Result<ChunkWriteResult, Status> {
    let mut location = two_stripes().chunk_locations[i].clone();
    location.checksum = checksum.to_string();
    Ok(ChunkWriteResult { location, is_local: i == 0 })
}

#[test]
fn written_stripes_are_committed_or_rolled_back() {
    match settle_writes(&key(), meta(), vec![written(1, "b"), written(0, "a")], 12, 6, true) {
        WriteVerdict::Commit { meta, rollback } => {
            assert_eq!(meta.size, 12);
            assert_eq!(rollback.len(), 2);
            let striping = meta.striping.unwrap();
            assert_eq!(striping.chunk_paths, vec!["/tmp/a", "/tmp/b"]);
            assert_eq!(striping.chunk_checksums, vec!["a", "b"]);
        }
        WriteVerdict::Refuse { .. } => panic!("all stripes were written"),
    }
    match settle_writes(&key(), meta(), vec![written(0, "")], 6, 6, true) {
        WriteVerdict::Refuse { status, rollback } => {
            assert_eq!(status.code, Code::FailedPrecondition);
            assert_eq!(rollback.len(), 1);
        }
        WriteVerdict::Commit { .. } => panic!("a checksum is missing"),
    }
    let failed = Err(Status::new(Code::Unavailable, "node down"));
    match settle_writes(&key(), meta(), vec![written(0, "a"), failed], 12, 6, false) {
        WriteVerdict::Refuse { status, rollback } => {
            assert_eq!(status.message, "node down");
            assert_eq!(rollback.len(), 1);
        }
        WriteVerdict::Commit { .. } => panic!("a stripe is missing"),
    }
    let chunk = chunk_location_to_pb(&key(), &two_stripes().chunk_locations[0]);
    let stored = conclude_put(CommitOutcome::Stored, vec![chunk.clone()]);
    assert!(stored.rollback.is_empty());
    assert_eq!(stored.reply, Ok(true));
    let lost = conclude_put(CommitOutcome::Exists, vec![chunk]);
    assert_eq!(lost.rollback.len(), 1);
    assert_eq!(lost.reply, Ok(false));
}

#[test]
fn a_reserved_layout_can_be_committed() {
    let ctx = two_node_ctx();
    assert_eq!(prepare_precheck(&ctx, 0).unwrap().message, "empty object");
    assert_eq!(
        prepare_precheck(&ctx, 5).unwrap().message,
        "below striping threshold or single data node"
    );
    assert!(prepare_precheck(&ctx, 11).is_none());
    assert_eq!(prepare_existence(true, true).unwrap().message, "already exists");
    assert!(prepare_existence(true, false).is_none());
    let mut prepared = meta();
    prepared.size = 11;
    let reply = prepare_reply(&ctx, &key(), &prepared, 11);
    assert!(reply.accepted);
    let descriptor = reply.descriptor.unwrap();
    assert_eq!((descriptor.stripe_count, descriptor.chunk_size), (3, 4));
    let mut chunks = reply.placement.unwrap().chunks;
    assert_eq!(chunks.iter().map(|c| c.length).sum::<u64>(), 11);
    chunks.reverse();
    let plan = plan_commit(&descriptor, chunks.clone(), None, None, false);
    match plan {
        Ok(plan) => {
            assert_eq!(plan.meta.size, 11);
            assert_eq!(plan.meta.object_generation, 2);
            validate_descriptor(&descriptor, &plan.meta).unwrap();
        }
        Err(_) => panic!("the layout is covered"),
    }
    let refused = |chunks: Vec<pb::PlacementChunk>, verify: bool| {
        match plan_commit(&descriptor, chunks, None, None, verify) {
            Err(e) => e.message,
            Ok(_) => panic!("expected a refusal"),
        }
    };
    assert_eq!(refused(vec![], false), "no stripe locations");
    assert_eq!(
        refused(chunks[..2].to_vec(), false),
        "stripe locations do not cover the prepared layout"
    );
    assert_eq!(
        refused(chunks.clone(), true),
        "stripe integrity is enabled but a stripe location lacks a checksum"
    );
    let mut huge = chunks.clone();
    for c in huge.iter_mut() {
        c.length = u64::MAX;
    }
    assert_eq!(
        refused(huge[..2].to_vec(), false),
        "stripe locations do not cover the prepared layout"
    );
    assert_eq!(
        refused(huge, true),
        "stripe integrity is enabled but a stripe location lacks a checksum"
    );
    let ordered = check_commit(chunks.clone(), 3, false).unwrap();
    assert_eq!(ordered.iter().map(|c| c.stripe_index).collect::<Vec<_>>(), vec![0, 1, 2]);
    assert_eq!(check_commit(vec![], 3, false).unwrap_err().message, "no stripe locations");
    let (answer, rollback) = commit_reply(false, chunks);
    assert!(!answer.committed);
    assert_eq!(answer.message, "already exists");
    assert_eq!(rollback.len(), 3);
}

#[test]
fn stripes_are_accepted_where_they_belong() {
    let ctx = two_node_ctx();
    let mut here = 0;
    for i in 0..4u32 {
        match accept_stripe(&ctx, &key(), i) {
            Ok(ordinal) => {
                assert_eq!(ordinal, here);
                here += 1;
            }
            Err(e) => assert_eq!(e.message, "stripe assigned to a different data node"),
        }
    }
    assert_eq!(here, 2);
    let c = stored_stripe(&ctx, 3, 4, 2, 7, "/h".to_string(), "c".to_string());
    assert_eq!((c.offset, c.length), (12, 2));
    assert_eq!((c.node_id.as_str(), c.device_id), ("node-a", 7));
}

#[test]
fn gpu_requests_are_checked() {
    let k = pb::ObjectKey { namespace: "n".to_string(), object_key: "o".to_string() };
    let handle = vec![0u8; 64];
    assert_eq!(
        check_gpu_request(GpuSupport::NotCompiled, true, Some(&k), &handle).unwrap_err().code,
        Code::Unimplemented
    );
    assert_eq!(
        check_gpu_request(GpuSupport::NotAvailable, true, Some(&k), &handle).unwrap_err().code,
        Code::FailedPrecondition
    );
    assert_eq!(
        check_gpu_request(GpuSupport::Available, true, Some(&k), &vec![0u8; 63])
            .unwrap_err()
            .message,
        "ipc_handle must be 64 bytes"
    );
    assert!(check_gpu_request(GpuSupport::Available, false, Some(&k), &handle).is_ok());
}

#[test]
fn reads_into_gpu_memory_are_answered() {
    let read = gpu_read_reply(Some((128, meta())));
    assert!(read.found);
    assert_eq!(read.bytes_read, 128);
    assert_eq!(read.metadata.unwrap().num_tokens, 16);
    let missing = gpu_read_reply(None);
    assert!(!missing.found && missing.metadata.is_none());
    assert_eq!(missing.bytes_read, 0);
}

#[test]
fn errors_become_statuses() {
    let s = to_status(KVError::NotFound("k".to_string()));
    assert_eq!((s.code, s.message.as_str()), (Code::NotFound, "k"));
    let s = to_status(KVError::AlreadyExists("k".to_string()));
    assert_eq!((s.code, s.message.as_str()), (Code::AlreadyExists, "k"));
    let s = to_status(KVError::InvalidArgument("k".to_string()));
    assert_eq!((s.code, s.message.as_str()), (Code::InvalidArgument, "k"));
    let s = to_status(KVError::Io("disk".to_string()));
    assert_eq!((s.code, s.message.as_str()), (Code::Internal, "I/O error: disk"));
    assert_eq!(KVError::Config("c".to_string()).message(), "config error: c");
    assert_eq!(KVError::Metadata("c".to_string()).message(), "metadata error: c");
    assert_eq!(KVError::RocksDb("c".to_string()).message(), "RocksDB error: c");
    assert_eq!(KVError::Internal("c".to_string()).message(), "internal error: c");
}

#[test]
fn addresses_get_a_scheme() {
    assert_eq!(grpc_uri("h:1"), "http://h:1");
    assert_eq!(grpc_uri("https://h:1"), "https://h:1");
}

/// Writes an object through one node, its stripes last to first, and hands out its record and
/// what each node was sent under each handle.
fn written_backwards(ctx: &KVServiceContext, data: &'static [u8]) -> (BlockMeta, Vec<Bytes>) {
    let tasks = plan_stripe_writes(ctx, &key(), &Bytes::from_static(data));
    let mut held: Vec<Bytes> = Vec::new();
    let mut results: Vec<Result<ChunkWriteResult, Status>> = Vec::new();
    for task in tasks {
        let sent = task.stripe.segments.concat();
        results.push(Ok(local_write_result(
            task.node,
            task.stripe.index,
            task.stripe.offset,
            sent.len() as u64,
            0,
            format!("handle-{}", held.len()),
            "sum".to_string(),
        )));
        held.push(Bytes::from(sent));
    }
    results.reverse();
    match settle_writes(&key(), meta(), results, data.len() as u64, 4, true) {
        WriteVerdict::Commit { meta, .. } => (meta, held),
        WriteVerdict::Refuse { .. } => panic!("all stripes were written"),
    }
}

#[test]
fn an_object_is_read_on_every_node_as_it_was_written() {
    let (record, held) = written_backwards(&two_node_ctx(), b"0123456789");
    assert_eq!(record.size, 10);
    for (id, grpc) in [("node-a", "10.0.0.1:50051"), ("node-b", "10.0.0.2:50051")] {
        let nodes = two_node_ctx().config.cluster.data_nodes;
        let reader = ctx_with_local_and_nodes(id, grpc, nodes);
        let chunks = placement_from_meta(&reader, &key(), &record).chunks;
        let places: Vec<(u32, u64, u64)> =
            chunks.iter().map(|c| (c.stripe_index, c.offset, c.length)).collect();
        assert_eq!(places, vec![(0, 0, 4), (1, 4, 4), (2, 8, 2)]);
        let read = || -> Vec<ReadStripe> {
            [2, 0, 1]
                .iter()
                .map(|i: &usize| {
                    let chunk = &chunks[*i];
                    let stored = chunk.storage_handle.strip_prefix("handle-").unwrap();
                    stripe_read(chunk, held[stored.parse::<usize>().unwrap()].clone())
                })
                .collect()
        };
        assert_eq!(join_stripes(read()), vec!["0123", "4567", "89"]);
        let reply = distributed_get_reply(read(), &record);
        assert!(reply.found);
        assert_eq!(&reply.data[..], b"0123456789");
    }
}

#[test]
fn a_stripe_is_read_where_it_is() {
    let ctx = two_node_ctx();
    let (record, _) = written_backwards(&ctx, b"0123456789");
    let chunks = placement_from_meta(&ctx, &key(), &record).chunks;
    let here: Vec<bool> = chunks.iter().map(|c| stripe_source(&ctx, c)).collect();
    let expected: Vec<bool> =
        (0..3).map(|i| select_data_node(&ctx, &key(), i).node_id == "node-a").collect();
    assert_eq!(here, expected);
    assert!(here.contains(&true) && here.contains(&false));
    let stripe = stripe_read(&chunks[2], Bytes::from_static(b"89"));
    assert_eq!((stripe.index, &stripe.data[..]), (2, &b"89"[..]));
}

#[test]
fn nodes_that_cannot_be_reached_are_named() {
    let broken = stripe_stream_broken("reset");
    assert_eq!((broken.code, broken.message.as_str()), (Code::Unavailable, "read chunk stream: reset"));
    let texts: Vec<String> =
        [NodeCall::Connect, NodeCall::PutChunk, NodeCall::ReadChunk, NodeCall::DeleteChunk]
            .into_iter()
            .map(|call| node_unavailable(call, "node-b", "down").message)
            .collect();
    assert_eq!(
        texts,
        vec![
            "connect data node node-b: down",
            "put chunk to node-b: down",
            "read chunk from node-b: down",
            "delete chunk from node-b: down",
        ]
    );
}
