use contextstore::adapters::{find_device, select_device, Seeker};
use contextstore::config::Config;
use contextstore::pb::{ObjectDescriptor, PlacementChunk, PlacementDescriptor};
use contextstore::rdma_bench::{
    check_coordinator_args, check_head, check_put_args, check_receive_buffer, check_round,
    check_setup, cut_segments, endpoint_stripes, fill_plan, found_placement, parse_mode,
    require_summary, round_key, shows_pattern, summarize, test_pattern, GetBench, Mode,
    ObjectLookup, Segment, WorkerEvent,
};
use contextstore::store_bench::{
    adjust_striping, batches, check_read, combined_key, make_chunks, make_key, make_meta,
    make_storage_segments, memory_config, storage_config, validate_args, BenchArgs, CheckedRead,
};

#[test]
fn arguments_are_checked() {
    assert_eq!(parse_mode("get"), Ok(Mode::Get));
    assert_eq!(parse_mode("put"), Ok(Mode::Put));
    assert_eq!(parse_mode("x").unwrap_err(), "unknown --mode x (expected get|put)");
    assert_eq!(
        check_put_args(true, true, true).unwrap_err(),
        "--mode put does not support --coordinator (single endpoint only)"
    );
    assert_eq!(
        check_put_args(false, false, true).unwrap_err(),
        "--mode put requires --namespace"
    );
    assert_eq!(
        check_put_args(false, true, false).unwrap_err(),
        "--mode put requires --object-key"
    );
    assert!(check_put_args(false, true, true).is_ok());
    assert_eq!(
        check_coordinator_args(false, true).unwrap_err(),
        "--coordinator requires --namespace"
    );
    assert_eq!(
        check_coordinator_args(true, false).unwrap_err(),
        "--coordinator requires --object-key"
    );
    assert_eq!(round_key("o", 12), "o-i12");
}

#[test]
fn the_pattern_shows_shifts() {
    let p = test_pattern(300);
    assert_eq!((p[0], p[250], p[251], p[299]), (0, 250, 0, 48));
    assert!(shows_pattern(&p[..16]));
    assert!(!shows_pattern(&p[1..16]));
    assert!(shows_pattern(&[]));
    assert!(check_head(&p[..16]).is_ok());
    assert_eq!(
        check_head(&p[1..17]).unwrap_err(),
        "received data failed prefix validation"
    );
    let clear = fill_plan(true, 100);
    assert_eq!((clear.value, clear.len), (0, 100));
    let mark = fill_plan(false, 100);
    assert_eq!((mark.value, mark.len), (0xff, 64));
    assert_eq!(fill_plan(false, 10).len, 10);
}

#[test]
fn times_are_summarized() {
    let s = summarize(&vec![5, 1, 9, 3]).unwrap();
    assert_eq!((s.min, s.median, s.max), (1, 5, 9));
    assert!(summarize(&vec![]).is_none());
    assert_eq!(
        require_summary(&vec![]).unwrap_err(),
        "--iters must be greater than zero"
    );
    assert_eq!(require_summary(&vec![4]).unwrap().median, 4);
}

#[test]
fn one_server_is_read_round_by_round() {
    let mut bench = GetBench::new("k".to_string(), 0x10, 2, 99, 2);
    let mut body = vec![1u8];
    body.extend_from_slice(&10u64.to_le_bytes());
    body.extend_from_slice(&3u32.to_le_bytes());
    for t in [70u64, 50] {
        let request = bench.request().unwrap();
        assert_eq!(request[..4], [2, 1, 0, b'k']);
        assert_eq!(request.len(), 24);
        let answer = bench.answered(3, &body, t).unwrap();
        assert_eq!((answer.bytes_written, answer.num_chunks, answer.head_len), (10, 3, 10));
    }
    assert!(bench.request().is_none());
    let (summary, bytes) = bench.finish().unwrap();
    assert_eq!((summary.min, summary.median, summary.max, bytes), (50, 70, 70, 10));
    assert_eq!(bench.answered(4, &body, 1).unwrap_err(), "expected GET_RESP, got 4");
    body[0] = 0;
    assert_eq!(
        bench.answered(3, &body, 1).unwrap_err(),
        "key 'k' not found in server cache. Run cs-bench first to PUT"
    );
    assert!(GetBench::new(String::new(), 0, 0, 0, 0).finish().is_none());
}

fn chunk(stripe_index: u32, endpoint: &str) -> PlacementChunk {
    PlacementChunk {
        stripe_index,
        node_id: String::new(),
        grpc_endpoint: String::new(),
        rdma_endpoint: endpoint.to_string(),
        device_id: 0,
        storage_handle: String::new(),
        offset: 0,
        length: 0,
        checksum: String::new(),
    }
}

fn refusal(chunks: Vec<PlacementChunk>) -> String {
    match endpoint_stripes(&chunks) {
        Err(e) => e,
        Ok(_) => panic!("expected a refusal"),
    }
}

#[test]
fn stripes_are_grouped_by_server() {
    let groups = match endpoint_stripes(&vec![
        chunk(3, "b"),
        chunk(0, "a"),
        chunk(1, "b"),
        chunk(3, "b"),
        chunk(2, "a"),
    ]) {
        Ok(g) => g,
        Err(e) => panic!("{}", e),
    };
    assert_eq!(groups.len(), 2);
    assert_eq!((groups[0].endpoint.as_str(), &groups[0].stripes), ("a", &vec![0, 2]));
    assert_eq!((groups[1].endpoint.as_str(), &groups[1].stripes), ("b", &vec![1, 3]));
    assert_eq!(refusal(vec![]), "object placement contains no chunks");
    assert_eq!(
        refusal(vec![chunk(0, "a"), chunk(7, "")]),
        "stripe 7 has no RDMA endpoint in placement"
    );
}

#[test]
fn receive_buffers_are_checked_and_cut() {
    assert_eq!(check_receive_buffer(10, 10), Ok(10));
    assert_eq!(
        check_receive_buffer(9, 10).unwrap_err(),
        "client buffer too small: 9 bytes for 10 byte object"
    );
    assert_eq!(
        cut_segments(100, 5, 10, 3),
        vec![
            Segment { addr: 100, rkey: 5, len: 3 },
            Segment { addr: 103, rkey: 5, len: 3 },
            Segment { addr: 106, rkey: 5, len: 3 },
            Segment { addr: 109, rkey: 5, len: 1 },
        ]
    );
    assert_eq!(cut_segments(0, 0, 2, 9).len(), 2);
}

fn ready(endpoint: &str, setup: Result<(), &str>) -> WorkerEvent {
    WorkerEvent::Ready {
        endpoint: endpoint.to_string(),
        setup: setup.map_err(|e| e.to_string()),
    }
}

fn done(endpoint: &str, bytes: Result<usize, &str>) -> WorkerEvent {
    WorkerEvent::ReadDone {
        endpoint: endpoint.to_string(),
        bytes: bytes.map_err(|e| e.to_string()),
    }
}

#[test]
fn reports_of_readers_are_judged() {
    assert!(check_setup(&vec![ready("a", Ok(())), ready("b", Ok(()))]).is_ok());
    assert_eq!(
        check_setup(&vec![ready("a", Err("x")), ready("b", Err("y")), ready("c", Ok(()))])
            .unwrap_err(),
        "RDMA endpoint b setup failed: y"
    );
    assert_eq!(
        check_setup(&vec![done("a", Ok(1))]).unwrap_err(),
        "worker returned data before setup completed"
    );
    assert!(check_round(&vec![done("a", Ok(3)), done("b", Ok(4))], 7).is_ok());
    assert_eq!(
        check_round(&vec![done("a", Ok(3))], 7).unwrap_err(),
        "partial multi-endpoint read: 3 of 7 bytes"
    );
    assert_eq!(
        check_round(&vec![done("a", Err("x")), done("b", Err("y"))], 7).unwrap_err(),
        "RDMA endpoint a read failed: x"
    );
    assert_eq!(
        check_round(&vec![ready("a", Ok(()))], 7).unwrap_err(),
        "duplicate ready event from a"
    );
}

fn args() -> BenchArgs {
    BenchArgs {
        single_bytes: 4096,
        chunk_total_kb: 64,
        chunk_count: 8,
        single_iters: 1,
        chunk_iters: 1,
        cross_iters: 1,
        storage_size_mb: 128,
        storage_iters: 4,
        storage_concurrency: 4,
        storage_chunk_mb: 2,
    }
}

#[test]
fn each_fault_of_the_arguments_is_told() {
    assert!(validate_args(&args()).is_ok());
    let cases = [
        (BenchArgs { single_bytes: 0, ..args() }, "--single-bytes must be > 0"),
        (
            BenchArgs { single_bytes: 0, chunk_total_kb: usize::MAX, ..args() },
            "--single-bytes must be > 0",
        ),
        (
            BenchArgs { chunk_count: 0, chunk_total_kb: usize::MAX, ..args() },
            "--chunk-count must be > 0",
        ),
        (BenchArgs { chunk_total_kb: 0, ..args() }, "--chunk-total-kb must be > 0"),
        (BenchArgs { chunk_count: 0, ..args() }, "--chunk-count must be > 0"),
        (BenchArgs { chunk_count: 65537, ..args() }, "chunk total size must be >= chunk count"),
        (
            BenchArgs { storage_concurrency: 0, ..args() },
            "iteration and concurrency arguments must be > 0",
        ),
        (BenchArgs { storage_chunk_mb: 0, ..args() }, "storage size arguments must be > 0"),
    ];
    for (a, text) in cases {
        assert_eq!(validate_args(&a).unwrap_err(), text);
    }
}

#[test]
fn objects_of_the_benchmark() {
    let k = make_key("single", 42);
    assert_eq!(k.to_string_key(), "15:kvservice-benchsingle/object_00000042");
    assert_eq!(make_key("r", 123456789).object_key, "r/object_123456789");
    let meta = make_meta(7);
    assert_eq!((meta.size, meta.num_tokens, meta.dtype.as_str()), (7, 128, "uint8"));
    let chunks = make_chunks(10, 3);
    assert_eq!(chunks.iter().map(|c| c.len()).collect::<Vec<_>>(), vec![3, 3, 4]);
    assert_eq!(chunks[2].to_vec(), vec![6, 7, 8, 9]);
    let segments = make_storage_segments(10, 4);
    assert_eq!(segments.iter().map(|c| c.len()).collect::<Vec<_>>(), vec![4, 4, 2]);
    assert_eq!(batches(10, 4), vec![(0, 4), (4, 8), (8, 10)]);
    assert_eq!(combined_key("comb", 3), "comb3/__combined__");
}

#[test]
fn reads_of_the_benchmark_are_judged() {
    assert!(check_read(CheckedRead::Single, Some(3), 3).is_ok());
    let told = |read: CheckedRead, got: Option<usize>| check_read(read, got, 3).unwrap_err();
    assert_eq!(told(CheckedRead::Single, None), "single get returned None");
    assert_eq!(told(CheckedRead::Single, Some(2)), "single get size mismatch: 2 != 3");
    assert_eq!(told(CheckedRead::Chunks, Some(2)), "chunks get size mismatch: 2 != 3");
    assert_eq!(
        told(CheckedRead::SingleToChunks, Some(2)),
        "single->chunks stale read: get returned 2 bytes, expected 3 bytes"
    );
    assert_eq!(
        told(CheckedRead::ChunksToSingle, Some(2)),
        "chunks->single stale read: get_chunks returned 2 bytes, expected 3 bytes"
    );
    assert_eq!(told(CheckedRead::Storage, Some(2)), "storage read size mismatch: 2 != 3");
    assert_eq!(told(CheckedRead::Storage, None), "storage read None");
}

#[test]
fn configurations_of_the_benchmark() {
    let c = memory_config("/d/nvme0".to_string(), 5);
    assert_eq!(c.storage.devices, vec!["/d/nvme0"]);
    assert_eq!((c.storage.striping_threshold, c.memory_tier.capacity_mb), (0, 5));
    let mut c = storage_config("/d/nvme0".to_string());
    assert_eq!(c.storage.striping_threshold, 256 * 1024 * 1024);
    adjust_striping(&mut c, 256);
    assert_eq!(c.storage.striping_threshold, 256 * 1024 * 1024);
    adjust_striping(&mut c, 255);
    assert_eq!(c.storage.striping_threshold, 0);
    assert_eq!(c.api.listen, Config::default().api.listen);
}

#[test]
fn the_first_adapter_of_a_name_is_taken() {
    let names: Vec<String> = ["mlx5_1", "mlx5_0", "mlx5_0"].map(String::from).to_vec();
    assert_eq!(find_device(&names, "mlx5_0"), Ok(1));
    assert_eq!(find_device(&names, "mlx5").unwrap_err(), "device mlx5 not found");
    let listed = Some(names);
    for seeker in [Seeker::Client, Seeker::Worker, Seeker::Bench] {
        assert_eq!(select_device(&listed, "mlx5_1", seeker), Ok(0));
    }
    let told = |listed: Option<Vec<String>>, seeker| {
        select_device(&listed, "x", seeker).unwrap_err()
    };
    assert_eq!(told(None, Seeker::Client), "no RDMA device found");
    assert_eq!(told(None, Seeker::Worker), "ibv_get_device_list returned null");
    assert_eq!(told(None, Seeker::Bench), "no RDMA device");
    assert_eq!(told(Some(vec![]), Seeker::Client), "no RDMA device found");
    assert_eq!(told(Some(vec![]), Seeker::Worker), "device x not found");
    assert_eq!(told(Some(vec![]), Seeker::Bench), "device x not found");
    let one = || Some(vec!["y".to_string()]);
    assert_eq!(told(one(), Seeker::Client), "RDMA device 'x' not found");
    assert_eq!(told(one(), Seeker::Bench), "device x not found");
}

#[test]
fn a_lookup_gives_the_placement() {
    let descriptor = || ObjectDescriptor {
        key: None,
        object_handle: "h".to_string(),
        object_generation: 1,
        content_etag: String::new(),
        layout_version: 1,
        size: 5,
        is_striped: true,
        stripe_count: 1,
        chunk_size: 5,
    };
    let placement = || PlacementDescriptor {
        key: None,
        placement_epoch: 7,
        placement_policy_id: String::new(),
        layout_hash: String::new(),
        primary_node_id: "a".to_string(),
        primary_grpc_endpoint: String::new(),
        primary_rdma_endpoint: String::new(),
        chunks: vec![chunk(0, "h:1")],
    };
    assert_eq!(found_placement(None, "ns", "obj").unwrap_err(), "object not found: ns/obj");
    let bare = ObjectLookup { descriptor: descriptor(), placement: None };
    assert_eq!(
        found_placement(Some(bare), "ns", "obj").unwrap_err(),
        "object lookup returned no placement"
    );
    let whole = ObjectLookup { descriptor: descriptor(), placement: Some(placement()) };
    assert_eq!(found_placement(Some(whole), "ns", "obj"), Ok((descriptor(), placement())));
}
