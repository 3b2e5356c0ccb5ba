use contextstore::key::{
    canonical_key, resolve_object_key, validate_canonical_key, KeyError, ObjectKey,
};
use contextstore::pb;
use contextstore::regions::{
    check_awaited, check_register, delivered, put_outcome, transfer_code, Awaited, ExternalRegion,
    RegionRead, RegionTable,
};
use contextstore::wire::{
    buffer_destination, buffer_source, build_descriptor_get_request, build_get_request,
    build_hello, build_put_request, build_unchecked_get_request, build_unchecked_put_request,
    check_tag, committed_put, parse_get_response, parse_get_result, parse_put_ready,
    plan_remote_writes, poll_next, psn_from_clock, put_message, put_next, refused_put,
    require_stored, Expected, PollNext, PutNext, QpInfo, RdmaClientConfig,
    MSG_GET_DESCRIPTOR_REQ, MSG_GET_REQ, MSG_PUT_IF_ABSENT_REQ, MSG_PUT_REQ,
};

#[test]
fn rdma_bench_readable_selector_encodes_canonical_key() {
    assert_eq!(
        resolve_object_key(None, Some("rust-bench"), Some("rdma-checksum0/__combined__")).unwrap(),
        "10:rust-benchrdma-checksum0/__combined__"
    );
}

#[test]
fn raw_object_key_explains_readable_selector() {
    let error = validate_canonical_key("rdma-checksum0/__combined__").unwrap_err();
    assert!(error.message().contains("--namespace and --object-key"));
}

#[test]
fn canonical_key_preserves_namespace_boundary() {
    assert_eq!(canonical_key("redhare", "block-1"), "7:redhareblock-1");
    assert_eq!(canonical_key("", "block-1"), "0:block-1");
}

#[test]
fn descriptor_request_contains_identity_and_destination() {
    let descriptor = pb::ObjectDescriptor {
        key: None,
        object_handle: "handle-1".into(),
        object_generation: 7,
        content_etag: "etag-7".into(),
        layout_version: 3,
        size: 4096,
        is_striped: true,
        stripe_count: 2,
        chunk_size: 2048,
    };
    let request =
        build_descriptor_get_request("7:redhareblock-1", &descriptor, 9, 10, 11).unwrap();
    assert_eq!(request[0], MSG_GET_DESCRIPTOR_REQ);
    assert!(request.windows(b"handle-1".len()).any(|window| window == b"handle-1"));
    assert!(request.windows(b"etag-7".len()).any(|window| window == b"etag-7"));
    assert!(request.ends_with(&11u64.to_le_bytes()));
}

#[test]
fn request_rejects_oversized_wire_string() {
    let key = "x".repeat(u16::MAX as usize + 1);
    assert!(build_get_request(&key, 1, 2, 3).is_err());
    assert!(build_put_request(MSG_PUT_REQ, &key, 3).is_err());
}

#[test]
fn config_uses_roce_defaults() {
    let config = RdmaClientConfig::new("10.0.0.1:50053", "mlx5_0");
    assert_eq!(config.port, 1);
    assert_eq!(config.gid_index, 3);
}

#[test]
fn canonical_keys_read_back() {
    for (namespace, object_key) in [("ns", "a/b"), ("", ""), ("12:x", ":"), ("größe", "schlüssel")] {
        let key = ObjectKey::new(namespace.to_string(), object_key.to_string());
        let back = ObjectKey::from_string_key(&key.to_string_key()).unwrap();
        assert!(back.matches(&key));
    }
    assert_eq!(
        ObjectKey::new("größe".to_string(), "k".to_string()).to_string_key(),
        "7:größek"
    );
    assert!(ObjectKey::from_string_key("no separator").is_none());
    assert!(ObjectKey::from_string_key("x:ab").is_none());
    assert!(ObjectKey::from_string_key("3:ab").is_none());
    assert!(ObjectKey::from_string_key("1:ä").is_none());
    assert_eq!(ObjectKey::from_string_key("+1:ab").unwrap().namespace, "a");
}

#[test]
fn each_fault_of_a_key_is_told() {
    assert_eq!(validate_canonical_key("abc"), Err(KeyError::NoSeparator));
    assert_eq!(validate_canonical_key("a:bc"), Err(KeyError::BadLength));
    assert_eq!(validate_canonical_key("3:bc"), Err(KeyError::LengthExceedsKey));
    assert_eq!(validate_canonical_key("2:bc"), Ok(()));
    assert_eq!(
        resolve_object_key(Some("2:bc"), Some("n"), None),
        Err(KeyError::AmbiguousSelector)
    );
    assert_eq!(
        resolve_object_key(None, None, None).unwrap(),
        "10:rust-benchcomb0/__combined__"
    );
    assert_eq!(
        KeyError::AmbiguousSelector.message(),
        "provide --key <canonical-key> or both --namespace <namespace> and --object-key <object-key>"
    );
}

#[test]
fn requests_have_their_exact_bytes() {
    assert_eq!(
        build_get_request("k", 0x0102, 3, 4).unwrap(),
        vec![2, 1, 0, b'k', 2, 1, 0, 0, 0, 0, 0, 0, 3, 0, 0, 0, 4, 0, 0, 0, 0, 0, 0, 0]
    );
    assert_eq!(
        build_unchecked_get_request("k", 0x0102, 3, 4),
        build_get_request("k", 0x0102, 3, 4).unwrap()
    );
    assert_eq!(
        build_put_request(MSG_PUT_REQ, "k", 5).unwrap(),
        vec![4, 1, 0, b'k', 5, 0, 0, 0, 0, 0, 0, 0]
    );
    assert_eq!(
        build_unchecked_put_request("k", 5),
        build_put_request(MSG_PUT_REQ, "k", 5).unwrap()
    );
    assert_eq!(put_message(true), MSG_PUT_IF_ABSENT_REQ);
    assert_eq!(put_message(false), MSG_PUT_REQ);
    assert_eq!(MSG_GET_REQ, 2);
    assert!(build_get_request(&"x".repeat(65536), 1, 2, 3)
        .unwrap_err()
        .ends_with(" exceeds 65535 bytes"));
}

#[test]
fn queue_pair_addresses_read_back() {
    let mut gid = [0u8; 16];
    gid[0] = 9;
    gid[15] = 255;
    let info = QpInfo { qpn: 0x01020304, psn: 77, gid };
    let bytes = info.to_bytes();
    assert_eq!(bytes.len(), 24);
    assert_eq!(&bytes[0..4], &[4, 3, 2, 1]);
    assert_eq!(QpInfo::from_bytes(&bytes), info);
    let hello = build_hello(&info);
    assert_eq!(hello.len(), 25);
    assert_eq!(hello[0], 1);
    assert_eq!(&hello[1..], &bytes[..]);
    assert_eq!(psn_from_clock(0xff12_3456), 0x12_3456);
}

#[test]
fn responses_are_read() {
    let mut body = vec![1u8];
    body.extend_from_slice(&500u64.to_le_bytes());
    body.extend_from_slice(&3u32.to_le_bytes());
    assert_eq!(parse_get_response(&body).unwrap(), Some(500));
    let fields = parse_get_result(&body);
    assert!(fields.found);
    assert_eq!((fields.bytes_written, fields.num_chunks), (500, 3));
    let ready = parse_put_ready(&body);
    assert_eq!(put_next(ready), PutNext::Transfer { addr: 500, rkey: 3 });
    body[0] = 0;
    assert_eq!(parse_get_response(&body).unwrap(), None);
    assert_eq!(put_next(parse_put_ready(&body)), PutNext::ReadRefusal);
    assert!(check_tag(3, Expected::GetResponse).is_ok());
    assert_eq!(
        check_tag(9, Expected::PutReady).unwrap_err(),
        "expected RDMA PUT ready, got 9"
    );
}

#[test]
fn results_of_writes_are_judged() {
    assert_eq!(committed_put(1, false), Ok(true));
    assert_eq!(committed_put(2, true), Ok(false));
    assert_eq!(committed_put(0, false).unwrap_err(), "server failed to persist RDMA PUT");
    assert_eq!(committed_put(7, true).unwrap_err(), "invalid RDMA PUT result code 7");
    assert_eq!(committed_put(2, false).unwrap_err(), "invalid RDMA PUT result code 2");
    assert_eq!(refused_put(2, true), Ok(false));
    assert_eq!(
        refused_put(0, true).unwrap_err(),
        "server rejected RDMA PUT before data transfer"
    );
    assert!(require_stored(true).is_ok());
    assert_eq!(require_stored(false).unwrap_err(), "server rejected RDMA PUT");
}

#[test]
fn remote_writes_cover_the_transfer() {
    let gib = 1u64 << 30;
    let writes = plan_remote_writes(100, 1, 5000, 2, 2 * gib + 7);
    assert_eq!(writes.len(), 3);
    let mut at = 0u64;
    for (i, w) in writes.iter().enumerate() {
        assert_eq!(w.src_addr, 100 + at);
        assert_eq!(w.dst_addr, 5000 + at);
        assert_eq!(w.signaled, i == 2);
        at += w.len as u64;
    }
    assert_eq!(at, 2 * gib + 7);
}

#[test]
fn buffers_are_addressed_inside_their_bounds() {
    assert_eq!(buffer_destination(1000, 10, 4).unwrap(), (1004, 6));
    assert_eq!(
        buffer_destination(1000, 10, 11).unwrap_err(),
        "RDMA destination offset 11 exceeds buffer length 10"
    );
    assert_eq!(
        buffer_destination(1000, 10, 10).unwrap_err(),
        "RDMA destination has no remaining capacity"
    );
    assert_eq!(buffer_source(1000, 10, 4, 6).unwrap(), 1004);
    assert_eq!(
        buffer_source(1000, 10, 4, 7).unwrap_err(),
        "RDMA source range 4..11 exceeds buffer length 10"
    );
    assert_eq!(
        buffer_source(1000, 10, 4, usize::MAX).unwrap_err(),
        "RDMA source range overflows usize"
    );
}

#[test]
fn completions_are_polled_until_done() {
    assert!(matches!(poll_next(0, 0, 0, false), PollNext::Again));
    assert!(matches!(poll_next(1, 0, 0, false), PollNext::Done));
    for (next, text) in [
        (poll_next(-1, 0, 0, false), "ibv_poll_cq failed"),
        (poll_next(1, 5, 6, false), "RDMA WRITE completion failed: wr_id=6 status=5"),
        (poll_next(0, 0, 0, true), "RDMA WRITE completion timed out"),
    ] {
        match next {
            PollNext::Failed(e) => assert_eq!(e, text),
            _ => panic!("expected a failure"),
        }
    }
}

#[test]
fn regions_keep_their_numbers_while_registered() {
    assert!(check_register(0, 10).is_err());
    assert!(check_register(1, 0).is_err());
    assert!(check_register(1, 1).is_ok());
    let mut table = RegionTable::new();
    let a = table.register_external(ExternalRegion { handle: 1, address: 1000, size: 50, lkey: 1, rkey: 2 });
    let b = table.register_external(ExternalRegion { handle: 1, address: 2000, size: 60, lkey: 3, rkey: 4 });
    assert_ne!(a, b);
    assert_eq!(table.unregister_external(a).unwrap().address, 1000);
    assert!(table.unregister_external(a).is_err());
    let c = table.register_external(ExternalRegion { handle: 1, address: 3000, size: 70, lkey: 5, rkey: 6 });
    assert_eq!(c, a);
    let target = table.read_target(RegionRead::GetInto, b, 10).unwrap();
    assert_eq!((target.addr, target.rkey, target.available), (2010, 4, 50));
    assert!(table.put_source(b, 0, 61).is_err());
    assert_eq!(
        table.put_source(9, u64::MAX, u64::MAX).unwrap_err(),
        "put: invalid region_id 9"
    );
}

#[test]
fn transfers_are_reported_by_code() {
    assert_eq!(transfer_code(false, true, Ok(3)), -1);
    assert_eq!(transfer_code(true, false, Ok(3)), -2);
    assert_eq!(transfer_code(true, true, Err(())), -3);
    assert_eq!(transfer_code(true, true, Ok(3)), 3);
    assert!(put_outcome(1).is_ok());
    assert!(put_outcome(0).is_err());
    let mut body = vec![1u8];
    body.extend_from_slice(&500u64.to_le_bytes());
    body.extend_from_slice(&3u32.to_le_bytes());
    assert_eq!(delivered(&body), 500);
    body[0] = 0;
    assert_eq!(delivered(&body), 0);
    assert!(check_awaited(3, Awaited::GetResponse).is_ok());
    assert_eq!(
        check_awaited(4, Awaited::GetResponse).unwrap_err(),
        "expected GET_RESP, got 4"
    );
    assert_eq!(check_awaited(2, Awaited::Hello).unwrap_err(), "expected HELLO, got 2");
}

#[test]
fn a_conditional_write_keeps_the_first_object() {
    let mut held: Option<&[u8]> = None;
    let mut write = |data: &'static [u8]| {
        let exists = held.is_some();
        let outcome = if exists { refused_put(2, true) } else { committed_put(1, true) };
        if !exists {
            held = Some(data);
        }
        (outcome, held)
    };
    assert_eq!(write(b"A"), (Ok(true), Some(&b"A"[..])));
    assert_eq!(write(b"B"), (Ok(false), Some(&b"A"[..])));
}
