use contextstore::pb;
use contextstore::region_client::{
    get, get_answered, get_descriptor, get_descriptor_into, get_into, plain_code, put, region_code,
    unregister_code, OwnBuffer, ReadyNext, RegionPut,
};
use contextstore::regions::{ExternalRegion, RegionTable};
use contextstore::wire::{
    build_descriptor_get_request, build_unchecked_get_request, build_unchecked_put_request,
    PollNext, MAX_WRITE_BYTES,
};

fn descriptor() -> pb::ObjectDescriptor {
    pb::ObjectDescriptor {
        key: None,
        object_handle: "handle-1".into(),
        object_generation: 7,
        content_etag: "etag-7".into(),
        layout_version: 3,
        size: 4096,
        is_striped: true,
        stripe_count: 2,
        chunk_size: 2048,
    }
}

fn table() -> (RegionTable, u32) {
    let mut table = RegionTable::new();
    let id = table.register_external(ExternalRegion {
        handle: 1,
        address: 1000,
        size: 50,
        lkey: 1,
        rkey: 2,
    });
    (table, id)
}

fn body(first: u8, second: u64, third: u32) -> Vec<u8> {
    let mut body = vec![first];
    body.extend_from_slice(&second.to_le_bytes());
    body.extend_from_slice(&third.to_le_bytes());
    body
}

#[test]
fn reads_name_their_destination() {
    let own = OwnBuffer { address: 500, size: 64, rkey: 9 };
    assert_eq!(get(true, own, "k").unwrap(), build_unchecked_get_request("k", 500, 9, 64));
    assert_eq!(get(false, own, "k").unwrap_err(), "not connected");
    let (table, id) = table();
    assert_eq!(
        get_into(true, &table, id, "k", 10).unwrap(),
        build_unchecked_get_request("k", 1010, 2, 40)
    );
    assert_eq!(get_into(false, &table, id, "k", 10).unwrap_err(), "not connected");
    assert_eq!(
        get_into(false, &table, id, "k", 50).unwrap_err(),
        "get_into: offset 50 >= region size 50"
    );
    assert_eq!(get_into(true, &table, 7, "k", 0).unwrap_err(), "get_into: invalid region_id 7");
    let d = descriptor();
    assert_eq!(
        get_descriptor(true, own, "k", &d).unwrap(),
        build_descriptor_get_request("k", &d, 500, 9, 64).unwrap()
    );
    assert_eq!(
        get_descriptor_into(true, &table, id, "k", &d, 1).unwrap(),
        build_descriptor_get_request("k", &d, 1001, 2, 49).unwrap()
    );
    assert_eq!(
        get_descriptor_into(true, &table, 3, "k", &d, 1).unwrap_err(),
        "get_descriptor_into: invalid region_id 3"
    );
}

#[test]
fn overlong_texts_are_named_with_their_length() {
    let own = OwnBuffer { address: 500, size: 64, rkey: 9 };
    let long = "x".repeat(65536);
    let mut d = descriptor();
    assert_eq!(get_descriptor(true, own, &long, &d).unwrap_err(), "key too long: 65536");
    d.content_etag = "y".repeat(65537);
    assert_eq!(get_descriptor(true, own, "k", &d).unwrap_err(), "content_etag too long: 65537");
    d.object_handle = long;
    assert_eq!(get_descriptor(true, own, "k", &d).unwrap_err(), "object_handle too long: 65536");
    assert_eq!(get_descriptor(false, own, "k", &d).unwrap_err(), "not connected");
}

#[test]
fn different_versions_are_requested_differently() {
    let base = build_descriptor_get_request("k", &descriptor(), 1, 2, 3).unwrap();
    let mut d = descriptor();
    d.object_generation = 8;
    assert_ne!(build_descriptor_get_request("k", &d, 1, 2, 3).unwrap(), base);
    let mut d = descriptor();
    d.object_handle = "handle-".into();
    d.content_etag = "1etag-7".into();
    assert_ne!(build_descriptor_get_request("k", &d, 1, 2, 3).unwrap(), base);
    assert_ne!(build_descriptor_get_request("k", &descriptor(), 1, 3, 2).unwrap(), base);
}

#[test]
fn read_answers_are_bytes_or_a_miss() {
    assert_eq!(get_answered(3, &body(1, 500, 3)).unwrap(), 500);
    assert_eq!(get_answered(3, &body(0, 500, 3)).unwrap(), 0);
    assert_eq!(get_answered(5, &body(1, 500, 3)).unwrap_err(), "expected GET_RESP, got 5");
}

#[test]
fn put_moves_the_requested_bytes() {
    let (table, id) = table();
    let (write, request) = put(true, true, &table, id, "k", 10, 40).unwrap();
    assert_eq!(write, RegionPut { source: 1010, lkey: 1, size: 40 });
    assert_eq!(request, build_unchecked_put_request("k", 40));
    match write.ready(&body(1, 9000, 77)) {
        ReadyNext::Transfer(writes) => {
            assert_eq!(writes.len(), 1);
            assert_eq!((writes[0].src_addr, writes[0].dst_addr, writes[0].len), (1010, 9000, 40));
            assert_eq!((writes[0].src_lkey, writes[0].dst_rkey), (1, 77));
            assert!(writes[0].signaled);
        }
        ReadyNext::ReadRefusal => panic!("expected a transfer"),
    }
    let large = RegionPut { source: 0, lkey: 1, size: MAX_WRITE_BYTES + 1 };
    match large.ready(&body(1, 0, 0)) {
        ReadyNext::Transfer(writes) => {
            assert_eq!(writes.len(), 2);
            assert!(!writes[0].signaled && writes[1].signaled);
            assert_eq!((writes[1].src_addr, writes[1].len), (MAX_WRITE_BYTES, 1));
        }
        ReadyNext::ReadRefusal => panic!("expected a transfer"),
    }
    assert_eq!(write.ready(&body(0, 9000, 77)), ReadyNext::ReadRefusal);
    assert_eq!(RegionPut::refused(), "server PUT_READY rejected");
}

#[test]
fn put_is_refused_before_it_begins() {
    let (table, id) = table();
    let refusal = |queue_pair, connected, id, offset, size| {
        put(queue_pair, connected, &table, id, "k", offset, size).unwrap_err()
    };
    assert_eq!(refusal(true, true, 4, 0, 1), "put: invalid region_id 4");
    assert_eq!(refusal(false, false, id, 20, 31), "put: offset 20 + size 31 > region size 50");
    assert_eq!(refusal(false, false, id, 0, 1), "put: QP not initialized");
    assert_eq!(refusal(true, false, id, 0, 1), "not connected");
}

#[test]
fn region_writes_are_polled_until_done() {
    assert!(RegionPut::posted(0).is_ok());
    assert_eq!(RegionPut::posted(-12).unwrap_err(), "ibv_post_send (PUT WRITE) rc=-12");
    assert!(matches!(RegionPut::completion(0, 0, 0, 30), PollNext::Again));
    assert!(matches!(RegionPut::completion(1, 0, 0, 99), PollNext::Done));
    for (next, text) in [
        (RegionPut::completion(-1, 0, 0, 0), "ibv_poll_cq error"),
        (RegionPut::completion(1, 5, 6, 0), "RDMA WRITE wr_id=6 status=5"),
        (RegionPut::completion(0, 0, 0, 31), "RDMA WRITE poll_cq timeout 30s"),
    ] {
        match next {
            PollNext::Failed(e) => assert_eq!(e, text),
            _ => panic!("expected a failure"),
        }
    }
}

#[test]
fn calls_are_answered_by_code() {
    assert_eq!(plain_code(true, true, true), 0);
    assert_eq!(plain_code(false, true, true), -1);
    assert_eq!(plain_code(true, false, true), -2);
    assert_eq!(plain_code(true, true, false), -3);
    assert_eq!(region_code(Some(4)), 4);
    assert_eq!(region_code(None), -1);
    assert_eq!(unregister_code(true, true), 0);
    assert_eq!(unregister_code(false, true), -1);
    assert_eq!(unregister_code(true, false), -2);
}
