use contextstore::client::{
    cut_for_stream, found_data, join_segments, make_key, put_chunks, receive_stream,
};
use contextstore::config::{ClusterNodeConfig, Config};
use contextstore::distributed::{
    local_write_result, PutStep, ReadStripe, StreamPut, WriteVerdict,
};
use contextstore::error::{Code, Status};
use contextstore::get_flow::{
    all_done, purge_finished, record_dropped, DeleteAction, DeleteFlow, DescriptorAction,
    DescriptorFlow, GetAction, GetStreamFlow, PurgeAction, PurgeFlow,
};
use contextstore::handlers::{
    buffered_put, distributed_get_reply, BufferedPut, PartCollector, PutChunk, PutItem,
};
use contextstore::key::ObjectKey;
use contextstore::metadata::BlockMeta;
use contextstore::order::arrange;
use contextstore::payload::{flatten_segments, total_len};
use contextstore::pb;
use contextstore::placement::{
    descriptor_from_meta, placement_from_meta, select_data_node, KVServiceContext, NodeEnv,
};
use contextstore::put_flow::{PutAction, PutFlow, Storing, StreamItem};
use contextstore::store_bench::make_meta;
use contextstore::streaming::{
    data_chunks, placement_chunks, stripe_chunks, with_descriptors, DataChunk, ReadPipeline,
    ReadStep,
};
use contextstore::stripes::{split, StripeAssembler};
use prost::bytes::Bytes;

fn bytes(n: usize) -> Vec<u8> {
    (0..n).map(|i| (i % 253) as u8).collect()
}

fn join(segments: &[Bytes]) -> Vec<u8> {
    segments.iter().flat_map(|s| s.iter().copied()).collect()
}

fn received(chunks: Vec<DataChunk>) -> Vec<Bytes> {
    receive_stream(Ok(()), chunks.into_iter().map(Ok).collect()).unwrap().unwrap()
}

fn key() -> ObjectKey {
    ObjectKey::new("ns".to_string(), "obj".to_string())
}

fn ctx() -> KVServiceContext {
    let mut cfg = Config::default();
    cfg.cluster.node_id = "a".to_string();
    cfg.cluster.grpc_advertise = "h:1".to_string();
    cfg.cluster.data_nodes = ["a", "b"]
        .iter()
        .enumerate()
        .map(|(i, id)| ClusterNodeConfig {
            node_id: id.to_string(),
            grpc_endpoint: format!("h:{}", i + 1),
            rdma_endpoint: String::new(),
        })
        .collect();
    cfg.storage.striping_threshold = 10;
    cfg.storage.striping_chunk_size = 4;
    KVServiceContext::new(
        cfg,
        NodeEnv { node_id: None, grpc_advertise: None, rdma_advertise: None },
    )
}

#[test]
fn splitting_and_assembling_agree() {
    let object = bytes(23);
    let pieces = split(&Bytes::from(object.clone()), 5);
    let mut assembler = StripeAssembler::new(5);
    let mut stripes = Vec::new();
    for part in object.chunks(3) {
        stripes.extend(assembler.feed(Bytes::from(part.to_vec())));
    }
    stripes.extend(assembler.flush());
    assert_eq!(stripes.len(), pieces.len());
    for (i, s) in stripes.iter().enumerate() {
        assert_eq!(s.index, i);
        assert_eq!(s.offset, 5 * i as u64);
        assert_eq!(join(&s.segments), pieces[i].to_vec());
    }
    assert_eq!(join(&pieces), object);
    assert_eq!(total_len(&pieces), 23);
    assert_eq!(flatten_segments(pieces).to_vec(), object);
}

#[test]
fn a_streamed_object_arrives_whole() {
    let sub = 4 * 1024 * 1024;
    let object = bytes(2 * sub + 17);
    let segments = vec![
        Bytes::from(object[..sub + 5].to_vec()),
        Bytes::new(),
        Bytes::from(object[sub + 5..].to_vec()),
    ];
    let chunks = data_chunks(&segments);
    assert_eq!(chunks.len(), 4);
    let mut at = 0i64;
    for (i, c) in chunks.iter().enumerate() {
        assert_eq!(c.offset, at);
        assert_eq!(c.total_size, object.len() as i64);
        assert_eq!(c.is_last, i == 3);
        at += c.data.len() as i64;
    }
    assert_eq!(join_segments(&received(chunks)), object);
    assert!(data_chunks(&vec![]).is_empty());
}

#[test]
fn stripes_are_sent_with_their_place() {
    let chunks = stripe_chunks(&Bytes::from(bytes(10)), 1, 2, 100, 110);
    assert_eq!(chunks.len(), 1);
    assert_eq!((chunks[0].offset, chunks[0].total_size), (100, 110));
    assert!(chunks[0].is_last);
    assert!(!stripe_chunks(&Bytes::from(bytes(10)), 0, 2, 100, 110)[0].is_last);
    let part = placement_chunks(&Bytes::from(bytes(3)), 50, 3);
    assert_eq!((part[0].offset, part[0].total_size, part[0].is_last), (50, 3, true));
}

#[test]
fn descriptors_ride_on_the_first_chunk() {
    let meta = make_meta(8);
    let descriptor = descriptor_from_meta(&key(), &meta);
    let placement = placement_from_meta(&ctx(), &key(), &meta);
    let sub = 4 * 1024 * 1024;
    let chunks = data_chunks(&vec![Bytes::from(bytes(sub + 1))]);
    let described = with_descriptors(&chunks, &descriptor, &placement);
    assert_eq!(described.len(), 2);
    assert!(described[0].descriptor.is_some() && described[0].placement.is_some());
    assert!(described[1].descriptor.is_none() && described[1].placement.is_none());
}

#[test]
fn stripes_are_read_ahead_and_sent_in_order() {
    let mut pipeline = ReadPipeline::new(6);
    let mut reading = 0usize;
    let mut sent = Vec::new();
    loop {
        match pipeline.step() {
            ReadStep::Read(_) => {
                reading += 1;
                assert!(reading <= 4);
            }
            ReadStep::Send(i) => {
                reading -= 1;
                sent.push(i);
            }
            ReadStep::Done => break,
        }
    }
    assert_eq!(sent, vec![0, 1, 2, 3, 4, 5]);
}

#[test]
fn clients_cut_objects_for_the_stream() {
    let pieces = cut_for_stream(bytes(10), 4);
    assert_eq!(pieces.iter().map(|p| p.len()).collect::<Vec<_>>(), vec![4, 4, 2]);
    assert_eq!(join(&pieces), bytes(10));
    assert_eq!(cut_for_stream(vec![], 4).len(), 1);
    assert_eq!(cut_for_stream(bytes(3), 0).len(), 3);
    let chunks = put_chunks("ns", "obj", pieces);
    assert_eq!(chunks.len(), 3);
    assert_eq!(chunks[0].key.as_ref().unwrap().namespace, "ns");
    assert!(chunks[1].key.is_none());
    assert_eq!(chunks.iter().map(|c| c.total_size).collect::<Vec<_>>(), vec![10, 0, 0]);
    assert_eq!(chunks.iter().map(|c| c.offset).collect::<Vec<_>>(), vec![0, 4, 8]);
    assert_eq!(
        chunks.iter().map(|c| c.is_last).collect::<Vec<_>>(),
        vec![false, false, true]
    );
    assert_eq!(make_key("a", "b").object_key, "b");
    assert_eq!(found_data(true, &Bytes::from_static(b"x")), Some(b"x".to_vec()));
    assert_eq!(found_data(false, &Bytes::from_static(b"x")), None);
}

fn drive(object: &[u8], chunk: usize, fail_at: Option<usize>) -> (Vec<u8>, WriteVerdict) {
    let ctx = ctx();
    let mut put = StreamPut::new(object.len() as u64, 4);
    let mut input = object.chunks(chunk).map(|c| Bytes::from(c.to_vec())).peekable();
    let mut running = Vec::new();
    let mut disk = vec![0u8; object.len()];
    loop {
        match put.step() {
            PutStep::Receive => match input.next() {
                Some(data) => {
                    let last = input.peek().is_none();
                    put.receive(data, last);
                }
                None => put.stream_ended(),
            },
            PutStep::Spawn(stripe) => {
                let data = join(&stripe.segments);
                let at = stripe.offset as usize;
                disk[at..at + data.len()].copy_from_slice(&data);
                running.push(stripe);
                assert!(running.len() <= 4);
            }
            PutStep::AwaitOne => {
                let stripe = running.remove(0);
                if fail_at == Some(stripe.index) {
                    put.stripe_done(Err(Status::new(Code::Unavailable, "node down")));
                } else {
                    let node = select_data_node(&ctx, &key(), stripe.index);
                    let len = join(&stripe.segments).len() as u64;
                    put.stripe_done(Ok(local_write_result(
                        node,
                        stripe.index,
                        stripe.offset,
                        len,
                        0,
                        format!("/s{}", stripe.index),
                        String::new(),
                    )));
                }
            }
            PutStep::Finish => break,
        }
    }
    (disk, put.finish(&key(), make_meta(object.len())))
}

#[test]
fn a_streamed_write_stores_every_byte() {
    let object = bytes(30);
    let (disk, verdict) = drive(&object, 7, None);
    assert_eq!(disk, object);
    match verdict {
        WriteVerdict::Commit { meta, rollback } => {
            assert_eq!(meta.size, 30);
            assert_eq!(rollback.len(), 8);
            let striping = meta.striping.unwrap();
            assert_eq!(striping.chunk_paths.len(), 8);
            assert_eq!(striping.chunk_paths[7], "/s7");
        }
        WriteVerdict::Refuse { .. } => panic!("nothing failed"),
    }
}

#[test]
fn a_failed_stripe_rolls_the_write_back() {
    let (_, verdict) = drive(&bytes(30), 7, Some(2));
    match verdict {
        WriteVerdict::Refuse { status, rollback } => {
            assert_eq!(status.message, "node down");
            assert!(rollback.iter().all(|c| c.stripe_index != 2));
            assert!(!rollback.is_empty());
        }
        WriteVerdict::Commit { .. } => panic!("a stripe failed"),
    }
}

#[test]
fn parts_are_collected_up_to_the_last() {
    let mut parts = PartCollector::new();
    parts.take(Bytes::from_static(b"ab"), false);
    assert!(!parts.done);
    parts.take(Bytes::from_static(b"c"), true);
    assert!(parts.done);
    assert_eq!(&parts.finish()[..], b"abc");
    let reply = distributed_get_reply(
        vec![
            ReadStripe { index: 1, data: Bytes::from_static(b"cd") },
            ReadStripe { index: 0, data: Bytes::from_static(b"ab") },
        ],
        &make_meta(4),
    );
    assert_eq!(&reply.data[..], b"abcd");
}

#[test]
fn equal_ranks_keep_their_order() {
    let stripes = |v: Vec<(u32, &'static [u8])>| {
        v.into_iter()
            .map(|(index, data)| ReadStripe { index, data: Bytes::from_static(data) })
            .collect::<Vec<_>>()
    };
    let sorted = arrange(stripes(vec![(2, b"a"), (1, b"b"), (2, b"c"), (1, b"d")]));
    let order: Vec<Vec<u8>> = sorted.iter().map(|s| s.data.to_vec()).collect();
    assert_eq!(order, vec![b"b".to_vec(), b"d".to_vec(), b"a".to_vec(), b"c".to_vec()]);
}

fn put_item(data: Vec<u8>, if_not_exists: bool) -> PutItem {
    PutItem {
        key: Some(make_key("ns", "obj")),
        data: Bytes::from(data),
        metadata: None,
        options: Some(pb::PutOptions { ttl_seconds: 0, if_not_exists, compression: 0 }),
    }
}

fn is_answer(action: PutAction, success: bool) -> bool {
    match action {
        PutAction::Answer(Ok(r)) => r.success == success,
        _ => false,
    }
}

#[test]
fn a_small_write_stays_here() {
    let ctx = ctx();
    let (mut flow, action) = match PutFlow::single(&ctx, put_item(bytes(5), false)) {
        Ok(x) => x,
        Err(_) => panic!("the request is complete"),
    };
    match action {
        PutAction::Write { storing: Storing::Single(data), if_absent } => {
            assert_eq!(data.to_vec(), bytes(5));
            assert!(!if_absent);
        }
        _ => panic!("expected a local write"),
    }
    assert!(is_answer(flow.written(Ok(true)), true));
}

#[test]
fn a_conditional_write_is_refused_by_a_live_object() {
    let ctx = ctx();
    let start = || match PutFlow::single(&ctx, put_item(bytes(50), true)) {
        Ok(x) => x,
        Err(_) => panic!("the request is complete"),
    };
    let (mut flow, action) = start();
    assert!(matches!(action, PutAction::Lock { look_up: true }));
    assert!(is_answer(flow.locked(Ok(Some(make_meta(1))), false), false));

    let (mut flow, _) = start();
    assert!(matches!(flow.locked(Ok(Some(make_meta(1))), true), PutAction::Purge(_)));
    match flow.purged(Ok(true)) {
        PutAction::Write { storing: Storing::Distributed(data), if_absent } => {
            assert_eq!(data.len(), 50);
            assert!(if_absent);
        }
        _ => panic!("expected a write"),
    }
    assert!(is_answer(flow.written(Ok(false)), false));

    let (mut flow, _) = start();
    assert!(matches!(flow.locked(Ok(None), false), PutAction::Write { .. }));

    let (mut flow, _) = start();
    let failed = flow.locked(Err(Status::new(Code::Internal, "x")), false);
    assert!(matches!(failed, PutAction::Answer(Err(_))));
}

fn first_chunk(data: Vec<u8>, total_size: i64, is_last: bool) -> PutChunk {
    PutChunk {
        key: Some(make_key("ns", "obj")),
        data: Bytes::from(data),
        offset: 0,
        is_last,
        metadata: None,
        options: None,
        total_size,
    }
}

#[test]
fn a_declared_size_starts_the_pipeline() {
    let ctx = ctx();
    match PutFlow::stream(&ctx, Some(first_chunk(bytes(3), 20, false))) {
        Ok((mut flow, action)) => {
            assert!(matches!(action, PutAction::Lock { look_up: false }));
            match flow.locked(Ok(None), false) {
                PutAction::Write {
                    storing: Storing::Streamed { declared, first_data, first_is_last },
                    if_absent,
                } => {
                    assert_eq!(declared, 20);
                    assert_eq!(first_data.len(), 3);
                    assert!(!first_is_last && !if_absent);
                }
                _ => panic!("expected the pipeline"),
            }
            assert!(is_answer(flow.written(Ok(false)), false));
        }
        Err(_) => panic!("the chunk is complete"),
    }
}

#[test]
fn an_undeclared_stream_is_collected() {
    let ctx = ctx();
    let start = || match PutFlow::stream(&ctx, Some(first_chunk(bytes(3), 0, false))) {
        Ok((flow, action)) => {
            assert!(matches!(action, PutAction::NextChunk));
            flow
        }
        Err(_) => panic!("the chunk is complete"),
    };
    let mut flow = start();
    let more = StreamItem::Chunk { data: Bytes::from(bytes(2)), is_last: true };
    match flow.received(&ctx, more) {
        PutAction::Write { storing: Storing::Segments(s), .. } => {
            assert_eq!(s.iter().map(|b| b.len()).collect::<Vec<_>>(), vec![3, 2]);
        }
        _ => panic!("a small object stays here"),
    }
    let mut flow = start();
    let more = StreamItem::Chunk { data: Bytes::from(bytes(20)), is_last: false };
    assert!(matches!(flow.received(&ctx, more), PutAction::NextChunk));
    assert!(matches!(flow.received(&ctx, StreamItem::End), PutAction::Lock { .. }));
    let mut flow = start();
    let lost = StreamItem::Failed(Status::new(Code::Unavailable, "gone"));
    assert!(matches!(flow.received(&ctx, lost), PutAction::Answer(Err(_))));
    assert!(matches!(
        buffered_put(&ctx, vec![Bytes::from(bytes(11))]),
        BufferedPut::Distributed(_)
    ));
    match PutFlow::stream(&ctx, None) {
        Err(e) => assert_eq!(e.message, "empty stream"),
        Ok(_) => panic!("nothing arrived"),
    }
    let mut nameless = first_chunk(bytes(1), 0, true);
    nameless.key = None;
    match PutFlow::stream(&ctx, Some(nameless)) {
        Err(e) => assert_eq!(e.message, "first chunk must include key"),
        Ok(_) => panic!("there is no key"),
    }
}

fn striped_meta(ctx: &KVServiceContext) -> BlockMeta {
    let mut results = Vec::new();
    for i in 0..2usize {
        let node = select_data_node(ctx, &key(), i);
        results.push(local_write_result(
            node,
            i,
            4 * i as u64,
            4,
            0,
            format!("/s{}", i),
            String::new(),
        ).location);
    }
    contextstore::distributed::commit_record(make_meta(8), results, 8, 4)
}

#[test]
fn a_streamed_read_finds_its_way() {
    let ctx = ctx();
    let k = make_key("ns", "obj");
    let mut flow = GetStreamFlow::new(Some(&k)).ok().unwrap();
    match flow.looked_up(&ctx, Ok(Some(striped_meta(&ctx)))) {
        GetAction::ReadStripes { placement, .. } => assert_eq!(placement.chunks.len(), 2),
        _ => panic!("a stripe is on another node"),
    }
    let read = vec![
        ReadStripe { index: 1, data: Bytes::from_static(b"4567") },
        ReadStripe { index: 0, data: Bytes::from_static(b"0123") },
    ];
    match flow.stripes_read(Ok(read)) {
        GetAction::Send(chunks) => {
            assert_eq!(join_segments(&received(chunks)), b"01234567")
        }
        _ => panic!("expected the object"),
    }

    let mut flow = GetStreamFlow::new(Some(&k)).ok().unwrap();
    assert!(matches!(flow.looked_up(&ctx, Ok(None)), GetAction::Peek));
    assert!(matches!(flow.peeked(None), GetAction::ReadLocal));
    match flow.local_read(Ok(None)) {
        GetAction::Refuse(e) => assert_eq!(e.message, "key not found"),
        _ => panic!("there is no object"),
    }

    let mut flow = GetStreamFlow::new(Some(&k)).ok().unwrap();
    assert!(matches!(flow.looked_up(&ctx, Ok(Some(make_meta(3)))), GetAction::Peek));
    match flow.peeked(Some(vec![Bytes::from_static(b"abc")])) {
        GetAction::Send(chunks) => assert_eq!(chunks.len(), 1),
        _ => panic!("the object is in memory"),
    }
    assert!(GetStreamFlow::new(None).is_err());
}

#[test]
fn local_stripes_are_sent_one_after_the_other() {
    let mut alone = ctx();
    alone.config.cluster.data_nodes.clear();
    let k = make_key("ns", "obj");
    let mut meta = striped_meta(&alone);
    if let Some(s) = meta.striping.as_mut() {
        s.chunk_locations.clear();
    }
    let mut flow = GetStreamFlow::new(Some(&k)).ok().unwrap();
    assert!(matches!(flow.looked_up(&alone, Ok(Some(meta))), GetAction::Peek));
    match flow.peeked(None) {
        GetAction::SendStripes { stripe_count, chunk_size, total_size } => {
            assert_eq!((stripe_count, chunk_size, total_size), (2, 4, 8));
        }
        _ => panic!("the object is striped"),
    }
}

#[test]
fn a_read_by_descriptor_is_held_against_the_record() {
    let ctx = ctx();
    let mut meta = make_meta(3);
    meta.object_handle = "h".to_string();
    let descriptor = descriptor_from_meta(&key(), &meta);
    let mut flow = DescriptorFlow::new(Some(descriptor.clone()), None, false).ok().unwrap();
    assert!(matches!(flow.looked_up(&ctx, Ok(Some(meta.clone()))), DescriptorAction::ReadLocal));
    match flow.segments_read(&ctx, Ok(Some(vec![Bytes::from_static(b"abc")]))) {
        DescriptorAction::Answer(r) => {
            assert!(r.found && r.descriptor.is_some());
            assert_eq!(&r.data[..], b"abc");
        }
        _ => panic!("expected one message"),
    }
    let mut newer = meta.clone();
    newer.object_generation = 7;
    let mut flow = DescriptorFlow::new(Some(descriptor.clone()), None, true).ok().unwrap();
    match flow.looked_up(&ctx, Ok(Some(newer))) {
        DescriptorAction::Refuse(e) => assert_eq!(e.message, "stale descriptor"),
        _ => panic!("the descriptor is stale"),
    }
    let mut flow = DescriptorFlow::new(Some(descriptor.clone()), None, true).ok().unwrap();
    assert!(matches!(flow.looked_up(&ctx, Ok(None)), DescriptorAction::Refuse(_)));
    let mut flow = DescriptorFlow::new(Some(descriptor), None, false).ok().unwrap();
    match flow.looked_up(&ctx, Ok(None)) {
        DescriptorAction::Answer(r) => assert!(!r.found),
        _ => panic!("expected an empty answer"),
    }
    assert!(DescriptorFlow::new(None, None, false).is_err());
}

#[test]
fn a_removal_starts_with_the_stripes() {
    let ctx = ctx();
    let k = make_key("ns", "obj");
    let mut flow = DeleteFlow::new(Some(&k)).ok().unwrap();
    let action = flow.looked_up(&ctx, Ok(Some(striped_meta(&ctx))));
    assert!(matches!(action, DeleteAction::DeleteStripes(_)));
    assert!(matches!(
        flow.stripes_deleted(vec![Ok(()), Ok(())]),
        DeleteAction::DropRecord(_)
    ));
    assert_eq!(record_dropped(Ok(false)), Ok(true));
    let mut flow = DeleteFlow::new(Some(&k)).ok().unwrap();
    flow.looked_up(&ctx, Ok(Some(striped_meta(&ctx))));
    let down = || Err(Status::new(Code::Unavailable, "down"));
    assert!(matches!(
        flow.stripes_deleted(vec![Ok(()), down()]),
        DeleteAction::Answer(Err(_))
    ));
    let mut flow = DeleteFlow::new(Some(&k)).ok().unwrap();
    assert!(matches!(flow.looked_up(&ctx, Ok(None)), DeleteAction::DeleteLocal));
    assert!(all_done(vec![]).is_ok());
    assert_eq!(all_done(vec![down(), Ok(())]).unwrap_err().message, "down");
}

#[test]
fn an_expired_object_loses_its_record_first() {
    let ctx = ctx();
    let (flow, action) = PurgeFlow::new(&ctx, key(), striped_meta(&ctx), true);
    assert!(matches!(action, PurgeAction::Confirm));
    assert!(matches!(
        flow.confirmed(Ok(Some(striped_meta(&ctx))), true),
        PurgeAction::DropRecord(_)
    ));
    assert!(matches!(
        flow.confirmed(Ok(Some(make_meta(1))), true),
        PurgeAction::Answer(Ok(false))
    ));
    assert!(matches!(flow.record_dropped(Ok(true)), PurgeAction::DeleteStripes(_)));
    let (_, action) = PurgeFlow::new(&ctx, key(), make_meta(1), false);
    assert!(matches!(action, PurgeAction::Answer(Ok(false))));
    let (_, action) = PurgeFlow::new(&ctx, key(), make_meta(1), true);
    assert!(matches!(action, PurgeAction::PurgeLocal(_)));
    assert_eq!(purge_finished(vec![Ok(())]), Ok(true));
}

#[test]
fn a_stream_is_refused_broken_or_received() {
    let chunks = || data_chunks(&vec![Bytes::from_static(b"ab"), Bytes::from_static(b"cd")]);
    let gone = || Status::new(Code::NotFound, "key not found");
    let lost = || Status::new(Code::Unavailable, "connection lost");
    assert_eq!(receive_stream(Err(gone()), vec![]), Ok(None));
    assert_eq!(receive_stream(Err(lost()), vec![]), Err(lost()));
    assert_eq!(receive_stream(Ok(()), vec![]), Ok(Some(vec![])));
    let mut broken: Vec<Result<DataChunk, Status>> = chunks().into_iter().map(Ok).collect();
    broken.insert(1, Err(lost()));
    assert_eq!(receive_stream(Ok(()), broken), Err(lost()));
    let mut missing: Vec<Result<DataChunk, Status>> = chunks().into_iter().map(Ok).collect();
    missing.insert(0, Err(gone()));
    assert_eq!(receive_stream(Ok(()), missing), Err(gone()));
    let mut late: Vec<Result<DataChunk, Status>> = chunks().into_iter().map(Ok).collect();
    late.push(Err(lost()));
    let segments = receive_stream(Ok(()), late).unwrap().unwrap();
    assert_eq!(join_segments(&segments), b"abcd");
    let mut unfinished = chunks();
    unfinished.pop();
    assert_eq!(join_segments(&received(unfinished)), b"ab");
}
