use contextstore::config::Config;
use contextstore::error::KVError;
use contextstore::io_plan::{
    advance, aligned_length, batch_size, batch_stats, check_fallback_read, check_read_target,
    check_vectored_write, check_write_source, decode_tag, effective_queue_depth, encode_tag,
    plan_read, plan_read_into, plan_write, read_length, read_next, reported_request, split_blocks,
    write_next, AlignedWriter, IORequest, Piece, Progress, ReadNext,
};
use contextstore::io_rounds::{failure_error, IoFailure, IoRounds, RoundStep, RoundWork};
use contextstore::io_route::{executor_kind, group_by_device, DeviceIndex, ExecutorKind, Scatter};

fn total(pieces: &[Piece]) -> u64 {
    pieces.iter().map(|p| p.length as u64).sum()
}

#[test]
fn writes_are_cut_into_whole_blocks_and_a_tail() {
    let chunk = 4 * 1024 * 1024;
    let pieces = plan_write(2 * chunk + 4096 + 5);
    assert_eq!(pieces.len(), 4);
    assert_eq!(pieces[1], Piece { offset: chunk as u64, length: chunk as u32, is_tail: false });
    assert_eq!(pieces[2].length, 4096);
    assert_eq!(
        pieces[3],
        Piece { offset: (2 * chunk + 4096) as u64, length: 4096, is_tail: true }
    );
    assert_eq!(total(&pieces), aligned_length(2 * chunk + 4096 + 5) as u64);
    assert!(plan_write(0).is_empty());
    assert_eq!(split_blocks(5000), (4096, 904));
}

#[test]
fn reads_cover_the_file() {
    assert_eq!(total(&plan_read(10_000)), 12_288);
    assert!(plan_read(0).is_empty());
    assert_eq!(plan_read_into(4096, 4000).unwrap().len(), 1);
    assert_eq!(
        plan_read_into(4096, 5000).unwrap_err().message(),
        "internal error: read_aligned_into_ptr: capacity 4096 < aligned file_size 8192"
    );
    assert!(check_fallback_read(10, 10).is_ok());
    assert_eq!(
        check_fallback_read(11, 10).unwrap_err().message(),
        "internal error: fallback read: file_size 11 > capacity 10"
    );
}

#[test]
fn addresses_must_be_aligned() {
    assert!(check_write_source(AlignedWriter::Ring, 8192).is_ok());
    assert!(check_write_source(AlignedWriter::ThreadPool, 8192).is_ok());
    assert_eq!(
        check_write_source(AlignedWriter::Ring, 8193).unwrap_err(),
        KVError::Internal("do_write_aligned_batch: ptr 0x2001 not 4K-aligned".to_string())
    );
    assert_eq!(
        check_write_source(AlignedWriter::ThreadPool, 8193).unwrap_err(),
        KVError::Internal("write_aligned_impl: ptr 0x2001 not 4K-aligned".to_string())
    );
    assert!(check_read_target(4096, 8192).is_ok());
    assert_eq!(
        check_read_target(4097, 8192).unwrap_err().message(),
        "internal error: read_aligned_into_ptr: ptr 0x1001 not 4K-aligned"
    );
    assert!(check_read_target(4096, 8191).is_err());
    assert!(check_vectored_write(10, 10).is_ok());
    assert_eq!(
        check_vectored_write(9, 10).unwrap_err().message(),
        "internal error: writev short: wrote 9 of 10"
    );
}

#[test]
fn tags_name_request_and_piece() {
    let tag = encode_tag(7, 9);
    assert_eq!(tag, (7u64 << 32) | 9);
    assert_eq!(decode_tag(tag), 7);
}

#[test]
fn depths_and_lengths_have_defaults() {
    assert_eq!(effective_queue_depth(0), 256);
    assert_eq!(effective_queue_depth(32), 32);
    assert_eq!(batch_size(2), 4);
    assert_eq!(batch_size(64), 32);
    let request = IORequest { path: "/f".to_string(), offset: 0, length: 0 };
    assert_eq!(read_length(request.length, 77), 77);
    assert_eq!(read_length(5, 77), 5);
}

#[test]
fn short_transfers_are_continued() {
    assert!(matches!(read_next(0, 4096, 8192, 5000), ReadNext::Continue(4096)));
    assert!(matches!(read_next(4096, 904, 8192, 5000), ReadNext::Fallback));
    assert!(matches!(read_next(4096, 4096, 8192, 8000), ReadNext::Done));
    assert!(matches!(read_next(4096, 0, 8192, 8000), ReadNext::Done));
    assert_eq!(write_next(3, 4, "short").unwrap(), 7);
    assert!(write_next(3, 0, "short").is_err());
    let lens = vec![3usize, 0, 5];
    let p = advance(&lens, Progress { start: 0, offset: 0 }, 2);
    assert_eq!((p.start, p.offset), (0, 2));
    let p = advance(&lens, p, 3);
    assert_eq!((p.start, p.offset), (2, 2));
    let p = advance(&lens, p, 3);
    assert_eq!(p.start, 3);
}

#[test]
fn batches_are_counted() {
    let stats = batch_stats(&vec![10, 20, 30], &vec![Some(10), None, Some(25)], 4, 5);
    assert_eq!(stats.request_count, 3);
    assert_eq!((stats.success_count, stats.failure_count), (2, 1));
    assert_eq!((stats.requested_bytes, stats.completed_bytes), (60, 35));
    assert_eq!(reported_request(true, 0, 9), 9);
}

#[test]
fn rounds_submit_everything() {
    let plans = vec![plan_write(4096 * 3), plan_write(1), plan_write(4096)];
    let mut rounds = IoRounds::new(&plans, vec![true, true, false], 64);
    let mut pushed = Vec::new();
    loop {
        match rounds.step() {
            RoundStep::Push(s) => pushed.push(s),
            RoundStep::Submit(n) => {
                for s in pushed.iter().rev().take(n) {
                    rounds.completed(encode_tag(s.io, s.seq), s.piece.length as i32);
                }
                rounds.round_done();
            }
            RoundStep::Done => break,
        }
    }
    assert_eq!(pushed.iter().map(|s| s.io).collect::<Vec<_>>(), vec![0, 1]);
    assert!(rounds.succeeded(0));
    assert_eq!(rounds.bytes_read(0, 10_000), Some(10_000));
}

#[test]
fn a_failed_request_keeps_its_error() {
    let plans = vec![plan_write(4096), plan_write(4096)];
    let mut rounds = IoRounds::new(&plans, vec![true, true], 64);
    let mut tags = Vec::new();
    loop {
        match rounds.step() {
            RoundStep::Push(s) => tags.push(encode_tag(s.io, s.seq)),
            RoundStep::Submit(_) => {
                rounds.completed(tags[0], -5);
                rounds.completed(tags[1], 4096);
                rounds.round_done();
            }
            RoundStep::Done => break,
        }
    }
    assert!(!rounds.succeeded(0));
    assert!(matches!(rounds.failure(0), Some(IoFailure::Os(5))));
    assert!(rounds.succeeded(1));
    assert_eq!(rounds.bytes_read(0, 10), None);
}

#[test]
fn the_longest_directory_decides_over_the_device() {
    let mut index = DeviceIndex::new();
    let a = index.register_device("/data".to_string());
    let b = index.register_device("/data/fast".to_string());
    assert_eq!(index.route_device("/data/x/file").unwrap(), a);
    assert_eq!(index.route_device("/data/fast/file").unwrap(), b);
    assert_eq!(index.route_device("/data/faster/file").unwrap(), a);
    assert_eq!(index.device_of("/data//fast/file"), b);
}

#[test]
fn requests_are_dealt_out_and_answered_in_place() {
    let groups = group_by_device(&vec![1, 0, 1, 2]);
    let mut seen: Vec<usize> = groups.iter().flat_map(|g| g.members.clone()).collect();
    seen.sort();
    assert_eq!(seen, vec![0, 1, 2, 3]);
    let mut scatter: Scatter<usize> = Scatter::new(4);
    for g in &groups {
        if g.device == 2 {
            scatter.fail(&g.members, "ring is gone");
        } else {
            scatter.fill(&g.members, g.members.iter().map(|m| Ok(10 * m)).collect());
        }
    }
    let answers = scatter.finish();
    assert_eq!(answers[0], Ok(0));
    assert_eq!(answers[1], Ok(10));
    assert_eq!(answers[2], Ok(20));
    assert_eq!(answers[3], Err(KVError::Internal("ring is gone".to_string())));
    let empty: Scatter<usize> = Scatter::new(1);
    assert_eq!(empty.finish()[0], Err(KVError::Internal("missing slot".to_string())));
}

#[test]
fn the_executor_is_chosen_by_name() {
    let mut config = Config::default();
    config.io_executor.kind = "tier_a".to_string();
    assert_eq!(executor_kind(&config, false, false), Ok(ExecutorKind::ThreadPool));
    config.io_executor.kind = "tier_b".to_string();
    assert_eq!(executor_kind(&config, true, false), Ok(ExecutorKind::IoUring));
    assert_eq!(
        executor_kind(&config, false, false).unwrap_err().message(),
        "config error: unknown or unenabled io_executor.kind: tier_b (does it need a feature flag?)"
    );
}

#[test]
fn a_round_takes_half_of_the_queue() {
    let plans = vec![plan_write(11 * 4 * 1024 * 1024)];
    let mut rounds = IoRounds::new(&plans, vec![true], 10);
    let mut sizes = Vec::new();
    loop {
        match rounds.step() {
            RoundStep::Push(_) => {}
            RoundStep::Submit(n) => {
                sizes.push(n);
                rounds.round_done();
            }
            RoundStep::Done => break,
        }
    }
    assert_eq!(sizes, vec![5, 5, 1]);
}

#[test]
fn failures_are_told_in_the_words_of_the_work() {
    let text = |work, failure: IoFailure| failure_error(work, &failure).unwrap();
    let push = || IoFailure::Push("full".to_string());
    let submit = || IoFailure::Submit("busy".to_string());
    let says = |m: &str| KVError::Internal(m.to_string());
    assert_eq!(text(RoundWork::Write, push()), says("uring push: full"));
    assert_eq!(text(RoundWork::ReadInto, push()), says("uring push read_into: full"));
    assert_eq!(text(RoundWork::Read, push()), says("uring push read: full"));
    assert_eq!(text(RoundWork::Write, submit()), says("uring submit: busy"));
    assert_eq!(text(RoundWork::ReadInto, submit()), says("uring submit read_into: busy"));
    assert_eq!(text(RoundWork::Read, submit()), says("uring submit read: busy"));
    assert!(failure_error(RoundWork::Read, &IoFailure::Os(5)).is_none());
}

#[test]
fn answers_come_in_request_order_whichever_device_ends_first() {
    let devices = vec![2, 0, 2, 1, 0];
    let own: Vec<Result<usize, KVError>> =
        vec![Ok(10), Ok(11), Err(KVError::NotFound("x".to_string())), Ok(13), Ok(14)];
    let answer = |i: usize| match &own[i] {
        Ok(n) => Ok(*n),
        Err(_) => Err(KVError::NotFound("x".to_string())),
    };
    for order in [[0, 1, 2], [2, 1, 0], [1, 2, 0]] {
        let groups = group_by_device(&devices);
        let mut scatter: Scatter<usize> = Scatter::new(devices.len());
        for g in order {
            let members = &groups[g].members;
            scatter.fill(members, members.iter().map(|i| answer(*i)).collect());
        }
        assert_eq!(scatter.finish(), own);
    }
}

fn carry(to: &mut [u8], from: &[u8], pieces: &[Piece]) {
    for p in pieces {
        for b in p.offset as usize..p.offset as usize + p.length as usize {
            if b < from.len() {
                to[b] = from[b];
            }
        }
    }
}

#[test]
fn written_pieces_are_read_back_in_any_order() {
    for len in [0usize, 1, 4095, 4096, 4097, 3 * 4096 + 5] {
        let data: Vec<u8> = (0..len).map(|i| (i % 251) as u8).collect();
        let mut padded = data.clone();
        padded.resize(aligned_length(len), 0);
        let mut disk = vec![9u8; padded.len()];
        let mut writes = plan_write(len);
        writes.reverse();
        carry(&mut disk, &padded, &writes);
        disk.truncate(len);
        assert_eq!(disk, data);
        let mut memory = vec![7u8; padded.len()];
        let mut reads = plan_read(len);
        reads.reverse();
        carry(&mut memory, &disk, &reads);
        assert_eq!(&memory[..len], &data[..]);
    }
}
