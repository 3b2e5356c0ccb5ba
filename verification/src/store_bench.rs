//! The store benchmark: its arguments, its objects, and what it expects to read back.
use crate::config::{Config, MemoryTierConfig, StorageConfig};
use crate::key::{KeyView, ObjectKey};
use crate::metadata::{BlockMeta, MetaView};
use crate::payload;
use crate::payload::{concat, payload, payloads};
use crate::rdma_bench::{pattern, test_pattern};
use crate::stripes;
use crate::stripes::stripes_of;
use crate::text;
use crate::text::{decimal, padded_decimal};
use prost::bytes::Bytes;
use vstd::prelude::*;
use vstd::string::*;

verus! {

/// The sizes and counts of a run.
#[derive(Clone, Copy, PartialEq, Eq, Structural, Debug)]
pub struct BenchArgs {
    pub single_bytes: usize,
    pub chunk_total_kb: usize,
    pub chunk_count: usize,
    pub single_iters: usize,
    pub chunk_iters: usize,
    pub cross_iters: usize,
    pub storage_size_mb: usize,
    pub storage_iters: usize,
    pub storage_concurrency: usize,
    pub storage_chunk_mb: usize,
}

/// What is wrong with the arguments, if anything.
pub open spec fn args_fault(a: BenchArgs) -> Option<Seq<char>> {
    if a.single_bytes == 0 {
        Some("--single-bytes must be > 0"@)
    } else if a.chunk_total_kb == 0 {
        Some("--chunk-total-kb must be > 0"@)
    } else if a.chunk_count == 0 {
        Some("--chunk-count must be > 0"@)
    } else if a.chunk_total_kb * 1024 < a.chunk_count {
        Some("chunk total size must be >= chunk count"@)
    } else if a.single_iters == 0 || a.chunk_iters == 0 || a.cross_iters == 0 || a.storage_iters
        == 0 || a.storage_concurrency == 0 {
        Some("iteration and concurrency arguments must be > 0"@)
    } else if a.storage_size_mb == 0 || a.storage_chunk_mb == 0 {
        Some("storage size arguments must be > 0"@)
    } else {
        None
    }
}

/// Checks the arguments.
pub fn validate_args(args: &BenchArgs) -> (r: Result<(), String>)
    requires
        args.single_bytes > 0 && args.chunk_count > 0 ==> args.chunk_total_kb * 1024 <= usize::MAX,
    ensures
        match args_fault(*args) {
            None => r is Ok,
            Some(e) => r is Err && r->Err_0@ == e,
        },
{
    if args.single_bytes == 0 {
        return Err("--single-bytes must be > 0".to_owned());
    }
    if args.chunk_total_kb == 0 {
        return Err("--chunk-total-kb must be > 0".to_owned());
    }
    if args.chunk_count == 0 {
        return Err("--chunk-count must be > 0".to_owned());
    }
    if args.chunk_total_kb * 1024 < args.chunk_count {
        return Err("chunk total size must be >= chunk count".to_owned());
    }
    if args.single_iters == 0 || args.chunk_iters == 0 || args.cross_iters == 0
        || args.storage_iters == 0 || args.storage_concurrency == 0 {
        return Err("iteration and concurrency arguments must be > 0".to_owned());
    }
    if args.storage_size_mb == 0 || args.storage_chunk_mb == 0 {
        return Err("storage size arguments must be > 0".to_owned());
    }
    Ok(())
}

/// The key of the object of one round.
pub open spec fn bench_key(range: Seq<char>, idx: nat) -> KeyView {
    KeyView {
        namespace: "kvservice-bench"@,
        object_key: range + "/object_"@ + padded_decimal(idx, 8),
    }
}

/// The key of the object of one round.
pub fn make_key(range: &str, idx: usize) -> (r: ObjectKey)
    ensures
        r@ == bench_key(range@, idx as nat),
{
    let mut object_key = range.to_owned();
    object_key.append("/object_");
    text::push_padded_decimal(&mut object_key, idx as u64, 8);
    ObjectKey { namespace: "kvservice-bench".to_owned(), object_key }
}

/// The record of an object of `size` bytes.
pub fn make_meta(size: usize) -> (r: BlockMeta)
    ensures
        r@ == (MetaView {
            device_id: 0,
            file_path: Seq::empty(),
            size: size as u64,
            object_handle: Seq::empty(),
            object_generation: 1,
            content_etag: Seq::empty(),
            layout_version: 1,
            created_at: 0,
            last_accessed_at: 0,
            ttl_seconds: 0,
            num_tokens: 128,
            num_layers: 1,
            dtype: "uint8"@,
            compressed: false,
            striping: None,
        }),
{
    let r = BlockMeta {
        device_id: 0,
        file_path: String::new(),
        size: size as u64,
        object_handle: String::new(),
        object_generation: 1,
        content_etag: String::new(),
        layout_version: 1,
        created_at: 0,
        last_accessed_at: 0,
        ttl_seconds: 0,
        num_tokens: 128,
        num_layers: 1,
        dtype: "uint8".to_owned(),
        compressed: false,
        striping: None,
    };
    proof {
        assert(r@.file_path =~= Seq::<char>::empty());
    }
    r
}

/// The bounds of part `i` when `total` bytes are cut into `count` parts: all but the last have
/// the same size, the last takes what is left over.
pub open spec fn part_start(total: nat, count: nat, i: int) -> int {
    if i < count {
        i * (total / count)
    } else {
        total as int
    }
}

/// The test pattern, cut into `count` parts.
pub open spec fn parts_of(total: nat, count: nat) -> Seq<Seq<u8>> {
    Seq::new(
        count,
        |i: int|
            pattern(total).subrange(part_start(total, count, i), part_start(total, count, i + 1)),
    )
}

proof fn lemma_part_bounds(total: nat, count: nat, i: int)
    requires
        0 <= i < count,
    ensures
        0 <= part_start(total, count, i) <= part_start(total, count, i + 1) <= total,
        part_start(total, count, 0) == 0,
        i + 1 < count ==> part_start(total, count, i + 1) == part_start(total, count, i) + total
            / count,
{
    let base = total / count;
    assert((i + 1) * base == i * base + base) by (nonlinear_arith);
    assert((i + 1) * base <= count * base) by (nonlinear_arith)
        requires
            0 <= i < count,
            base >= 0,
    ;
    assert(count * base <= total) by (nonlinear_arith)
        requires
            base == total / count,
            count > 0,
    ;
    assert(0 <= i * base) by (nonlinear_arith)
        requires
            0 <= i,
            base >= 0,
    ;
    assert(0 * base == 0) by (nonlinear_arith);
}

/// The test pattern, cut into parts.
pub fn make_chunks(total: usize, count: usize) -> (r: Vec<Bytes>)
    requires
        count > 0,
    ensures
        payloads(r@) == parts_of(total as nat, count as nat),
{
    let whole = payload::from_vec(test_pattern(total));
    let ghost all = pattern(total as nat);
    let base: usize = total / count;
    let mut offset: usize = 0;
    let mut out: Vec<Bytes> = Vec::new();
    let mut i: usize = 0;
    proof {
        lemma_part_bounds(total as nat, count as nat, 0);
    }
    while i < count
        invariant
            i <= count,
            count > 0,
            base == total / count,
            all == pattern(total as nat),
            payload(whole) == all,
            offset == part_start(total as nat, count as nat, i as int),
            out.len() == i,
            forall|k: int|
                0 <= k < i ==> payload(#[trigger] out@[k]) == parts_of(
                    total as nat,
                    count as nat,
                )[k],
        decreases count - i,
    {
        proof {
            lemma_part_bounds(total as nat, count as nat, i as int);
        }
        let end: usize = if i + 1 == count {
            total
        } else {
            offset + base
        };
        out.push(payload::slice(&whole, offset, end));
        offset = end;
        i = i + 1;
    }
    proof {
        assert(payloads(out@) =~= parts_of(total as nat, count as nat));
    }
    out
}

/// The parts, joined, are the test pattern.
pub proof fn parts_make_up_the_pattern(total: nat, count: nat)
    requires
        count > 0,
    ensures
        concat(parts_of(total, count)) == pattern(total),
{
    lemma_parts_prefix(total, count, count);
    assert(parts_of(total, count).take(count as int) =~= parts_of(total, count));
    assert(pattern(total).take(total as int) =~= pattern(total));
}

proof fn lemma_parts_prefix(total: nat, count: nat, n: nat)
    requires
        count > 0,
        n <= count,
    ensures
        concat(parts_of(total, count).take(n as int)) == pattern(total).take(
            part_start(total, count, n as int),
        ),
        0 <= part_start(total, count, n as int) <= total,
    decreases n,
{
    let p = parts_of(total, count);
    if n == 0 {
        lemma_part_bounds(total, count, 0);
        assert(p.take(0) =~= Seq::<Seq<u8>>::empty());
        assert(pattern(total).take(0) =~= Seq::<u8>::empty());
    } else {
        let m = (n - 1) as nat;
        lemma_parts_prefix(total, count, m);
        lemma_part_bounds(total, count, m as int);
        assert(p.take(n as int).drop_last() =~= p.take(m as int));
        assert(concat(p.take(n as int)) =~= pattern(total).take(
            part_start(total, count, n as int),
        ));
    }
}

/// The test pattern, cut into pieces of `chunk` bytes; the last may be shorter.
pub fn make_storage_segments(size: usize, chunk: usize) -> (r: Vec<Bytes>)
    requires
        chunk > 0,
    ensures
        payloads(r@) == stripes_of(pattern(size as nat), chunk as nat),
{
    let whole = payload::from_vec(test_pattern(size));
    stripes::split(&whole, chunk as u64)
}

/// The rounds that run at the same time, as half-open ranges.
pub fn batches(iters: usize, concurrency: usize) -> (r: Vec<(usize, usize)>)
    requires
        concurrency > 0,
    ensures
        r@.len() == stripes::stripe_count(iters as nat, concurrency as nat),
        forall|i: int|
            0 <= i < r@.len() ==> (#[trigger] r@[i]).0 == i * concurrency && r@[i].1
                == stripes::stripe_end(iters as nat, concurrency as nat, i),
{
    let n: u64 = stripes::count_stripes(iters as u64, concurrency as u64);
    let mut out: Vec<(usize, usize)> = Vec::new();
    let mut start: usize = 0;
    let mut i: u64 = 0;
    while i < n
        invariant
            i <= n,
            concurrency > 0,
            n == stripes::stripe_count(iters as nat, concurrency as nat),
            i < n ==> start == i * concurrency,
            out.len() == i,
            forall|k: int|
                0 <= k < i ==> (#[trigger] out@[k]).0 == k * concurrency && out@[k].1
                    == stripes::stripe_end(iters as nat, concurrency as nat, k),
        decreases n - i,
    {
        proof {
            stripes::lemma_stripe_bounds(iters as nat, concurrency as nat, i as int);
            assert((i + 1) * concurrency == i * concurrency + concurrency) by (nonlinear_arith);
        }
        let end: usize = if iters - start > concurrency {
            start + concurrency
        } else {
            iters
        };
        out.push((start, end));
        start = end;
        i = i + 1;
    }
    out
}

/// The reads that a benchmark checks.
#[derive(Clone, Copy, PartialEq, Eq, Structural, Debug)]
pub enum CheckedRead {
    Single,
    Chunks,
    SingleToChunks,
    ChunksToSingle,
    Storage,
}

/// What is said when a read brings nothing.
pub open spec fn nothing_text(read: CheckedRead) -> Seq<char> {
    match read {
        CheckedRead::Single => "single get returned None"@,
        CheckedRead::Chunks => "chunks get returned None"@,
        CheckedRead::SingleToChunks => "cross get returned None"@,
        CheckedRead::ChunksToSingle => "cross get_chunks returned None"@,
        CheckedRead::Storage => "storage read None"@,
    }
}

/// What is said when a read brings `got` bytes in place of `want`.
pub open spec fn mismatch_text(read: CheckedRead, got: nat, want: nat) -> Seq<char> {
    match read {
        CheckedRead::Single => "single get size mismatch: "@ + decimal(got) + " != "@ + decimal(
            want,
        ),
        CheckedRead::Chunks => "chunks get size mismatch: "@ + decimal(got) + " != "@ + decimal(
            want,
        ),
        CheckedRead::SingleToChunks => "single->chunks stale read: get returned "@ + decimal(got)
            + " bytes, expected "@ + decimal(want) + " bytes"@,
        CheckedRead::ChunksToSingle => "chunks->single stale read: get_chunks returned "@
            + decimal(got) + " bytes, expected "@ + decimal(want) + " bytes"@,
        CheckedRead::Storage => "storage read size mismatch: "@ + decimal(got) + " != "@ + decimal(
            want,
        ),
    }
}

/// Judges a read by the number of bytes that it brought.
pub fn check_read(read: CheckedRead, got: Option<usize>, want: usize) -> (r: Result<(), String>)
    ensures
        match got {
            None => r is Err && r->Err_0@ == nothing_text(read),
            Some(n) => if n == want {
                r is Ok
            } else {
                r is Err && r->Err_0@ == mismatch_text(read, n as nat, want as nat)
            },
        },
{
    let (nothing, head, middle, tail): (&str, &str, &str, &str) = match read {
        CheckedRead::Single => ("single get returned None", "single get size mismatch: ", " != ", ""),
        CheckedRead::Chunks => ("chunks get returned None", "chunks get size mismatch: ", " != ", ""),
        CheckedRead::SingleToChunks => (
            "cross get returned None",
            "single->chunks stale read: get returned ",
            " bytes, expected ",
            " bytes",
        ),
        CheckedRead::ChunksToSingle => (
            "cross get_chunks returned None",
            "chunks->single stale read: get_chunks returned ",
            " bytes, expected ",
            " bytes",
        ),
        CheckedRead::Storage => ("storage read None", "storage read size mismatch: ", " != ", ""),
    };
    let n: usize = match got {
        None => {
            return Err(nothing.to_owned());
        },
        Some(n) => n,
    };
    if n == want {
        return Ok(());
    }
    let mut out = head.to_owned();
    text::push_decimal(&mut out, n as u64);
    out.append(middle);
    text::push_decimal(&mut out, want as u64);
    out.append(tail);
    proof {
        reveal_strlit("");
        assert(out@ =~= mismatch_text(read, n as nat, want as nat));
    }
    Err(out)
}

/// The configuration of the memory benchmark: one device, and nothing striped.
pub fn memory_config(device: String, memory_mb: usize) -> (r: Config)
    ensures
        r.storage.devices@ == seq![device],
        exists|d: Config| #[trigger]
            call_ensures(Config::default, (), d) && r == (Config {
                storage: StorageConfig {
                    devices: r.storage.devices,
                    striping_threshold: 0,
                    ..d.storage
                },
                memory_tier: MemoryTierConfig { capacity_mb: memory_mb, ..d.memory_tier },
                ..d
            }),
{
    let mut cfg = Config::default();
    let ghost d = cfg;
    let mut devices: Vec<String> = Vec::new();
    devices.push(device);
    cfg.storage.devices = devices;
    cfg.storage.striping_threshold = 0;
    cfg.memory_tier.capacity_mb = memory_mb;
    proof {
        assert(call_ensures(Config::default, (), d));
    }
    cfg
}

/// The configuration of the storage benchmark where none is given: one device, and objects above
/// 256 MiB striped into 64 MiB.
pub fn storage_config(device: String) -> (r: Config)
    ensures
        r.storage.devices@ == seq![device],
        r.storage.striping_threshold == 256 * 1024 * 1024,
        r.storage.striping_chunk_size == 64 * 1024 * 1024,
        exists|d: Config| #[trigger]
            call_ensures(Config::default, (), d) && r == (Config {
                storage: StorageConfig {
                    devices: r.storage.devices,
                    striping_threshold: r.storage.striping_threshold,
                    striping_chunk_size: r.storage.striping_chunk_size,
                    ..d.storage
                },
                ..d
            }),
{
    let mut cfg = Config::default();
    let ghost d = cfg;
    let mut devices: Vec<String> = Vec::new();
    devices.push(device);
    cfg.storage.devices = devices;
    cfg.storage.striping_threshold = 268435456;
    cfg.storage.striping_chunk_size = 67108864;
    proof {
        assert(call_ensures(Config::default, (), d));
    }
    cfg
}

/// Turns striping off for small objects on a single device.
pub fn adjust_striping(config: &mut Config, storage_size_mb: usize)
    ensures
        final(config).storage.striping_threshold == (if old(config).storage.devices@.len() == 1
            && storage_size_mb < 256 {
            0
        } else {
            old(config).storage.striping_threshold
        }),
        *final(config) == (Config {
            storage: StorageConfig {
                striping_threshold: final(config).storage.striping_threshold,
                ..old(config).storage
            },
            ..*old(config)
        }),
{
    if config.storage.devices.len() == 1 && storage_size_mb < 256 {
        config.storage.striping_threshold = 0;
    }
}

/// The key under which a client writes a whole prefix as one value.
pub fn combined_key(prefix_base: &str, prefix: usize) -> (r: String)
    ensures
        r@ == prefix_base@ + decimal(prefix as nat) + "/__combined__"@,
{
    let mut out = prefix_base.to_owned();
    text::push_decimal(&mut out, prefix as u64);
    out.append("/__combined__");
    out
}

} // verus!
