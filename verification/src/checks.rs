//! When settings, arguments, regions and replies are accepted, and what reports say.
use crate::adapters::is_first_of_name;
use crate::config::{config_fault, Config};
use crate::gds::{drop_plan_of, GpuBuffer, Ownership, Release};
use crate::inspect::{checksum_text, cut, device_text, filled, is_listed, key_comes_before};
use crate::key::KeyView;
use crate::metadata::StripeView;
use crate::metrics::{
    device_updates, labelled, plain, tier_updates, DeviceCounters, Metric, MetricKind,
    StorageCounters,
};
use crate::order::{arranged, placed, Ranked};
use crate::region_client;
use crate::region_client::{fault_len, put_fault};
use crate::regions::{awaited_tag, first_free, region_at, Awaited, ExternalRegion, RegionRead};
use crate::rdma_bench::{
    delivers, groups, pattern, placement_gap, read_total, round_fault, segment_len, setup_fault, sorts,
    summary_of, EndpointStripes, WorkerEvent,
};
use crate::pb;
use crate::startup::{lacks_colon, list_items, names_device, RdmaDeviceConfig};
use crate::store_bench::{args_fault, bench_key, part_start, parts_of, BenchArgs};
use crate::text;
use crate::text::{byte_len, decimal, is_blank, is_first_index, trimmed};
use crate::texts;
use crate::wire;
use vstd::prelude::*;
use vstd::string::*;

verus! {

/// A configuration is accepted exactly where there is a device, every node has an address, the
/// strategy and the executor are known, and the metadata store has an address, a prefix and time
/// to answer.
pub proof fn sound_configuration_is_accepted(c: Config)
    ensures
        config_fault(c) is None <==> {
            &&& c.storage.devices@.len() > 0
            &&& forall|i: int|
                0 <= i < c.cluster.data_nodes@.len() ==> !is_blank(
                    #[trigger] c.cluster.data_nodes@[i].grpc_endpoint@,
                )
            &&& c.router.strategy@ == "object_hash"@
            &&& c.io_executor.kind@ == "tier_a"@ || c.io_executor.kind@ == "tier_b"@
                || c.io_executor.kind@ == "tier_c"@
            &&& !is_blank(c.metadata.redis_url@)
            &&& !"memory://"@.is_prefix_of(c.metadata.redis_url@)
            &&& !is_blank(c.metadata.redis_key_prefix@)
            &&& c.metadata.redis_connect_timeout_ms > 0
            &&& c.metadata.redis_command_timeout_ms > 0
        },
        c.storage.devices@.len() == 0 ==> config_fault(c) == Some(
            "at least one storage device must be configured"@,
        ),
{
}

/// Arguments of the store benchmark are accepted exactly where none is zero and there are at
/// least as many bytes as chunks.
pub proof fn sound_arguments_are_accepted(a: BenchArgs)
    ensures
        args_fault(a) is None <==> a.single_bytes > 0 && a.chunk_total_kb > 0 && a.chunk_count > 0
            && a.chunk_count <= a.chunk_total_kb * 1024 && a.single_iters > 0 && a.chunk_iters > 0
            && a.cross_iters > 0 && a.storage_iters > 0 && a.storage_concurrency > 0
            && a.storage_size_mb > 0 && a.storage_chunk_mb > 0,
{
}

/// Objects of a benchmark have keys of their own.
pub proof fn bench_objects_have_their_own_keys(range: Seq<char>, a: nat, b: nat)
    ensures
        bench_key(range, a) == bench_key(range, b) <==> a == b,
{
    let x = range + "/object_"@;
    let p = text::padded_decimal(a, 8);
    let q = text::padded_decimal(b, 8);
    texts::padding_keeps_the_number(a, 8);
    texts::padding_keeps_the_number(b, 8);
    if bench_key(range, a) == bench_key(range, b) {
        assert(x + p == x + q);
        assert((x + p).skip(x.len() as int) =~= p);
        assert((x + q).skip(x.len() as int) =~= q);
    }
}

/// A benchmark object is cut into parts of equal length; the last takes what is left.
pub proof fn parts_are_of_equal_length(total: nat, count: nat, i: int)
    requires
        count > 0,
        0 <= i < count,
    ensures
        parts_of(total, count).len() == count,
        i + 1 < count ==> part_start(total, count, i + 1) - part_start(total, count, i) == total
            / count,
        part_start(total, count, 0) == 0,
        part_start(total, count, count as int) == total,
        part_start(total, count, i + 1) - part_start(total, count, i) >= total / count,
{
    let l = total / count;
    assert(total == count * (total / count) + total % count && 0 <= total % count)
        by (nonlinear_arith)
        requires
            count > 0,
    ;
    assert((i + 1) * l == i * l + l) by (nonlinear_arith);
    if i + 1 == count {
        assert(count * l == i * l + l) by (nonlinear_arith)
            requires
                count == i + 1,
        ;
    }
}

/// The test pattern counts up and begins anew after 251 bytes; a shorter one is the beginning of
/// a longer one.
pub proof fn pattern_repeats(n: nat, m: nat, i: int)
    requires
        n <= m,
        0 <= i < m,
    ensures
        pattern(m).take(n as int) == pattern(n),
        i == 0 ==> pattern(m)[i] == 0,
        i >= 251 ==> pattern(m)[i] == pattern(m)[i - 251],
        i > 0 && i % 251 != 0 ==> pattern(m)[i] == pattern(m)[i - 1] + 1,
{
    assert(pattern(m).take(n as int) =~= pattern(n));
}

/// A summary lies among the times that were measured: none is below the least or above the
/// greatest, and as many are at most the median as come before it in order.
pub proof fn summary_lies_among_the_times(times: Seq<u64>, sorted: Seq<u64>, i: int)
    requires
        sorts(times, sorted),
        times.len() > 0,
        0 <= i < times.len(),
    ensures
        sorted.len() == times.len(),
        summary_of(sorted).min <= times[i] <= summary_of(sorted).max,
        times.contains(summary_of(sorted).min),
        times.contains(summary_of(sorted).median),
        times.contains(summary_of(sorted).max),
        forall|k: int|
            0 <= k <= times.len() / 2 ==> #[trigger] sorted[k] <= summary_of(sorted).median,
        forall|k: int|
            times.len() / 2 <= k < sorted.len() ==> #[trigger] sorted[k] >= summary_of(
                sorted,
            ).median,
{
    broadcast use vstd::seq_lib::group_to_multiset_ensures;

    assert(sorted.to_multiset().len() == sorted.len());
    assert(times.to_multiset().len() == times.len());
    assert(sorted.contains(times[i])) by {
        assert(times.contains(times[i]));
        assert(times.to_multiset().count(times[i]) > 0);
        assert(sorted.to_multiset().count(times[i]) > 0);
    }
    let j = choose|j: int| 0 <= j < sorted.len() && sorted[j] == times[i];
    assert(sorted[0] <= sorted[j] <= sorted[sorted.len() - 1]);
    assert forall|k: int| 0 <= k < sorted.len() implies times.contains(#[trigger] sorted[k]) by {
        assert(sorted.contains(sorted[k]));
        assert(sorted.to_multiset().count(sorted[k]) > 0);
        assert(times.to_multiset().count(sorted[k]) > 0);
    }
}

/// A reader is given a stripe only where the placement puts it on that endpoint, and each
/// endpoint has one reader.
pub proof fn readers_are_given_their_own_stripes(
    chunks: Seq<pb::PlacementChunk>,
    r: Seq<EndpointStripes>,
    i: int,
    j: int,
    stripe: u32,
)
    requires
        groups(chunks, r),
        0 <= i < r.len(),
        0 <= j < r.len(),
    ensures
        r[i].stripes@.contains(stripe) ==> exists|k: int|
            0 <= k < chunks.len() && (#[trigger] chunks[k]).stripe_index == stripe
                && chunks[k].rdma_endpoint@ == r[i].endpoint@,
        r[i].endpoint@ == r[j].endpoint@ ==> i == j,
        i < j ==> text::comes_before(r[i].endpoint@, r[j].endpoint@),
{
    text::lemma_text_order_total(r[i].endpoint@, r[j].endpoint@);
    if r[i].stripes@.contains(stripe) {
        assert(delivers(chunks, r[i].endpoint@, stripe));
    }
}

/// A placement can be read over RDMA exactly where every stripe has an endpoint; otherwise the
/// first stripe without one is named.
pub proof fn first_stripe_without_endpoint_is_named(chunks: Seq<pb::PlacementChunk>)
    ensures
        placement_gap(chunks) is None <==> forall|i: int|
            0 <= i < chunks.len() ==> (#[trigger] chunks[i]).rdma_endpoint@.len() > 0,
        placement_gap(chunks) matches Some(e) ==> exists|i: int|
            0 <= i < chunks.len() && (#[trigger] chunks[i]).rdma_endpoint@.len() == 0 && e
                == "stripe "@ + decimal(chunks[i].stripe_index as nat)
                + " has no RDMA endpoint in placement"@ && forall|k: int|
                0 <= k < i ==> (#[trigger] chunks[k]).rdma_endpoint@.len() > 0,
    decreases chunks.len(),
{
    if chunks.len() > 0 {
        let f = chunks.drop_last();
        first_stripe_without_endpoint_is_named(f);
        let last = chunks.len() - 1;
        if placement_gap(f) is Some {
            let e = placement_gap(f)->0;
            let i = choose|i: int|
                0 <= i < f.len() && (#[trigger] f[i]).rdma_endpoint@.len() == 0 && e == "stripe "@
                    + decimal(f[i].stripe_index as nat) + " has no RDMA endpoint in placement"@
                    && forall|k: int| 0 <= k < i ==> (#[trigger] f[k]).rdma_endpoint@.len() > 0;
            assert(chunks[i] == f[i]);
            assert forall|k: int| 0 <= k < i implies (#[trigger] chunks[k]).rdma_endpoint@.len()
                > 0 by {
                assert(f[k] == chunks[k]);
            }
        } else {
            assert forall|k: int| 0 <= k < last implies (#[trigger] chunks[k]).rdma_endpoint@.len()
                > 0 by {
                assert(f[k] == chunks[k]);
            }
            assert(chunks[last] == chunks.last());
        }
    }
}

/// A buffer is cut into segments of equal length, as long as the number of segments allows.
pub proof fn segments_are_as_long_as_they_can_be(total: nat, segments: nat)
    requires
        segments > 0,
    ensures
        segment_len(total, segments) >= 1,
        total >= segments ==> segment_len(total, segments) * segments <= total,
        total < (segment_len(total, segments) + 1) * segments,
        total < segments ==> segment_len(total, segments) == 1,
{
    let q = total / segments;
    assert(q * segments <= total < (q + 1) * segments && (total < segments ==> q == 0) && (total
        >= segments ==> q >= 1)) by (nonlinear_arith)
        requires
            segments > 0,
            q == total / segments,
    ;
    if q == 0 {
        assert((1 + 1) * segments == 2 * segments) by (nonlinear_arith);
    }
}

/// The readers are set up exactly where each has said so.
pub proof fn setup_needs_every_reader(events: Seq<WorkerEvent>)
    ensures
        setup_fault(events) is None <==> forall|i: int|
            0 <= i < events.len() ==> ((#[trigger] events[i]) is Ready && events[i]->setup is Ok),
        events.len() > 0 && events.last() is ReadDone ==> setup_fault(events) == Some(
            "worker returned data before setup completed"@,
        ),
    decreases events.len(),
{
    if events.len() > 0 {
        let f = events.drop_last();
        setup_needs_every_reader(f);
        let last = events.len() - 1;
        if setup_fault(events) is None {
            assert forall|i: int| 0 <= i < events.len() implies ((#[trigger] events[i]) is Ready
                && events[i]->setup is Ok) by {
                if i < last {
                    assert(f[i] == events[i]);
                }
            }
        } else if forall|i: int|
            0 <= i < events.len() ==> ((#[trigger] events[i]) is Ready && events[i]->setup is Ok) {
            assert(events[last] is Ready && events[last]->setup is Ok);
            assert forall|i: int| 0 <= i < f.len() implies ((#[trigger] f[i]) is Ready
                && f[i]->setup is Ok) by {
                assert(f[i] == events[i]);
            }
        }
    }
}

/// A round went well exactly where each reader has read; the bytes of a round are those of its
/// readers together.
pub proof fn round_needs_every_reader(a: Seq<WorkerEvent>, b: Seq<WorkerEvent>)
    ensures
        round_fault(a) is None <==> forall|i: int|
            0 <= i < a.len() ==> ((#[trigger] a[i]) is ReadDone && a[i]->bytes is Ok),
        read_total(a + b) == read_total(a) + read_total(b),
        a.len() == 1 && a[0] is ReadDone && a[0]->bytes is Ok ==> read_total(a)
            == a[0]->bytes->Ok_0,
        a.len() == 1 && !(a[0] is ReadDone && a[0]->bytes is Ok) ==> read_total(a) == 0,
    decreases a.len() + b.len(),
{
    if a.len() > 0 {
        let f = a.drop_last();
        round_needs_every_reader(f, Seq::empty());
        let last = a.len() - 1;
        if round_fault(a) is None {
            assert forall|i: int| 0 <= i < a.len() implies ((#[trigger] a[i]) is ReadDone
                && a[i]->bytes is Ok) by {
                if i < last {
                    assert(f[i] == a[i]);
                }
            }
        } else if forall|i: int|
            0 <= i < a.len() ==> ((#[trigger] a[i]) is ReadDone && a[i]->bytes is Ok) {
            assert(a[last] is ReadDone && a[last]->bytes is Ok);
            assert forall|i: int| 0 <= i < f.len() implies ((#[trigger] f[i]) is ReadDone
                && f[i]->bytes is Ok) by {
                assert(f[i] == a[i]);
            }
        }
        if a.len() == 1 {
            assert(f.len() == 0);
            assert(read_total(f) == 0);
        }
    }
    if b.len() > 0 {
        round_needs_every_reader(a, b.drop_last());
        assert((a + b).drop_last() =~= a + b.drop_last());
        assert((a + b).last() == b.last());
    } else {
        assert(a + b =~= a);
    }
}

/// A card is named by what stands before the first colon; all the rest is its address.
pub proof fn card_is_named_before_the_first_colon(
    name: Seq<char>,
    address: Seq<char>,
    d: RdmaDeviceConfig,
)
    requires
        !name.contains(':'),
    ensures
        names_device(name + seq![':'] + address, d) <==> d.device_name@ == name && d.tcp_listen@
            == address && d.port_num == 1 && d.gid_index == 3,
        !names_device(name, d),
        lacks_colon(name),
        !lacks_colon(name + seq![':'] + address),
{
    let s = name + seq![':'] + address;
    let at = name.len() as int;
    assert(s[at] == ':');
    assert forall|k: int| 0 <= k < at implies #[trigger] s[k] != ':' by {
        assert(name.contains(name[k]));
    }
    assert(is_first_index(s, ':', at));
    assert(s.take(at) =~= name);
    assert(s.skip(at + 1) =~= address);
    assert forall|i: int| #[trigger] is_first_index(s, ':', i) implies i == at by {
        if i < at {
            assert(s[i] != ':');
        }
    }
    assert forall|k: int| 0 <= k < name.len() implies #[trigger] name[k] != ':' by {
        assert(name.contains(name[k]));
    }
}

/// A list is read item by item, without the space around them; items of space alone count for
/// nothing.
pub proof fn list_is_read_item_by_item(a: Seq<Seq<char>>, b: Seq<Seq<char>>)
    ensures
        list_items(a + b) == list_items(a) + list_items(b),
        a.len() == 1 && is_blank(a[0]) ==> list_items(a).len() == 0,
        a.len() == 1 && !is_blank(a[0]) ==> list_items(a) == seq![trimmed(a[0])],
    decreases b.len(),
{
    if b.len() > 0 {
        list_is_read_item_by_item(a, b.drop_last());
        assert((a + b).drop_last() =~= a + b.drop_last());
        assert((a + b).last() == b.last());
        assert(list_items(a + b) =~= list_items(a) + list_items(b));
    } else {
        assert(a + b =~= a);
        assert(list_items(a) + list_items(b) =~= list_items(a));
    }
    if a.len() == 1 {
        let s = a[0];
        let (x, y) = texts::trimming_takes_off_only_space(s);
        assert(a.drop_last().len() == 0);
        assert(list_items(a.drop_last()) =~= Seq::<Seq<char>>::empty());
        if trimmed(s).len() == 0 {
            assert(x == y);
            assert(is_blank(s)) by {
                assert forall|i: int| 0 <= i < s.len() implies text::is_white_space(
                    #[trigger] s[i],
                ) by {
                    if i < x {
                        assert(s.take(x as int)[i] == s[i]);
                    } else {
                        assert(s.skip(y as int)[i - y] == s[i]);
                    }
                }
            }
        } else {
            assert(list_items(a) =~= seq![trimmed(s)]);
        }
    }
}

/// A device is found where its name is listed, at its first mention and nowhere else.
pub proof fn device_is_found_at_its_first_mention(
    names: Seq<Seq<char>>,
    wanted: Seq<char>,
    i: int,
    j: int,
)
    ensures
        is_first_of_name(names, wanted, i) && is_first_of_name(names, wanted, j) ==> i == j,
        is_first_of_name(names, wanted, i) ==> names.contains(wanted) && !names.take(i).contains(
            wanted,
        ),
        names.contains(wanted) ==> exists|k: int| is_first_of_name(names, wanted, k),
    decreases names.len(),
{
    if is_first_of_name(names, wanted, i) && is_first_of_name(names, wanted, j) {
        if i < j {
            assert(names[i] != wanted);
        }
        if j < i {
            assert(names[j] != wanted);
        }
    }
    if is_first_of_name(names, wanted, i) && names.take(i).contains(wanted) {
        let k = choose|k: int| 0 <= k < i && names.take(i)[k] == wanted;
        assert(names[k] == wanted);
    }
    if names.contains(wanted) {
        let f = names.drop_last();
        device_is_found_at_its_first_mention(f, wanted, i, j);
        if f.contains(wanted) {
            let k = choose|k: int| is_first_of_name(f, wanted, k);
            assert forall|m: int| 0 <= m < k implies (#[trigger] names[m]) != wanted by {
                assert(f[m] == names[m]);
            }
            assert(is_first_of_name(names, wanted, k));
        } else {
            let n = names.len() - 1;
            let w = choose|w: int| 0 <= w < names.len() && names[w] == wanted;
            if w < n {
                assert(f[w] == wanted);
            }
            assert forall|m: int| 0 <= m < n implies (#[trigger] names[m]) != wanted by {
                assert(f[m] == names[m]);
                assert(f.contains(f[m]));
            }
            assert(is_first_of_name(names, wanted, n));
        }
    }
}

/// An object is listed where it is in the namespace and its key goes on from the prefix.
pub proof fn listing_is_by_namespace_and_prefix(
    k: KeyView,
    namespace: Seq<char>,
    prefix: Seq<char>,
    rest: Seq<char>,
)
    ensures
        is_listed(k, k.namespace, Seq::empty()),
        is_listed((KeyView { namespace, object_key: prefix + rest }), namespace, prefix),
        k.namespace != namespace ==> !is_listed(k, namespace, prefix),
        is_listed(k, namespace, prefix + rest) ==> is_listed(k, namespace, prefix),
        k.object_key.len() < prefix.len() ==> !is_listed(k, namespace, prefix),
{
    assert(Seq::<char>::empty().is_prefix_of(k.object_key));
    assert(prefix =~= (prefix + rest).subrange(0, prefix.len() as int));
    if (prefix + rest).is_prefix_of(k.object_key) {
        assert(prefix =~= k.object_key.subrange(0, prefix.len() as int)) by {
            assert forall|i: int| 0 <= i < prefix.len() implies prefix[i] == k.object_key[i] by {
                assert((prefix + rest)[i] == k.object_key.subrange(
                    0,
                    (prefix + rest).len() as int,
                )[i]);
            }
        }
    }
}

/// Keys are listed by namespace and then by object key, each before or after every other.
pub proof fn keys_are_in_one_order(a: KeyView, b: KeyView, c: KeyView)
    ensures
        !key_comes_before(a, a),
        a != b ==> key_comes_before(a, b) != key_comes_before(b, a),
        key_comes_before(a, b) && key_comes_before(b, c) ==> key_comes_before(a, c),
        text::comes_before(a.namespace, b.namespace) ==> key_comes_before(a, b),
        a.namespace == b.namespace ==> key_comes_before(a, b) == text::comes_before(
            a.object_key,
            b.object_key,
        ),
{
    text::lemma_text_order_total(a.namespace, b.namespace);
    text::lemma_text_order_total(a.namespace, a.namespace);
    text::lemma_text_order_total(a.object_key, b.object_key);
    text::lemma_text_order_total(a.object_key, a.object_key);
    if text::comes_before(a.namespace, b.namespace) && text::comes_before(
        b.namespace,
        c.namespace,
    ) {
        text::lemma_text_order_transitive(a.namespace, b.namespace, c.namespace);
    }
    if text::comes_before(a.object_key, b.object_key) && text::comes_before(
        b.object_key,
        c.object_key,
    ) {
        text::lemma_text_order_transitive(a.object_key, b.object_key, c.object_key);
    }
}

/// The device that is shown of a stripe is the one it is recorded on.
pub proof fn shown_device_is_the_recorded_one(s: StripeView, i: int)
    requires
        0 <= i,
    ensures
        i < s.chunk_locations.len() ==> device_text(s, i) == s.chunk_locations[i].node_id + ":"@
            + decimal(s.chunk_locations[i].device_id as nat),
        s.chunk_locations.len() == 0 && i < s.chunk_devices.len() ==> device_text(s, i) == "local:"@
            + decimal(s.chunk_devices[i] as nat),
        s.chunk_locations.len() <= i && s.chunk_devices.len() <= i ==> device_text(s, i)
            == "<unknown>"@,
{
}

proof fn lemma_filled(s: Seq<Seq<char>>)
    ensures
        filled(s) <= s.len(),
        filled(s) == s.len() <==> forall|i: int| 0 <= i < s.len() ==> (#[trigger] s[i]).len() > 0,
        filled(s) == 0 <==> forall|i: int| 0 <= i < s.len() ==> (#[trigger] s[i]).len() == 0,
    decreases s.len(),
{
    reveal(Seq::filter);
    if s.len() > 0 {
        let f = s.drop_last();
        lemma_filled(f);
        let n = s.len() - 1;
        assert(s[n] == s.last());
        if forall|i: int| 0 <= i < s.len() ==> (#[trigger] s[i]).len() > 0 {
            assert forall|i: int| 0 <= i < f.len() implies (#[trigger] f[i]).len() > 0 by {
                assert(s[i] == f[i]);
            }
        }
        if forall|i: int| 0 <= i < s.len() ==> (#[trigger] s[i]).len() == 0 {
            assert forall|i: int| 0 <= i < f.len() implies (#[trigger] f[i]).len() == 0 by {
                assert(s[i] == f[i]);
            }
        }
        if filled(s) == s.len() {
            assert forall|i: int| 0 <= i < s.len() implies (#[trigger] s[i]).len() > 0 by {
                if i < n {
                    assert(s[i] == f[i]);
                }
            }
        }
        if filled(s) == 0 {
            assert forall|i: int| 0 <= i < s.len() implies (#[trigger] s[i]).len() == 0 by {
                if i < n {
                    assert(s[i] == f[i]);
                }
            }
        }
    }
}

/// The checksums of an object are called complete where every stripe has one, missing where none
/// has, and partial otherwise; their number is told.
pub proof fn checksums_are_told_as_they_are(s: StripeView)
    requires
        s.chunk_checksums.len() == s.chunk_paths.len(),
        s.chunk_paths.len() > 0,
    ensures
        ({
            let n = s.chunk_paths.len();
            let c = s.chunk_checksums;
            let all = forall|i: int| 0 <= i < c.len() ==> (#[trigger] c[i]).len() > 0;
            let none = forall|i: int| 0 <= i < c.len() ==> (#[trigger] c[i]).len() == 0;
            &&& all ==> checksum_text(Some(s)) == "complete ("@ + decimal(n) + "/"@ + decimal(n)
                + ")"@
            &&& none ==> checksum_text(Some(s)) == "missing ("@ + decimal(0) + "/"@ + decimal(n)
                + ")"@
            &&& !all && !none ==> 0 < filled(c) < n && checksum_text(Some(s)) == "partial ("@
                + decimal(filled(c)) + "/"@ + decimal(n) + ")"@
        }),
{
    lemma_filled(s.chunk_checksums);
}

/// A text that fits is shown whole; another is cut to the width and ends in dots.
pub proof fn cut_text_fits(s: Seq<char>, width: nat)
    ensures
        s.len() <= width ==> cut(s, width) == s,
        s.len() > width ==> cut(s, width).len() == width,
        s.len() > width && width >= 3 ==> cut(s, width).skip(width - 3) == seq!['.', '.', '.']
            && cut(s, width).take(width - 3).is_prefix_of(s),
        forall|i: int|
            s.len() > width && width <= 3 && 0 <= i < width ==> #[trigger] cut(s, width)[i] == '.',
{
    if s.len() > width && width >= 3 {
        assert(cut(s, width).skip(width - 3) =~= seq!['.', '.', '.']);
        assert(cut(s, width).take(width - 3) =~= s.subrange(0, width - 3));
    }
}

/// A metric has labels exactly where it is a family of series.
pub proof fn families_have_labels(m: Metric)
    ensures
        m.label_names().len() > 0 <==> m.sort() == MetricKind::GaugeVec || m.sort()
            == MetricKind::IntCounterVec || m.sort() == MetricKind::HistogramVec,
{
}

/// What is exported of the tiers is what they counted.
pub proof fn exported_counts_are_those_of_the_tiers(
    hits: u64,
    misses: u64,
    evictions: u64,
    size: u64,
    st: StorageCounters,
)
    ensures
        ({
            let u = tier_updates((hits, misses, evictions, size), st);
            &&& u.contains(labelled(Metric::CacheHitTotal, "l1"@, hits))
            &&& u.contains(plain(Metric::L1Hits, hits))
            &&& u.contains(plain(Metric::L1Misses, misses))
            &&& u.contains(plain(Metric::L1Evictions, evictions))
            &&& u.contains(plain(Metric::L1SizeBytes, size))
            &&& u.contains(plain(Metric::L2Reads, st.reads_total))
            &&& u.contains(plain(Metric::L2Writes, st.writes_total))
            &&& u.contains(plain(Metric::L2BytesRead, st.bytes_read))
            &&& u.contains(plain(Metric::L2BytesWritten, st.bytes_written))
            &&& u.contains(plain(Metric::L2StripedWrites, st.striped_writes))
            &&& forall|i: int, j: int| #![trigger u[i], u[j]]
                0 <= i < u.len() && 0 <= j < u.len() && u[i].metric == u[j].metric ==> i == j
        }),
{
    let u = tier_updates((hits, misses, evictions, size), st);
    assert(u[0] == labelled(Metric::CacheHitTotal, "l1"@, hits));
    assert(u[1] == plain(Metric::L1Hits, hits));
    assert(u[2] == plain(Metric::L1Misses, misses));
    assert(u[3] == plain(Metric::L1Evictions, evictions));
    assert(u[4] == plain(Metric::L1SizeBytes, size));
    assert(u[5] == plain(Metric::L2Reads, st.reads_total));
    assert(u[6] == plain(Metric::L2Writes, st.writes_total));
    assert(u[7] == plain(Metric::L2BytesRead, st.bytes_read));
    assert(u[8] == plain(Metric::L2BytesWritten, st.bytes_written));
    assert(u[9] == plain(Metric::L2StripedWrites, st.striped_writes));
}

/// Each device is exported under its number, with the bytes read from it and those in use.
pub proof fn devices_are_exported_by_number(devices: Seq<DeviceCounters>, i: int)
    requires
        0 <= i < devices.len(),
    ensures
        device_updates(devices).len() == 2 * devices.len(),
        device_updates(devices)[2 * i] == labelled(
            Metric::NvmeReadBytesTotal,
            "nvme"@ + decimal(i as nat),
            devices[i].read_bytes,
        ),
        device_updates(devices)[2 * i + 1] == labelled(
            Metric::DeviceUsedBytes,
            "nvme"@ + decimal(i as nat),
            devices[i].used_bytes,
        ),
    decreases devices.len(),
{
    let f = devices.drop_last();
    if i < f.len() {
        devices_are_exported_by_number(f, i);
    } else if f.len() > 0 {
        devices_are_exported_by_number(f, 0);
    } else {
        assert(device_updates(f).len() == 0);
    }
}

/// A region gets the least number that is free.
pub proof fn region_gets_the_least_free_number(s: Seq<Option<ExternalRegion>>, i: int)
    ensures
        0 <= first_free(s) <= s.len(),
        region_at(s, first_free(s)) is None,
        0 <= i < first_free(s) ==> region_at(s, i) is Some && region_at(s, i) == s[i],
        i < 0 || i >= s.len() ==> region_at(s, i) is None,
    decreases s.len(),
{
    if s.len() > 0 && s[0] is Some {
        region_gets_the_least_free_number(s.skip(1), i - 1);
        if first_free(s) < s.len() {
            assert(s.skip(1)[first_free(s) - 1] == s[first_free(s)]);
        }
        if 1 <= i < first_free(s) {
            assert(s.skip(1)[i - 1] == s[i]);
        }
    }
}

/// A read into a region is accepted exactly where the region exists, the offset lies in it, and
/// there is a connection.
pub proof fn read_needs_room_in_its_region(
    region: Option<ExternalRegion>,
    op: RegionRead,
    id: u32,
    offset: u64,
    connected: bool,
)
    ensures
        region_client::read_fault(region, op, id, offset, connected) is None <==> region is Some
            && offset < region->0.size && connected,
{
}

/// A write from a region is accepted exactly where the region exists, all of its bytes lie in it,
/// and there is a connection.
pub proof fn put_needs_its_bytes_in_its_region(
    region: Option<ExternalRegion>,
    id: u32,
    offset: u64,
    size: u64,
    queue_pair: bool,
    connected: bool,
)
    ensures
        put_fault(region, id, offset, size, queue_pair, connected) is None <==> region is Some
            && offset + size <= region->0.size && queue_pair && connected,
{
}

/// The length that a complaint gives is one that is too long.
pub proof fn complaint_gives_the_length_that_is_too_long(key: Seq<char>, d: pb::DescriptorView)
    ensures
        wire::descriptor_request_fault(key, d) is Some ==> fault_len(key, d) > 65535,
        byte_len(key) > 65535 ==> fault_len(key, d) == byte_len(key),
{
}

/// Both interfaces wait for the same tags.
pub proof fn both_interfaces_wait_for_the_same_tags()
    ensures
        awaited_tag(Awaited::Hello) == wire::tag_of(wire::Expected::Hello),
        awaited_tag(Awaited::GetResponse) == wire::tag_of(wire::Expected::GetResponse),
        awaited_tag(Awaited::PutReady) == wire::tag_of(wire::Expected::PutReady),
        awaited_tag(Awaited::PutResponse) == wire::tag_of(wire::Expected::PutResponse),
{
}

/// Memory goes back to where it came from, and only what was taken here goes back: memory that
/// was allocated is freed, memory of another process is closed, and borrowed memory stays.
pub proof fn memory_goes_back_where_it_came_from(b: GpuBuffer)
    ensures
        drop_plan_of(b).deregister == b.registered,
        drop_plan_of(b).release == Release::Free <==> b.address != 0 && b.ownership
            == Ownership::Owned,
        drop_plan_of(b).release == Release::CloseIpc <==> b.address != 0 && b.ownership
            == Ownership::IpcImported,
        b.ownership == Ownership::Borrowed ==> drop_plan_of(b).release == Release::Nothing,
{
}

/// Neither of two elements belongs behind the other.
pub open spec fn same_rank<T: Ranked>(a: T, b: T) -> bool {
    !a.after(&b) && !b.after(&a)
}

proof fn lemma_placed_stays<T: Ranked>(s: Seq<T>, y: T, x: T)
    ensures
        placed(s, y).filter(|e: T| same_rank(e, x)) == s.push(y).filter(|e: T| same_rank(e, x)),
    decreases s.len(),
{
    reveal(Seq::filter);
    let p = |e: T| same_rank(e, x);
    if s.len() > 0 && s.last().after(&y) {
        let f = s.drop_last();
        let last = s.last();
        lemma_placed_stays(f, y, x);
        T::lemma_rank(&last, &x, &y);
        T::lemma_rank(&y, &x, &last);
        T::lemma_rank(&last, &y, &x);
        assert(!(p(last) && p(y)));
        assert(placed(s, y).drop_last() =~= placed(f, y));
        assert(placed(s, y).last() == last);
        assert(s.push(y).drop_last() =~= s);
        assert(f.push(y).drop_last() =~= f);
        assert(s.push(y).filter(p) == if p(y) {
            s.filter(p).push(y)
        } else {
            s.filter(p)
        });
        assert(f.push(y).filter(p) == if p(y) {
            f.filter(p).push(y)
        } else {
            f.filter(p)
        });
    }
}

/// Elements of the same rank keep the order in which they came.
pub proof fn equal_elements_keep_their_order<T: Ranked>(s: Seq<T>, x: T)
    ensures
        arranged(s).filter(|e: T| same_rank(e, x)) == s.filter(|e: T| same_rank(e, x)),
    decreases s.len(),
{
    reveal(Seq::filter);
    let p = |e: T| same_rank(e, x);
    if s.len() > 0 {
        let f = s.drop_last();
        equal_elements_keep_their_order(f, x);
        lemma_placed_stays(arranged(f), s.last(), x);
        assert(arranged(f).push(s.last()).drop_last() =~= arranged(f));
        assert(arranged(f).push(s.last()).filter(p) == if p(s.last()) {
            arranged(f).filter(p).push(s.last())
        } else {
            arranged(f).filter(p)
        });
    }
}

} // verus!
