//! Which node and which file each stripe of an object is on: what holds of placements, of the
//! stripes that are handed out to a client, and of the records that are published.
use crate::convert::fresh_meta;
use crate::distributed::{committed, stripe_size};
use crate::handlers::{commit_meta, reserved_chunk, total_length};
use crate::hash::xxh3_64;
use crate::key::{canonical, KeyView};
use crate::metadata::{ChunkView, MetaView};
use crate::pb::{DescriptorView, KvMetadataView, PutOptions};
use crate::placement::{
    chunks_of, descriptor_of, describes, hits, placement_of, KVServiceContext, NodeView,
};
use crate::stripes;
use crate::stripes::{stripe_count, stripe_end};
use vstd::prelude::*;
use vstd::string::*;
use vstd::utf8::encode_utf8;

verus! {

/// The configured nodes are used in their order, with the addresses that are configured; a node
/// without an ID goes by its RPC address.
pub proof fn configured_nodes_are_used(ctx: &KVServiceContext, i: int)
    requires
        0 <= i < ctx.config.cluster.data_nodes@.len(),
    ensures
        ({
            let c = ctx.config.cluster.data_nodes@;
            let n = ctx.nodes();
            &&& n.len() == c.len()
            &&& n[i].grpc_endpoint == c[i].grpc_endpoint@
            &&& n[i].rdma_endpoint == c[i].rdma_endpoint@
            &&& c[i].node_id@.len() > 0 ==> n[i].node_id == c[i].node_id@
            &&& c[i].node_id@.len() == 0 ==> n[i].node_id == c[i].grpc_endpoint@
        }),
{
}

/// What is configured of this node comes before what its environment says, and that before the
/// last resort; without configured nodes this one holds everything.
pub proof fn node_presents_itself(ctx: &KVServiceContext)
    ensures
        ({
            let c = ctx.config.cluster;
            let n = ctx.local();
            &&& c.node_id@.len() > 0 ==> n.node_id == c.node_id@
            &&& c.node_id@.len() == 0 ==> {
                &&& ctx.env.node_id is Some && ctx.env.node_id->0@.len() > 0 ==> n.node_id
                    == ctx.env.node_id->0@
                &&& (ctx.env.node_id is None || ctx.env.node_id->0@.len() == 0) ==> n.node_id
                    == "local"@
            }
            &&& c.grpc_advertise@.len() > 0 ==> n.grpc_endpoint == c.grpc_advertise@
            &&& c.grpc_advertise@.len() == 0 ==> {
                &&& ctx.env.grpc_advertise is Some && ctx.env.grpc_advertise->0@.len() > 0 ==> n.grpc_endpoint
                    == ctx.env.grpc_advertise->0@
                &&& (ctx.env.grpc_advertise is None || ctx.env.grpc_advertise->0@.len() == 0)
                    ==> n.grpc_endpoint == ctx.config.api.listen@
            }
            &&& c.rdma_advertise@.len() > 0 ==> n.rdma_endpoint == c.rdma_advertise@
            &&& c.rdma_advertise@.len() == 0 ==> {
                &&& ctx.env.rdma_advertise is Some && ctx.env.rdma_advertise->0@.len() > 0 ==> n.rdma_endpoint
                    == ctx.env.rdma_advertise->0@
                &&& (ctx.env.rdma_advertise is None || ctx.env.rdma_advertise->0@.len() == 0)
                    ==> n.rdma_endpoint.len() == 0
            }
            &&& c.data_nodes@.len() == 0 ==> ctx.nodes().len() == 1 && ctx.nodes()[0] == n
        }),
{
}

/// A node takes itself for the node that has its ID, and for the one that has its RPC address;
/// for no other.
pub proof fn node_knows_itself(ctx: &KVServiceContext, node: NodeView)
    ensures
        ctx.is_local(ctx.local()),
        node.node_id == ctx.local().node_id ==> ctx.is_local(node),
        node.grpc_endpoint == ctx.local().grpc_endpoint ==> ctx.is_local(node),
        node.node_id != ctx.local().node_id && node.grpc_endpoint != ctx.local().grpc_endpoint
            ==> !ctx.is_local(node),
{
}

/// The place in a round of `n` that stripe `i` of an object has.
pub open spec fn turn(key: KeyView, i: int, n: nat) -> int {
    ((xxh3_64(encode_utf8(canonical(key))) as usize) + i) % n as int
}

proof fn lemma_turn(key: KeyView, i: int, n: nat)
    requires
        n > 0,
        i >= 0,
    ensures
        0 <= turn(key, i, n) < n,
        turn(key, i, n) == ((xxh3_64(encode_utf8(canonical(key))) as usize) as int % n as int + i)
            % n as int,
        turn(key, i + 1, n) == (if turn(key, i, n) + 1 == n {
            0
        } else {
            turn(key, i, n) + 1
        }),
        turn(key, i + n, n) == turn(key, i, n),
{
    let h = (xxh3_64(encode_utf8(canonical(key))) as usize) as int;
    let m = n as int;
    vstd::arithmetic::div_mod::lemma_mod_bound(h + i, m);
    vstd::arithmetic::div_mod::lemma_add_mod_noop(h, i, m);
    vstd::arithmetic::div_mod::lemma_add_mod_noop(h % m, i, m);
    vstd::arithmetic::div_mod::lemma_mod_twice(h, m);
    vstd::arithmetic::div_mod::lemma_add_mod_noop(h + i, 1, m);
    vstd::arithmetic::div_mod::lemma_mod_add_multiples_vanish(h + i, m);
    let t = turn(key, i, n);
    if n == 1 {
        assert(turn(key, i + 1, n) == 0) by {
            vstd::arithmetic::div_mod::lemma_mod_bound(h + (i + 1), m);
        }
    } else {
        vstd::arithmetic::div_mod::lemma_small_mod(1nat, n);
        if t + 1 == n {
            vstd::arithmetic::div_mod::lemma_mod_self_0(m);
        } else {
            vstd::arithmetic::div_mod::lemma_small_mod((t + 1) as nat, n);
        }
    }
}

/// Stripes go round the nodes: the hash of the key names the node of the first stripe, each
/// further stripe is on the next node of the list, and after the last node comes the first again.
/// Nodes that know the same list agree on every stripe.
pub proof fn stripes_go_round_the_nodes(
    a: &KVServiceContext,
    b: &KVServiceContext,
    key: KeyView,
    i: int,
)
    requires
        i >= 0,
        a.nodes() == b.nodes(),
    ensures
        ({
            let n = a.nodes().len();
            &&& n > 0
            &&& 0 <= turn(key, i, n) < n
            &&& a.stripe_node(key, i) == a.nodes()[turn(key, i, n)]
            &&& a.stripe_node(key, i + 1) == (if turn(key, i, n) + 1 == n {
                a.nodes()[0]
            } else {
                a.nodes()[turn(key, i, n) + 1]
            })
            &&& a.stripe_node(key, i + n) == a.stripe_node(key, i)
            &&& b.stripe_node(key, i) == a.stripe_node(key, i)
        }),
{
    lemma_turn(key, i, a.nodes().len());
    lemma_turn(key, i + 1, a.nodes().len());
    lemma_turn(key, i + a.nodes().len(), a.nodes().len());
}

/// The stripes that this node holds are numbered from zero on, one after the other; the number
/// does not change for stripes of other nodes.
pub proof fn local_stripes_are_numbered(ctx: &KVServiceContext, key: KeyView, i: nat)
    ensures
        hits(ctx.local_flags(), ctx.base(key), 0) == 0,
        hits(ctx.local_flags(), ctx.base(key), i + 1) == hits(ctx.local_flags(), ctx.base(key), i)
            + (if ctx.is_local(ctx.nodes()[turn(key, i as int, ctx.nodes().len())]) {
            1nat
        } else {
            0nat
        }),
{
    lemma_turn(key, i as int, ctx.nodes().len());
    assert((ctx.base(key) + (i + 1) - 1) == ctx.base(key) + i);
}

/// Every stripe that a prepared put hands out names the node that will accept it: the node that
/// has the turn of that stripe. A node that knows the same list of nodes, and goes by the ID or
/// by the RPC address that was handed out, takes the stripe for its own.
pub proof fn reserved_stripes_are_accepted(
    ctx: &KVServiceContext,
    other: &KVServiceContext,
    key: KeyView,
    size: u64,
    i: int,
)
    requires
        i >= 0,
        other.nodes() == ctx.nodes(),
        other.local().node_id == reserved_chunk(ctx, key, size, i).node_id
            || other.local().grpc_endpoint == reserved_chunk(ctx, key, size, i).grpc_endpoint,
    ensures
        other.is_local(other.stripe_node(key, i)),
        other.is_local(other.nodes()[turn(key, i, other.nodes().len())]),
{
    stripes_go_round_the_nodes(ctx, other, key, i);
}

/// The stripes that a prepared put hands out go round the nodes and follow one another through
/// the object: stripe `i` is on the node that has its turn, begins where the one before it ends,
/// and the last one ends where the object ends.
pub proof fn reserved_stripes_are_laid_out(ctx: &KVServiceContext, key: KeyView, size: u64, i: int)
    requires
        0 <= i < stripe_count(size as nat, stripe_size(ctx) as nat),
    ensures
        ({
            let n = ctx.nodes().len();
            let c = reserved_chunk(ctx, key, size, i);
            let next = reserved_chunk(ctx, key, size, i + 1);
            let node = ctx.nodes()[turn(key, i, n)];
            &&& c.node_id == node.node_id
            &&& c.grpc_endpoint == node.grpc_endpoint
            &&& c.rdma_endpoint == node.rdma_endpoint
            &&& i <= u32::MAX ==> c.stripe_index == i
            &&& i == 0 ==> c.offset == 0
            &&& 0 < c.length <= stripe_size(ctx)
            &&& if i + 1 < stripe_count(size as nat, stripe_size(ctx) as nat) {
                c.length == stripe_size(ctx) && next.offset == c.offset + c.length
            } else {
                c.offset + c.length == size
            }
            &&& c.storage_handle.len() == 0 && c.checksum.len() == 0 && c.device_id == 0
        }),
{
    let s = stripe_size(ctx) as nat;
    stripes_go_round_the_nodes(ctx, ctx, key, i);
    stripes::lemma_stripe_bounds(size as nat, s, i);
    assert(0 * s == 0) by (nonlinear_arith);
    assert((i + 1) * s == i * s + s) by (nonlinear_arith);
    assert(i * s >= 0) by (nonlinear_arith)
        requires
            i >= 0,
    ;
    if i + 1 < stripe_count(size as nat, s) {
        stripes::lemma_stripe_bounds(size as nat, s, i + 1);
    }
}

/// The handles of stripes, in order.
pub open spec fn handles(chunks: Seq<ChunkView>) -> Seq<Seq<char>> {
    chunks.map_values(|c: ChunkView| c.storage_handle)
}

/// The stripes of a striped object without recorded locations are all on this node: their
/// handles, in order, are exactly the recorded paths, and stripe `i` has the device and the
/// checksum that are recorded for it.
pub proof fn stripes_of_one_node_follow_the_record(local: NodeView, meta: MetaView, i: int)
    requires
        meta.striping is Some,
        meta.striping->0.chunk_locations.len() != meta.striping->0.chunk_paths.len(),
        0 <= i < meta.striping->0.chunk_paths.len(),
    ensures
        ({
            let s = meta.striping->0;
            let chunks = chunks_of(local, meta);
            let c = chunks[i];
            &&& handles(chunks) == s.chunk_paths
            &&& c.storage_handle == s.chunk_paths[i]
            &&& i <= u32::MAX ==> c.stripe_index == i
            &&& c.node_id == local.node_id
            &&& c.grpc_endpoint == local.grpc_endpoint
            &&& c.rdma_endpoint == local.rdma_endpoint
            &&& i < s.chunk_devices.len() ==> c.device_id == s.chunk_devices[i]
            &&& i >= s.chunk_devices.len() ==> c.device_id == 0
            &&& i < s.chunk_checksums.len() ==> c.checksum == s.chunk_checksums[i]
            &&& i >= s.chunk_checksums.len() ==> c.checksum.len() == 0
        }),
{
    assert(handles(chunks_of(local, meta)) =~= meta.striping->0.chunk_paths);
}

proof fn lemma_local_lengths(local: NodeView, meta: MetaView, k: nat)
    requires
        meta.striping is Some,
        meta.striping->0.chunk_locations.len() != meta.striping->0.chunk_paths.len(),
        meta.striping->0.chunk_size > 0,
        meta.striping->0.chunk_paths.len() == stripe_count(
            meta.striping->0.total_size as nat,
            meta.striping->0.chunk_size as nat,
        ),
        k <= meta.striping->0.chunk_paths.len(),
    ensures
        ({
            let s = meta.striping->0;
            total_length(chunks_of(local, meta).take(k as int)) == (if k == s.chunk_paths.len() {
                s.total_size as nat
            } else {
                k * s.chunk_size as nat
            })
        }),
        forall|i: int|
            0 <= i < k ==> (#[trigger] chunks_of(local, meta)[i]).offset == i
                * meta.striping->0.chunk_size && chunks_of(local, meta)[i].length == stripe_end(
                meta.striping->0.total_size as nat,
                meta.striping->0.chunk_size as nat,
                i,
            ) - i * meta.striping->0.chunk_size,
    decreases k,
{
    let s = meta.striping->0;
    let chunks = chunks_of(local, meta);
    let z = s.chunk_size as nat;
    let total = s.total_size as nat;
    if k == 0 {
        assert(0 * z == 0) by (nonlinear_arith);
        if s.chunk_paths.len() == 0 {
            vstd::arithmetic::div_mod::lemma_fundamental_div_mod(total + z - 1, z as int);
            vstd::arithmetic::div_mod::lemma_mod_bound(total + z - 1, z as int);
            assert(z * 0 == 0) by (nonlinear_arith);
        }
    } else {
        let m = (k - 1) as nat;
        lemma_local_lengths(local, meta, m);
        stripes::lemma_stripe_bounds(total, z, m as int);
        assert(chunks.take(k as int).drop_last() =~= chunks.take(m as int));
        assert(k * z == m * z + z) by (nonlinear_arith)
            requires
                k == m + 1,
        ;
        assert(chunks[m as int].offset == m * z);
    }
}

/// The stripes of a striped object that is on one node follow one another without a gap: the
/// first begins at zero, each begins where the one before it ends, and together they are as long
/// as the object.
pub proof fn stripes_of_one_node_cover_the_object(local: NodeView, meta: MetaView)
    requires
        meta.striping is Some,
        meta.striping->0.chunk_locations.len() != meta.striping->0.chunk_paths.len(),
        meta.striping->0.chunk_size > 0,
        meta.striping->0.chunk_paths.len() == stripe_count(
            meta.striping->0.total_size as nat,
            meta.striping->0.chunk_size as nat,
        ),
    ensures
        ({
            let s = meta.striping->0;
            let chunks = chunks_of(local, meta);
            &&& total_length(chunks) == s.total_size
            &&& chunks.len() > 0 ==> chunks[0].offset == 0
            &&& forall|i: int|
                0 <= i < chunks.len() - 1 ==> #[trigger] chunks[i].offset + chunks[i].length
                    == chunks[i + 1].offset
            &&& forall|i: int|
                0 <= i < chunks.len() ==> 0 < (#[trigger] chunks[i]).length <= s.chunk_size
        }),
{
    let s = meta.striping->0;
    let z = s.chunk_size as nat;
    let chunks = chunks_of(local, meta);
    lemma_local_lengths(local, meta, chunks.len());
    assert(chunks.take(chunks.len() as int) =~= chunks);
    assert(0 * z == 0) by (nonlinear_arith);
    assert forall|i: int| 0 <= i < chunks.len() implies 0 < (#[trigger] chunks[i]).length
        <= s.chunk_size by {
        stripes::lemma_stripe_bounds(s.total_size as nat, z, i);
    }
    assert forall|i: int| 0 <= i < chunks.len() - 1 implies #[trigger] chunks[i].offset
        + chunks[i].length == chunks[i + 1].offset by {
        stripes::lemma_stripe_bounds(s.total_size as nat, z, i);
        assert((i + 1) * z == i * z + z) by (nonlinear_arith);
    }
}

/// An object that is not striped is one piece: its whole length, in its own file, on this node.
/// Recorded locations, one for each stripe, are given as they are recorded.
pub proof fn lookup_gives_what_is_recorded(ctx: &KVServiceContext, key: KeyView, meta: MetaView)
    ensures
        meta.striping is None ==> {
            let chunks = placement_of(ctx, key, meta).chunks;
            &&& chunks.len() == 1
            &&& chunks[0].storage_handle == meta.file_path
            &&& chunks[0].device_id == meta.device_id
            &&& chunks[0].offset == 0
            &&& chunks[0].length == meta.size
            &&& chunks[0].stripe_index == 0
            &&& chunks[0].node_id == ctx.local().node_id
            &&& chunks[0].grpc_endpoint == ctx.local().grpc_endpoint
            &&& chunks[0].rdma_endpoint == ctx.local().rdma_endpoint
        },
        meta.striping matches Some(s) ==> {
            let chunks = placement_of(ctx, key, meta).chunks;
            &&& chunks.len() == s.chunk_paths.len()
            &&& s.chunk_locations.len() == s.chunk_paths.len() ==> chunks == s.chunk_locations
        },
        ({
            let p = placement_of(ctx, key, meta);
            &&& p.key == Some(key)
            &&& p.placement_epoch != 0
            &&& p.primary_node_id == ctx.local().node_id
            &&& p.primary_grpc_endpoint == ctx.local().grpc_endpoint
            &&& p.primary_rdma_endpoint == ctx.local().rdma_endpoint
        }),
{
}

/// A descriptor carries the identity of the version that it was made of, and its shape: a
/// striped object says how many stripes it has and how large they are, any other says none.
pub proof fn descriptor_names_its_version(key: KeyView, meta: MetaView)
    ensures
        ({
            let d = descriptor_of(key, meta);
            &&& d.key == Some(key)
            &&& d.object_generation == meta.object_generation
            &&& d.content_etag == meta.content_etag
            &&& d.layout_version == meta.layout_version
            &&& d.size == meta.size
            &&& meta.object_handle.len() > 0 ==> d.object_handle == meta.object_handle
            &&& d.object_handle.len() > 0
            &&& meta.striping matches Some(s) ==> d.is_striped && d.chunk_size == s.chunk_size && (
            s.chunk_paths.len() <= u32::MAX ==> d.stripe_count == s.chunk_paths.len())
            &&& meta.striping is None ==> !d.is_striped && d.stripe_count == 0 && d.chunk_size == 0
        }),
{
    reveal_strlit("v1:");
}

/// A descriptor is taken for current only by the version that it names: where generation, tag,
/// layout version, size or handle differ, it is stale.
pub proof fn descriptor_of_another_version_is_stale(
    key: KeyView,
    then: MetaView,
    now: MetaView,
)
    requires
        then.object_handle.len() > 0,
    ensures
        describes(descriptor_of(key, then), now) <==> (then.object_generation
            == now.object_generation && then.content_etag == now.content_etag
            && then.layout_version == now.layout_version && then.size == now.size
            && then.object_handle == now.object_handle),
{
}

/// All that a record says of an object but where its bytes are.
pub open spec fn same_apart_from_layout(a: MetaView, b: MetaView) -> bool {
    &&& a.object_handle == b.object_handle
    &&& a.object_generation == b.object_generation
    &&& a.content_etag == b.content_etag
    &&& a.layout_version == b.layout_version
    &&& same_value(a, b)
}

/// What a record says of the value itself: its lifetime, its times and its shape.
pub open spec fn same_value(a: MetaView, b: MetaView) -> bool {
    &&& a.created_at == b.created_at
    &&& a.last_accessed_at == b.last_accessed_at
    &&& a.ttl_seconds == b.ttl_seconds
    &&& a.num_tokens == b.num_tokens
    &&& a.num_layers == b.num_layers
    &&& a.dtype == b.dtype
    &&& a.compressed == b.compressed
}

/// The record says where each stripe is: the recorded paths, devices and checksums are those of
/// the locations, in order.
pub open spec fn records_locations(m: MetaView, locations: Seq<ChunkView>, size: u64) -> bool {
    &&& m.striping is Some
    &&& m.striping->0.chunk_size == size
    &&& m.striping->0.total_size == m.size
    &&& m.striping->0.chunk_locations == locations
    &&& m.striping->0.chunk_paths.len() == locations.len()
    &&& m.striping->0.chunk_devices.len() == locations.len()
    &&& m.striping->0.chunk_checksums.len() == locations.len()
    &&& forall|i: int|
        0 <= i < locations.len() ==> {
            &&& m.striping->0.chunk_paths[i] == (#[trigger] locations[i]).storage_handle
            &&& m.striping->0.chunk_devices[i] == locations[i].device_id
            &&& m.striping->0.chunk_checksums[i] == locations[i].checksum
        }
    &&& locations.len() > 0 ==> m.device_id == locations[0].device_id
    &&& m.file_path.len() == 0
}

/// The record that is published for an object that was spread over nodes keeps everything of
/// the prepared record that the layout does not determine, its lifetime among it, and says of
/// the layout what the nodes have answered.
pub proof fn published_record_keeps_the_prepared_one(
    prepared: MetaView,
    locations: Seq<ChunkView>,
    total: u64,
    size: u64,
)
    ensures
        ({
            let m = committed(prepared, locations, total, size);
            &&& same_apart_from_layout(m, prepared)
            &&& m.size == total
            &&& records_locations(m, locations, size)
        }),
{
}

/// The record that the second phase of a put publishes has the identity that the first phase
/// handed out, and says of the value what the client said of it: the lifetime that it asked for,
/// whether or not the object is striped.
pub proof fn published_record_is_what_was_asked_for(
    sorted: Seq<ChunkView>,
    descriptor: DescriptorView,
    m: Option<KvMetadataView>,
    options: Option<PutOptions>,
    now: i64,
)
    requires
        total_length(sorted) <= u64::MAX,
    ensures
        ({
            let r = commit_meta(sorted, descriptor, fresh_meta(m, options, now));
            &&& r.object_handle == descriptor.object_handle
            &&& r.object_generation == descriptor.object_generation
            &&& r.content_etag == descriptor.content_etag
            &&& r.layout_version == descriptor.layout_version
            &&& same_value(r, fresh_meta(m, options, now))
            &&& r.size == total_length(sorted)
            &&& records_locations(r, sorted, descriptor.chunk_size)
            &&& options is Some && options->0.ttl_seconds > 0 ==> r.ttl_seconds
                == options->0.ttl_seconds
            &&& options is Some && options->0.ttl_seconds <= 0 ==> r.ttl_seconds == 0
            &&& options is None ==> r.ttl_seconds == 0
        }),
{
}

/// The length of stripes is that of their parts together.
pub proof fn lengths_of_stripes_add_up(a: Seq<ChunkView>, b: Seq<ChunkView>)
    ensures
        total_length(a + b) == total_length(a) + total_length(b),
        a.len() == 1 ==> total_length(a) == a[0].length,
    decreases b.len(),
{
    if b.len() > 0 {
        lengths_of_stripes_add_up(a, b.drop_last());
        assert((a + b).drop_last() =~= a + b.drop_last());
        assert((a + b).last() == b.last());
    } else {
        assert(a + b =~= a);
    }
    if a.len() == 1 {
        assert(a.drop_last().len() == 0);
        assert(total_length(a.drop_last()) == 0);
    }
}

/// A node for which no others are configured is alone: every stripe goes to it.
pub proof fn lone_node_takes_every_stripe(ctx: &KVServiceContext, key: KeyView, i: int)
    requires
        ctx.config.cluster.data_nodes@.len() == 0,
    ensures
        ctx.nodes() == seq![ctx.local()],
        ctx.stripe_node(key, i) == ctx.local(),
{
    assert((ctx.base(key) + i) % 1 == 0);
}

} // verus!
