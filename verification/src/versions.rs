//! What a read, a write and a commit are held against: versions of an object, its placement, and
//! the stripes that a client reports.
use crate::convert::{fresh_meta, told};
use crate::distributed::{
    has_remote, is_first_failure, lacks_checksum, owner, written, written_locations, ChunkWriteResult,
};
use crate::error::{Code, Status};
use crate::get_flow::first_failure;
use crate::handlers::{
    by_address, commit_fault, prepare_refusal, read_fault, same_version, streams_directly,
};
use crate::key::KeyView;
use crate::layout;
use crate::metadata::{ChunkView, MetaView};
use crate::order;
use crate::order::arranged;
use crate::pb;
use crate::pb::{KvMetadataView, PlacementView, PutOptions};
use crate::placement::{
    describes, descriptor_of, placement_fault, placement_of, KVServiceContext,
};
use vstd::prelude::*;
use vstd::string::*;

verus! {

/// Two records are of the same version exactly where a descriptor of the one is current for the
/// other: reads of a version and reads by descriptor agree. Every record is of its own version.
pub proof fn versions_are_told_as_descriptors_are(key: KeyView, a: MetaView, b: MetaView)
    ensures
        same_version(a, a),
        same_version(a, b) == same_version(b, a),
        a.object_handle.len() > 0 ==> same_version(a, b) == describes(descriptor_of(key, a), b),
        a.object_generation != b.object_generation ==> !same_version(a, b),
        a.content_etag != b.content_etag ==> !same_version(a, b),
        a.layout_version != b.layout_version ==> !same_version(a, b),
        a.size != b.size ==> !same_version(a, b),
        a.object_handle != b.object_handle ==> !same_version(a, b),
{
}

/// A placement is current where its key, its epoch, its policy and its layout hash are those
/// that this node would give now. One without a key is no placement; none at all is accepted.
pub proof fn placement_is_held_against_the_current_one(
    ctx: &KVServiceContext,
    key: KeyView,
    meta: MetaView,
    p: PlacementView,
)
    ensures
        placement_fault(ctx, key, meta, None) is None,
        p.key is None ==> placement_fault(ctx, key, meta, Some(p)) == Some(
            (Code::InvalidArgument, "placement descriptor missing key"@),
        ),
        ({
            let now = placement_of(ctx, key, meta);
            let current = p.key == now.key && p.placement_epoch == now.placement_epoch
                && p.placement_policy_id == now.placement_policy_id && p.layout_hash
                == now.layout_hash;
            p.key is Some ==> if current {
                placement_fault(ctx, key, meta, Some(p)) is None
            } else {
                placement_fault(ctx, key, meta, Some(p)) == Some(
                    (Code::FailedPrecondition, "stale placement descriptor"@),
                )
            }
        }),
{
}

/// Whoever reads by the descriptor and the placement that a lookup gave is answered as long as
/// the object is the same; by the descriptor of another version, or by a placement that is no
/// longer current, they are refused.
pub proof fn read_follows_the_lookup(
    ctx: &KVServiceContext,
    key: KeyView,
    then: MetaView,
    now: MetaView,
    p: PlacementView,
)
    requires
        then.object_handle.len() > 0,
    ensures
        read_fault(ctx, key, descriptor_of(key, then), then, Some(placement_of(ctx, key, then)))
            is None,
        read_fault(ctx, key, descriptor_of(key, then), then, None) is None,
        !same_version(then, now) ==> read_fault(ctx, key, descriptor_of(key, then), now, Some(p))
            == Some((Code::FailedPrecondition, "stale descriptor"@)),
        !same_version(then, now) ==> read_fault(ctx, key, descriptor_of(key, then), now, None)
            == Some((Code::FailedPrecondition, "stale descriptor"@)),
        p.key is Some && p.layout_hash != placement_of(ctx, key, then).layout_hash ==> read_fault(
            ctx,
            key,
            descriptor_of(key, then),
            then,
            Some(p),
        ) == Some((Code::FailedPrecondition, "stale placement descriptor"@)),
        p.key is Some && p.placement_epoch != ctx.epoch() ==> read_fault(
            ctx,
            key,
            descriptor_of(key, then),
            then,
            Some(p),
        ) == Some((Code::FailedPrecondition, "stale placement descriptor"@)),
        p.key is Some && p.key != Some(key) ==> read_fault(
            ctx,
            key,
            descriptor_of(key, then),
            then,
            Some(p),
        ) == Some((Code::FailedPrecondition, "stale placement descriptor"@)),
{
}

/// An object that is not striped, or that is striped without recorded locations, is on this node
/// and is read here. One with a stripe that is recorded for another node is not.
pub proof fn remote_stripes_are_those_of_other_nodes(
    ctx: &KVServiceContext,
    key: KeyView,
    meta: MetaView,
    i: int,
)
    ensures
        meta.striping is None ==> !has_remote(ctx, placement_of(ctx, key, meta).chunks),
        meta.striping is Some && meta.striping->0.chunk_locations.len()
            != meta.striping->0.chunk_paths.len() ==> !has_remote(
            ctx,
            placement_of(ctx, key, meta).chunks,
        ),
        ({
            let chunks = placement_of(ctx, key, meta).chunks;
            0 <= i < chunks.len() && chunks[i].node_id != ctx.local().node_id
                && chunks[i].grpc_endpoint != ctx.local().grpc_endpoint ==> has_remote(ctx, chunks)
        }),
        ({
            let chunks = placement_of(ctx, key, meta).chunks;
            0 <= i < chunks.len() && !has_remote(ctx, chunks) ==> chunks[i].node_id
                == ctx.local().node_id || chunks[i].grpc_endpoint == ctx.local().grpc_endpoint
        }),
{
    let chunks = placement_of(ctx, key, meta).chunks;
    assert forall|k: int| 0 <= k < chunks.len() && (meta.striping is None
        || meta.striping->0.chunk_locations.len()
        != meta.striping->0.chunk_paths.len()) implies ctx.is_local(owner(#[trigger] chunks[k])) by {
        layout::node_knows_itself(ctx, owner(chunks[k]));
    }
    if 0 <= i < chunks.len() {
        layout::node_knows_itself(ctx, owner(chunks[i]));
        assert(owner(chunks[i]).node_id == chunks[i].node_id);
    }
}

/// A put is prepared for the client exactly where the same object, sent as a stream, would be
/// spread over the nodes: it is larger than the threshold, striping is on, and there is more
/// than one node. An empty object is never spread.
pub proof fn prepared_and_streamed_puts_agree(ctx: &KVServiceContext, size: u64)
    ensures
        prepare_refusal(ctx, size) is None <==> streams_directly(ctx, size as int),
        size <= ctx.config.storage.striping_threshold ==> prepare_refusal(ctx, size) is Some,
        ctx.config.storage.striping_threshold == 0 ==> prepare_refusal(ctx, size) is Some,
        ctx.nodes().len() <= 1 ==> prepare_refusal(ctx, size) is Some,
        0 < ctx.config.storage.striping_threshold < size && ctx.nodes().len() > 1
            ==> prepare_refusal(ctx, size) is None,
        !streams_directly(ctx, 0),
        forall|n: int| n < 0 ==> !#[trigger] streams_directly(ctx, n),
{
}

/// A commit is accepted exactly where the stripes reported are those prepared: there is one for
/// every number below the number of stripes, in whatever order, and where checksums are required
/// each has one.
pub proof fn commit_takes_complete_stripes(
    chunks: Seq<pb::PlacementChunk>,
    expected: u32,
    verify: bool,
)
    ensures
        commit_fault(chunks, expected, verify) is None <==> {
            &&& chunks.len() == expected
            &&& expected > 0
            &&& forall|i: int| 0 <= i < chunks.len() ==> (#[trigger] chunks[i]).stripe_index < expected
            &&& forall|i: int, j: int|
                0 <= i < j < chunks.len() ==> (#[trigger] chunks[i]).stripe_index != (
                #[trigger] chunks[j]).stripe_index
            &&& verify ==> forall|i: int|
                0 <= i < chunks.len() ==> (#[trigger] chunks[i]).checksum@.len() > 0
        },
{
    broadcast use vstd::seq_lib::group_to_multiset_ensures;

    let r = arranged(chunks);
    order::ordering_keeps_the_elements(chunks);
    assert forall|i: int| 0 <= i < chunks.len() implies r.contains(#[trigger] chunks[i]) by {
        assert(chunks.contains(chunks[i]));
        assert(chunks.to_multiset().count(chunks[i]) > 0);
        assert(r.to_multiset().count(chunks[i]) > 0);
    }
    assert forall|i: int| 0 <= i < r.len() implies chunks.contains(#[trigger] r[i]) by {
        assert(r.contains(r[i]));
        assert(r.to_multiset().count(r[i]) > 0);
        assert(chunks.to_multiset().count(r[i]) > 0);
    }
    if commit_fault(chunks, expected, verify) is None {
        assert forall|i: int| 0 <= i < r.len() implies (#[trigger] r[i]).stripe_index == i by {
        }
        assert forall|i: int, j: int| 0 <= i < r.len() && 0 <= j < r.len() && i != j implies r[i]
            != r[j] by {
            assert(r[i].stripe_index == i);
            assert(r[j].stripe_index == j);
        }
        r.lemma_multiset_has_no_duplicates();
        chunks.lemma_multiset_has_no_duplicates_conv();
        assert forall|i: int, j: int| 0 <= i < j < chunks.len() implies (
        #[trigger] chunks[i]).stripe_index != (#[trigger] chunks[j]).stripe_index by {
            assert(chunks[i] != chunks[j]);
            assert(r.contains(chunks[i]) && r.contains(chunks[j]));
            let x = choose|x: int| 0 <= x < r.len() && r[x] == chunks[i];
            let y = choose|y: int| 0 <= y < r.len() && r[y] == chunks[j];
            assert(r[x].stripe_index == x && r[y].stripe_index == y);
        }
        assert forall|i: int| 0 <= i < chunks.len() implies (#[trigger] chunks[i]).stripe_index
            < expected && (verify ==> chunks[i].checksum@.len() > 0) by {
            assert(r.contains(chunks[i]));
            let x = choose|x: int| 0 <= x < r.len() && r[x] == chunks[i];
            assert(r[x].stripe_index == x);
            if verify && chunks[i].checksum@.len() == 0 {
                assert(r[x].checksum@.len() == 0);
            }
        }
    }
    if chunks.len() == expected && expected > 0 && (forall|i: int|
        0 <= i < chunks.len() ==> (#[trigger] chunks[i]).stripe_index < expected) && (forall|
        i: int,
        j: int,
    |
        0 <= i < j < chunks.len() ==> (#[trigger] chunks[i]).stripe_index != (
        #[trigger] chunks[j]).stripe_index) && (verify ==> forall|i: int|
        0 <= i < chunks.len() ==> (#[trigger] chunks[i]).checksum@.len() > 0) {
        order::numbered_elements_find_their_places(
            chunks,
            |c: pb::PlacementChunk| c.stripe_index as int,
        );
        assert forall|i: int| 0 <= i < r.len() implies (#[trigger] r[i]).stripe_index == i && (
        verify ==> r[i].checksum@.len() > 0) by {
            assert(chunks.contains(r[i]));
            let x = choose|x: int| 0 <= x < chunks.len() && chunks[x] == r[i];
            assert(verify ==> chunks[x].checksum@.len() > 0);
            let number = |c: pb::PlacementChunk| c.stripe_index as int;
            assert(number(r[i]) == i);
        }
        assert(commit_fault(chunks, expected, verify) is None);
    }
}

/// A stripe that is rolled back is the one that was reported: it is found by its address, its
/// device and its handle. Its node is not told by a name that the client made up.
pub proof fn rolled_back_stripe_is_the_reported_one(ctx: &KVServiceContext, c: ChunkView)
    ensures
        by_address(c).stripe_index == c.stripe_index,
        by_address(c).grpc_endpoint == c.grpc_endpoint,
        by_address(c).rdma_endpoint == c.rdma_endpoint,
        by_address(c).device_id == c.device_id,
        by_address(c).storage_handle == c.storage_handle,
        by_address(c).offset == c.offset,
        by_address(c).length == c.length,
        by_address(c).checksum == c.checksum,
        by_address(c).node_id.len() == 0,
        ctx.local().node_id.len() > 0 ==> ctx.is_local(owner(by_address(c))) == (c.grpc_endpoint
            == ctx.local().grpc_endpoint),
{
    layout::node_knows_itself(ctx, owner(by_address(c)));
}

/// The record of a value that is stored for the first time: it is the first version, says
/// nothing of its place yet, and holds what the client said of the value. It was created when
/// the client says, or else now, and lives as long as the client asks for.
pub proof fn first_record_holds_what_was_said(
    m: Option<KvMetadataView>,
    options: Option<PutOptions>,
    now: i64,
)
    ensures
        ({
            let r = fresh_meta(m, options, now);
            &&& r.object_generation == 1 && r.layout_version == 1
            &&& r.object_handle.len() == 0 && r.content_etag.len() == 0
            &&& r.size == 0 && r.file_path.len() == 0 && r.device_id == 0 && r.striping is None
            &&& r.last_accessed_at == now
            &&& m is Some && m->0.created_at > 0 ==> r.created_at == m->0.created_at
            &&& m is None || m->0.created_at <= 0 ==> r.created_at == now
            &&& m is Some ==> r.num_tokens == m->0.num_tokens && r.num_layers == m->0.num_layers
                && r.dtype == m->0.dtype && r.compressed == m->0.compressed
            &&& m is None ==> r.num_tokens == 0 && r.num_layers == 0 && r.dtype == "bfloat16"@
                && !r.compressed
            &&& options is Some && options->0.ttl_seconds > 0 ==> r.ttl_seconds
                == options->0.ttl_seconds
            &&& options is None || options->0.ttl_seconds <= 0 ==> r.ttl_seconds == 0
        }),
{
}

/// What a client is told of a value is what its record holds, whatever version it is of.
pub proof fn client_is_told_what_is_recorded(m: MetaView)
    ensures
        told(m).num_tokens == m.num_tokens,
        told(m).num_layers == m.num_layers,
        told(m).dtype == m.dtype,
        told(m).compressed == m.compressed,
        told(m).created_at == m.created_at,
        told(m).last_accessed_at == m.last_accessed_at,
        told(m).shape.len() == 0 && told(m).compression_level == 0,
{
}

/// What was written is what the nodes that succeeded answered, no more and no less: every answer
/// of a node is among the locations, each location is such an answer, and a failure adds none.
pub proof fn written_stripes_are_those_that_succeeded(
    results: Seq<Result<ChunkWriteResult, Status>>,
    i: int,
)
    ensures
        0 <= i < results.len() && results[i] is Ok ==> written_locations(results).contains(
            results[i]->Ok_0.location,
        ) && written(results).contains(results[i]->Ok_0.location@),
        0 <= i < written_locations(results).len() ==> exists|k: int|
            0 <= k < results.len() && (#[trigger] results[k]) is Ok && results[k]->Ok_0.location
                == written_locations(results)[i],
        written(results).len() == written_locations(results).len(),
        (forall|k: int| 0 <= k < results.len() ==> (#[trigger] results[k]) is Ok)
            ==> written_locations(results).len() == results.len(),
    decreases results.len(),
{
    if results.len() > 0 {
        let f = results.drop_last();
        let last = results.len() - 1;
        written_stripes_are_those_that_succeeded(f, i);
        let w = written_locations(f);
        if 0 <= i < results.len() && results[i] is Ok {
            if i < last {
                let x = choose|x: int| 0 <= x < w.len() && w[x] == results[i]->Ok_0.location;
                assert(written_locations(results)[x] == results[i]->Ok_0.location);
                let v = written(f);
                let y = choose|y: int| 0 <= y < v.len() && v[y] == results[i]->Ok_0.location@;
                assert(written(results)[y] == results[i]->Ok_0.location@);
            } else {
                assert(written_locations(results)[w.len() as int] == results[i]->Ok_0.location);
                assert(written(results)[written(f).len() as int] == results[i]->Ok_0.location@);
            }
        }
        if 0 <= i < written_locations(results).len() {
            if i < w.len() {
                let k = choose|k: int|
                    0 <= k < f.len() && (#[trigger] f[k]) is Ok && f[k]->Ok_0.location == w[i];
                assert(results[k] is Ok && results[k]->Ok_0.location
                    == written_locations(results)[i]);
            } else {
                assert(results[last] is Ok);
            }
        }
        if forall|k: int| 0 <= k < results.len() ==> (#[trigger] results[k]) is Ok {
            assert forall|k: int| 0 <= k < f.len() implies (#[trigger] f[k]) is Ok by {
                assert(results[k] is Ok);
            }
            assert(results[last] is Ok);
        }
    }
}

/// A location without a checksum is noticed, wherever it is; locations that all have one pass.
pub proof fn missing_checksum_is_noticed(locations: Seq<ChunkView>, i: int)
    ensures
        0 <= i < locations.len() && locations[i].checksum.len() == 0 ==> lacks_checksum(locations),
        0 <= i < locations.len() && !lacks_checksum(locations) ==> locations[i].checksum.len() > 0,
        (forall|k: int| 0 <= k < locations.len() ==> (#[trigger] locations[k]).checksum.len() > 0)
            ==> !lacks_checksum(locations),
{
}

/// A list of outcomes fails with its first failure, and only where there is one.
pub proof fn first_failure_counts(results: Seq<Result<(), Status>>)
    ensures
        first_failure(results) is None <==> forall|i: int|
            0 <= i < results.len() ==> (#[trigger] results[i]) is Ok,
        first_failure(results) matches Some(e) ==> exists|i: int|
            0 <= i < results.len() && (#[trigger] results[i]) == Err::<(), Status>(e) && forall|
                k: int,
            |
                0 <= k < i ==> (#[trigger] results[k]) is Ok,
    decreases results.len(),
{
    if results.len() > 0 {
        let f = results.drop_last();
        let last = results.len() - 1;
        first_failure_counts(f);
        if first_failure(f) is Some {
            let e = first_failure(f)->0;
            let i = choose|i: int|
                0 <= i < f.len() && (#[trigger] f[i]) == Err::<(), Status>(e) && forall|k: int|
                    0 <= k < i ==> (#[trigger] f[k]) is Ok;
            assert(results[i] == Err::<(), Status>(e));
            assert forall|k: int| 0 <= k < i implies (#[trigger] results[k]) is Ok by {
                assert(f[k] is Ok);
            }
        } else {
            assert forall|k: int| 0 <= k < last implies (#[trigger] results[k]) is Ok by {
                assert(f[k] is Ok);
            }
            assert(results[last] == results.last());
        }
    }
}

/// A write fails with the first failure among its stripes, and only where there is one.
pub proof fn first_failed_stripe_counts(
    results: Seq<Result<ChunkWriteResult, Status>>,
    i: int,
    j: int,
)
    ensures
        is_first_failure(results, i) && is_first_failure(results, j) ==> i == j,
        is_first_failure(results, i) ==> results[i] is Err && (0 <= j < i ==> results[j] is Ok),
        (exists|k: int| 0 <= k < results.len() && (#[trigger] results[k]) is Err) ==> exists|k: int|
            is_first_failure(results, k),
    decreases results.len(),
{
    if is_first_failure(results, i) && 0 <= j < i {
        assert(results[j] is Ok);
    }
    if is_first_failure(results, j) && 0 <= i < j {
        assert(results[i] is Ok);
    }
    if exists|k: int| 0 <= k < results.len() && (#[trigger] results[k]) is Err {
        let k = choose|k: int| 0 <= k < results.len() && (#[trigger] results[k]) is Err;
        let f = results.drop_last();
        let last = results.len() - 1;
        first_failed_stripe_counts(f, i, j);
        if exists|m: int| 0 <= m < f.len() && (#[trigger] f[m]) is Err {
            let m = choose|m: int| is_first_failure(f, m);
            assert forall|x: int| 0 <= x < m implies (#[trigger] results[x]) is Ok by {
                assert(f[x] is Ok);
            }
            assert(is_first_failure(results, m));
        } else {
            if k < last {
                assert(f[k] is Err);
            }
            assert forall|x: int| 0 <= x < last implies (#[trigger] results[x]) is Ok by {
                assert(!(f[x] is Err));
            }
            assert(is_first_failure(results, last));
        }
    }
}

/// The policy that a placement names tells strategies apart.
pub proof fn policy_tells_strategies_apart(a: &KVServiceContext, b: &KVServiceContext)
    ensures
        a.policy() == b.policy() <==> a.config.router.strategy@ == b.config.router.strategy@,
        a.policy().take(a.config.router.strategy@.len() as int) == a.config.router.strategy@,
{
    let x = a.config.router.strategy@;
    let y = b.config.router.strategy@;
    assert(a.policy().take(x.len() as int) =~= x);
    assert(b.policy().take(y.len() as int) =~= y);
}

} // verus!
