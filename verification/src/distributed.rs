//! Writing an object whose stripes live on several nodes.
use crate::error::{Code, Status};
use crate::key::ObjectKey;
use crate::layout::{records_locations, same_apart_from_layout};
use crate::metadata::{BlockMeta, ChunkLocation, ChunkView, MetaView, StripeView, StripingInfo};
use crate::order::{arrange, arranged, Ranked};
use crate::payload::{concat, payload, payloads};
use crate::pb;
use crate::placement;
use crate::placement::{chunk_views, hits, DataNode, KVServiceContext, NodeView};
use crate::stripes;
use crate::stripes::{stripe_count, stripes_of, Stripe, StripeAssembler};
use crate::text;
use crate::text::decimal;
use prost::bytes::Bytes;
use vstd::prelude::*;
use vstd::string::*;

verus! {

/// The most stripe writes that are under way at a time.
pub const MAX_INFLIGHT_STRIPES: usize = 4;

impl Ranked for ChunkLocation {
    open spec fn after(&self, other: &Self) -> bool {
        self.stripe_index > other.stripe_index
    }

    fn is_after(&self, other: &Self) -> (r: bool) {
        self.stripe_index > other.stripe_index
    }

    proof fn lemma_rank(a: &Self, b: &Self, c: &Self) {
    }
}

impl Ranked for pb::PlacementChunk {
    open spec fn after(&self, other: &Self) -> bool {
        self.stripe_index > other.stripe_index
    }

    fn is_after(&self, other: &Self) -> (r: bool) {
        self.stripe_index > other.stripe_index
    }

    proof fn lemma_rank(a: &Self, b: &Self, c: &Self) {
    }
}

/// A stripe that was read.
pub struct ReadStripe {
    pub index: u32,
    pub data: Bytes,
}

impl Ranked for ReadStripe {
    open spec fn after(&self, other: &Self) -> bool {
        self.index > other.index
    }

    fn is_after(&self, other: &Self) -> (r: bool) {
        self.index > other.index
    }

    proof fn lemma_rank(a: &Self, b: &Self, c: &Self) {
    }
}

/// A stripe that was written.
pub struct ChunkWriteResult {
    pub location: ChunkLocation,
    pub is_local: bool,
}

/// The locations of the stripes that were written, in the order of the answers.
pub open spec fn written(results: Seq<Result<ChunkWriteResult, Status>>) -> Seq<ChunkView>
    decreases results.len(),
{
    if results.len() == 0 {
        Seq::empty()
    } else {
        let front = written(results.drop_last());
        match results.last() {
            Ok(w) => front.push(w.location@),
            Err(_) => front,
        }
    }
}

/// The texts and numbers of a list of locations.
pub open spec fn location_views(s: Seq<ChunkLocation>) -> Seq<ChunkView> {
    s.map_values(|x: ChunkLocation| x@)
}

/// The record of an object whose stripes were all written: `prepared`, with the layout.
pub open spec fn committed(
    prepared: MetaView,
    locations: Seq<ChunkView>,
    total: u64,
    chunk_size: u64,
) -> MetaView {
    MetaView {
        size: total,
        file_path: Seq::empty(),
        device_id: if locations.len() > 0 {
            locations[0].device_id
        } else {
            0
        },
        striping: Some(
            StripeView {
                chunk_size,
                chunk_devices: locations.map_values(|c: ChunkView| c.device_id),
                chunk_paths: locations.map_values(|c: ChunkView| c.storage_handle),
                total_size: total,
                chunk_locations: locations,
                chunk_checksums: locations.map_values(|c: ChunkView| c.checksum),
            },
        ),
        ..prepared
    }
}

/// The record of an object whose stripes are at `locations`.
pub fn commit_record(
    prepared: BlockMeta,
    locations: Vec<ChunkLocation>,
    total: u64,
    chunk_size: u64,
) -> (r: BlockMeta)
    ensures
        r@ == committed(prepared@, location_views(locations@), total, chunk_size),
        same_apart_from_layout(r@, prepared@),
        records_locations(r@, location_views(locations@), chunk_size),
{
    let ghost views = location_views(locations@);
    let mut chunk_devices: Vec<u32> = Vec::new();
    let mut chunk_paths: Vec<String> = Vec::new();
    let mut chunk_checksums: Vec<String> = Vec::new();
    let mut i: usize = 0;
    while i < locations.len()
        invariant
            i <= locations.len(),
            views == location_views(locations@),
            chunk_devices.len() == i,
            chunk_paths.len() == i,
            chunk_checksums.len() == i,
            forall|k: int| 0 <= k < i ==> chunk_devices@[k] == views[k].device_id,
            forall|k: int|
                0 <= k < i ==> (#[trigger] chunk_paths@[k])@ == views[k].storage_handle,
            forall|k: int| 0 <= k < i ==> (#[trigger] chunk_checksums@[k])@ == views[k].checksum,
        decreases locations.len() - i,
    {
        let loc = &locations[i];
        chunk_devices.push(loc.device_id);
        chunk_paths.push(loc.storage_handle.clone());
        chunk_checksums.push(loc.checksum.clone());
        i = i + 1;
    }
    let device_id: u32 = if locations.len() > 0 {
        locations[0].device_id
    } else {
        0
    };
    let mut r = prepared;
    r.size = total;
    r.file_path = String::new();
    r.device_id = device_id;
    r.striping = Some(
        StripingInfo {
            chunk_size,
            chunk_devices,
            chunk_paths,
            total_size: total,
            chunk_locations: locations,
            chunk_checksums,
        },
    );
    proof {
        let want = committed(prepared@, views, total, chunk_size);
        assert(r@.striping->0.chunk_devices =~= want.striping->0.chunk_devices);
        assert(r@.striping->0.chunk_paths =~= want.striping->0.chunk_paths);
        assert(r@.striping->0.chunk_checksums =~= want.striping->0.chunk_checksums);
        assert(r@.striping->0 =~= want.striping->0);
        assert(r@ =~= want);
    }
    r
}

fn to_pb_chunks(key: &ObjectKey, locations: &Vec<ChunkLocation>) -> (r: Vec<pb::PlacementChunk>)
    ensures
        chunk_views(r@) == location_views(locations@),
{
    let mut out: Vec<pb::PlacementChunk> = Vec::new();
    let mut i: usize = 0;
    while i < locations.len()
        invariant
            i <= locations.len(),
            out.len() == i,
            forall|k: int| 0 <= k < i ==> (#[trigger] out@[k])@ == locations@[k]@,
        decreases locations.len() - i,
    {
        out.push(placement::chunk_location_to_pb(key, &locations[i]));
        i = i + 1;
    }
    proof {
        assert(chunk_views(out@) =~= location_views(locations@));
    }
    out
}

/// What follows once all stripe writes have been answered. Either way `rollback` lists the
/// stripes to remove again where the object does not come to be.
pub enum WriteVerdict {
    /// Publish the record.
    Commit { meta: BlockMeta, rollback: Vec<pb::PlacementChunk> },
    /// Remove the stripes and refuse.
    Refuse { status: Status, rollback: Vec<pb::PlacementChunk> },
}

/// Some location has no checksum.
pub open spec fn lacks_checksum(locations: Seq<ChunkView>) -> bool {
    exists|i: int| 0 <= i < locations.len() && (#[trigger] locations[i]).checksum.len() == 0
}

fn any_without_checksum(locations: &Vec<ChunkLocation>) -> (r: bool)
    ensures
        r == lacks_checksum(location_views(locations@)),
{
    let mut i: usize = 0;
    while i < locations.len()
        invariant
            i <= locations.len(),
            forall|k: int| 0 <= k < i ==> (#[trigger] locations@[k]).checksum@.len() > 0,
        decreases locations.len() - i,
    {
        if locations[i].checksum.as_str().is_empty() {
            proof {
                assert(location_views(locations@)[i as int].checksum.len() == 0);
            }
            return true;
        }
        i = i + 1;
    }
    proof {
        assert forall|k: int| 0 <= k < locations@.len() implies (#[trigger] location_views(
            locations@,
        )[k]).checksum.len() != 0 by {
            assert(locations@[k].checksum@.len() > 0);
        }
    }
    false
}

/// The first failure among the answers.
pub open spec fn is_first_failure(results: Seq<Result<ChunkWriteResult, Status>>, i: int) -> bool {
    0 <= i < results.len() && results[i] is Err && forall|k: int|
        0 <= k < i ==> (#[trigger] results[k]) is Ok
}

/// Decides over the answers to all stripe writes of an object that was sent at once: the first
/// failure refuses the object; so does a missing checksum where checksums are required;
/// otherwise the record is published with the stripes in order.
pub fn settle_writes(
    key: &ObjectKey,
    prepared: BlockMeta,
    results: Vec<Result<ChunkWriteResult, Status>>,
    total: u64,
    chunk_size: u64,
    verify_checksums: bool,
) -> (r: WriteVerdict)
    ensures
        match r {
            WriteVerdict::Refuse { status, rollback } => {
                ||| exists|i: int|
                    is_first_failure(results@, i) && status == (#[trigger] results@[i])->Err_0
                        && chunk_views(rollback@) == written(results@)
                ||| {
                    &&& forall|i: int| 0 <= i < results@.len() ==> (#[trigger] results@[i]) is Ok
                    &&& verify_checksums && lacks_checksum(written(results@))
                    &&& status.says(
                        Code::FailedPrecondition,
                        "stripe integrity is enabled but a data node did not return a checksum"@,
                    )
                    &&& chunk_views(rollback@) == ordered_views(written_locations(results@))
                }
            },
            WriteVerdict::Commit { meta, rollback } => {
                &&& forall|i: int| 0 <= i < results@.len() ==> (#[trigger] results@[i]) is Ok
                &&& !(verify_checksums && lacks_checksum(written(results@)))
                &&& meta@ == committed(
                    prepared@,
                    ordered_views(written_locations(results@)),
                    total,
                    chunk_size,
                )
                &&& chunk_views(rollback@) == ordered_views(written_locations(results@))
            },
        },
{
    let ghost all = results@;
    let mut locations: Vec<ChunkLocation> = Vec::new();
    let mut failure: Option<Status> = None;
    let ghost mut at: int = 0;
    for x in it: results
        invariant
            it.seq() == all,
            locations@ == written_locations(all.take(it.index())),
            match failure {
                None => forall|k: int| 0 <= k < it.index() ==> (#[trigger] all[k]) is Ok,
                Some(s) => at < it.index() && is_first_failure(all, at) && s == all[at]->Err_0,
            },
    {
        proof {
            assert(all.take(it.index() + 1).drop_last() =~= all.take(it.index()));
        }
        match x {
            Ok(w) => {
                locations.push(w.location);
            },
            Err(s) => {
                if failure.is_none() {
                    failure = Some(s);
                    proof {
                        at = it.index();
                    }
                }
            },
        }
    }
    proof {
        assert(all.take(all.len() as int) =~= all);
        lemma_written(all);
    }
    match failure {
        Some(status) => {
            let rollback = to_pb_chunks(key, &locations);
            WriteVerdict::Refuse { status, rollback }
        },
        None => {
            let missing = any_without_checksum(&locations);
            let locations = arrange(locations);
            let rollback = to_pb_chunks(key, &locations);
            if verify_checksums && missing {
                let status = Status::new(
                    Code::FailedPrecondition,
                    "stripe integrity is enabled but a data node did not return a checksum",
                );
                return WriteVerdict::Refuse { status, rollback };
            }
            let meta = commit_record(prepared, locations, total, chunk_size);
            WriteVerdict::Commit { meta, rollback }
        },
    }
}

/// The locations of the stripes that were written.
pub open spec fn written_locations(results: Seq<Result<ChunkWriteResult, Status>>) -> Seq<
    ChunkLocation,
>
    decreases results.len(),
{
    if results.len() == 0 {
        Seq::empty()
    } else {
        let front = written_locations(results.drop_last());
        match results.last() {
            Ok(w) => front.push(w.location),
            Err(_) => front,
        }
    }
}

/// The locations in the order of their stripes.
pub open spec fn ordered_views(locations: Seq<ChunkLocation>) -> Seq<ChunkView> {
    location_views(arranged(locations))
}

proof fn lemma_written(results: Seq<Result<ChunkWriteResult, Status>>)
    ensures
        written(results) == location_views(written_locations(results)),
    decreases results.len(),
{
    if results.len() > 0 {
        lemma_written(results.drop_last());
    }
    assert(written(results) =~= location_views(written_locations(results)));
}

/// How publishing a record went.
pub enum CommitOutcome {
    Stored,
    /// Another object of that name came first.
    Exists,
    Failed(Status),
}

/// What is removed again, and what the caller is answered, once publishing is done.
pub struct PutConclusion {
    pub rollback: Vec<pb::PlacementChunk>,
    pub reply: Result<bool, Status>,
}

/// Concludes a write: unless the record was stored, every stripe is removed again.
pub fn conclude_put(outcome: CommitOutcome, rollback: Vec<pb::PlacementChunk>) -> (r: PutConclusion)
    ensures
        match outcome {
            CommitOutcome::Stored => r.reply == Ok::<bool, Status>(true) && r.rollback@.len() == 0,
            CommitOutcome::Exists => r.reply == Ok::<bool, Status>(false) && r.rollback
                == rollback,
            CommitOutcome::Failed(s) => r.reply == Err::<bool, Status>(s) && r.rollback == rollback,
        },
{
    match outcome {
        CommitOutcome::Stored => PutConclusion { rollback: Vec::new(), reply: Ok(true) },
        CommitOutcome::Exists => PutConclusion { rollback, reply: Ok(false) },
        CommitOutcome::Failed(s) => PutConclusion { rollback, reply: Err(s) },
    }
}

/// The stripe size in force: the configured one, but at least one byte.
pub open spec fn stripe_size(ctx: &KVServiceContext) -> u64 {
    let c = ctx.config.storage.striping_chunk_size;
    if c == 0 {
        1
    } else {
        c
    }
}

/// The stripe size in force.
pub fn effective_chunk_size(ctx: &KVServiceContext) -> (r: u64)
    ensures
        r == stripe_size(ctx),
        r > 0,
{
    let c: u64 = ctx.config.storage.striping_chunk_size;
    if c == 0 {
        1
    } else {
        c
    }
}

/// The descriptor under which the stripes of an object are written, before it is published.
pub fn make_distributed_descriptor(
    key: &ObjectKey,
    meta: &BlockMeta,
    stripe_count: u64,
    chunk_size: u64,
) -> (r: pb::ObjectDescriptor)
    ensures
        r@ == (pb::DescriptorView {
            is_striped: true,
            stripe_count: stripe_count as u32,
            chunk_size,
            ..placement::descriptor_of(key@, meta@)
        }),
{
    let mut r = placement::descriptor_from_meta(key, meta);
    r.is_striped = true;
    r.stripe_count = stripe_count as u32;
    r.chunk_size = chunk_size;
    r
}

/// One stripe write to be carried out.
pub struct StripeTask {
    pub stripe: Stripe,
    pub node: DataNode,
}

/// The stripe writes of an object that was received whole: stripe after stripe, each on its
/// node.
pub fn plan_stripe_writes(ctx: &KVServiceContext, key: &ObjectKey, data: &Bytes) -> (r: Vec<
    StripeTask,
>)
    requires
        payload(*data).len() + ctx.nodes().len() <= usize::MAX,
    ensures
        r@.len() == stripe_count(payload(*data).len(), stripe_size(ctx) as nat),
        forall|i: int|
            0 <= i < r@.len() ==> (#[trigger] r@[i]).stripe.is_stripe(
                payload(*data),
                stripe_size(ctx) as nat,
                i,
            ) && r@[i].node@ == ctx.stripe_node(key@, i),
{
    let size: u64 = effective_chunk_size(ctx);
    let ghost all = payload(*data);
    let pieces = stripes::split(data, size);
    proof {
        assert(payloads(pieces@).len() == pieces@.len());
    }
    let mut out: Vec<StripeTask> = Vec::new();
    let total: usize = data.len();
    let mut i: usize = 0;
    while i < pieces.len()
        invariant
            i <= pieces.len(),
            size == stripe_size(ctx),
            size > 0,
            all == payload(*data),
            total == all.len(),
            all.len() + ctx.nodes().len() <= usize::MAX,
            payloads(pieces@) == stripes_of(all, size as nat),
            pieces@.len() == stripe_count(all.len(), size as nat),
            out.len() == i,
            forall|k: int|
                0 <= k < i ==> (#[trigger] out@[k]).stripe.is_stripe(all, size as nat, k)
                    && out@[k].node@ == ctx.stripe_node(key@, k),
        decreases pieces.len() - i,
    {
        proof {
            stripes::lemma_stripe_bounds(all.len(), size as nat, i as int);
            assert(i <= i * size) by (nonlinear_arith)
                requires
                    size >= 1,
            ;
            assert(payloads(pieces@)[i as int] == payload(pieces@[i as int]));
        }
        let mut segments: Vec<Bytes> = Vec::new();
        segments.push(pieces[i].clone());
        proof {
            reveal_with_fuel(concat, 2);
            assert(payloads(segments@).drop_last() =~= Seq::<Seq<u8>>::empty());
            assert(concat(payloads(segments@)) =~= payload(segments@[0]));
        }
        let offset: u64 = i as u64 * size;
        let node = placement::select_data_node(ctx, key, i);
        out.push(StripeTask { stripe: Stripe { index: i, offset, segments }, node });
        i = i + 1;
    }
    out
}

/// Where a stripe write goes.
pub enum StripeTarget {
    /// To a local device, chosen by this ordinal.
    Local(usize),
    /// To the node, by a call.
    Remote,
}

/// Decides where a stripe write goes. This node takes only stripes that are its own.
pub fn stripe_target(
    ctx: &KVServiceContext,
    key: &ObjectKey,
    stripe_index: usize,
    node: &DataNode,
) -> (r: Result<StripeTarget, Status>)
    requires
        stripe_index + ctx.nodes().len() <= usize::MAX,
    ensures
        match r {
            Ok(StripeTarget::Remote) => !ctx.is_local(node@),
            Ok(StripeTarget::Local(ordinal)) => ctx.is_local(node@) && ctx.is_local(
                ctx.stripe_node(key@, stripe_index as int),
            ) && ordinal == hits(ctx.local_flags(), ctx.base(key@), stripe_index as nat),
            Err(s) => ctx.is_local(node@) && !ctx.is_local(
                ctx.stripe_node(key@, stripe_index as int),
            ) && s.says(
                Code::FailedPrecondition,
                "stripe assigned to a different data node"@,
            ),
        },
{
    if !placement::is_local_node(ctx, node) {
        return Ok(StripeTarget::Remote);
    }
    match placement::local_device_stripe_index(ctx, key, stripe_index) {
        Some(ordinal) => Ok(StripeTarget::Local(ordinal)),
        None => Err(
            Status::new(Code::FailedPrecondition, "stripe assigned to a different data node"),
        ),
    }
}

/// Whether a stripe is read from, and deleted on, this node; otherwise its own node is called.
pub fn stripe_source(ctx: &KVServiceContext, chunk: &pb::PlacementChunk) -> (r: bool)
    ensures
        r == ctx.is_local(owner(chunk@)),
{
    let node = DataNode {
        node_id: chunk.node_id.clone(),
        grpc_endpoint: chunk.grpc_endpoint.clone(),
        rdma_endpoint: chunk.rdma_endpoint.clone(),
    };
    proof {
        assert(node@ == owner(chunk@));
    }
    placement::is_local_node(ctx, &node)
}

/// What was read of a recorded stripe, under the number of that stripe.
pub fn stripe_read(chunk: &pb::PlacementChunk, data: Bytes) -> (r: ReadStripe)
    ensures
        r.index == chunk.stripe_index,
        payload(r.data) == payload(data),
{
    ReadStripe { index: chunk.stripe_index, data }
}

/// Records a stripe that this node wrote.
pub fn local_write_result(
    node: DataNode,
    stripe_index: usize,
    offset: u64,
    length: u64,
    device_id: u32,
    storage_handle: String,
    checksum: String,
) -> (r: ChunkWriteResult)
    ensures
        r.is_local,
        r.location@ == (ChunkView {
            stripe_index: stripe_index as u32,
            node_id: node.node_id@,
            grpc_endpoint: node.grpc_endpoint@,
            rdma_endpoint: node.rdma_endpoint@,
            device_id,
            storage_handle: storage_handle@,
            offset,
            length,
            checksum: checksum@,
        }),
{
    ChunkWriteResult {
        location: ChunkLocation {
            stripe_index: stripe_index as u32,
            node_id: node.node_id,
            grpc_endpoint: node.grpc_endpoint,
            rdma_endpoint: node.rdma_endpoint,
            device_id,
            storage_handle,
            offset,
            length,
            checksum,
        },
        is_local: true,
    }
}

/// Records the answer of another node to a stripe write.
pub fn remote_write_result(node_id: &str, success: bool, chunk: Option<&pb::PlacementChunk>) -> (r:
    Result<ChunkWriteResult, Status>)
    ensures
        if !success {
            r is Err && r->Err_0.says(
                Code::Internal,
                "data node "@ + node_id@ + " rejected placement chunk"@,
            )
        } else {
            match chunk {
                None => r is Err && r->Err_0.says(
                    Code::Internal,
                    "missing placement chunk in response"@,
                ),
                Some(c) => r is Ok && r->Ok_0.location@ == c@ && !r->Ok_0.is_local,
            }
        },
{
    if !success {
        let mut text = "data node ".to_owned();
        text.append(node_id);
        text.append(" rejected placement chunk");
        return Err(Status { code: Code::Internal, message: text });
    }
    match chunk {
        None => Err(Status::new(Code::Internal, "missing placement chunk in response")),
        Some(c) => Ok(
            ChunkWriteResult { location: placement::pb_chunk_to_location(c), is_local: false },
        ),
    }
}

/// What of another node went wrong.
#[derive(Debug, Clone, Copy, PartialEq, Eq, Structural)]
pub enum NodeCall {
    Connect,
    PutChunk,
    ReadChunk,
    DeleteChunk,
}

pub open spec fn node_call_text(call: NodeCall) -> Seq<char> {
    match call {
        NodeCall::Connect => "connect data node "@,
        NodeCall::PutChunk => "put chunk to "@,
        NodeCall::ReadChunk => "read chunk from "@,
        NodeCall::DeleteChunk => "delete chunk from "@,
    }
}

/// The status for a call to another node that failed.
pub fn node_unavailable(call: NodeCall, node_id: &str, detail: &str) -> (r: Status)
    ensures
        r.says(Code::Unavailable, node_call_text(call) + node_id@ + ": "@ + detail@),
{
    let head = match call {
        NodeCall::Connect => "connect data node ",
        NodeCall::PutChunk => "put chunk to ",
        NodeCall::ReadChunk => "read chunk from ",
        NodeCall::DeleteChunk => "delete chunk from ",
    };
    let mut text = head.to_owned();
    text.append(node_id);
    text.append(": ");
    text.append(detail);
    Status { code: Code::Unavailable, message: text }
}

/// The status for a stripe of another node whose stream broke before its last part.
pub fn stripe_stream_broken(detail: &str) -> (r: Status)
    ensures
        r.says(Code::Unavailable, "read chunk stream: "@ + detail@),
{
    let mut text = "read chunk stream: ".to_owned();
    text.append(detail);
    Status { code: Code::Unavailable, message: text }
}

/// Whether some stripe of a placement is on another node.
pub fn placement_has_remote_chunks(ctx: &KVServiceContext, placement: &pb::PlacementDescriptor) -> (r:
    bool)
    ensures
        r == has_remote(ctx, placement@.chunks),
{
    let chunks = &placement.chunks;
    let mut i: usize = 0;
    while i < chunks.len()
        invariant
            i <= chunks.len(),
            chunks == &placement.chunks,
            forall|k: int| 0 <= k < i ==> ctx.is_local(owner(#[trigger] placement@.chunks[k])),
        decreases chunks.len() - i,
    {
        let c = &chunks[i];
        proof {
            assert(placement@.chunks[i as int] == c@);
        }
        if !stripe_source(ctx, c) {
            return true;
        }
        i = i + 1;
    }
    false
}

/// The node that holds a stripe.
pub open spec fn owner(c: ChunkView) -> NodeView {
    NodeView { node_id: c.node_id, grpc_endpoint: c.grpc_endpoint, rdma_endpoint: c.rdma_endpoint }
}

/// Some stripe is on another node.
pub open spec fn has_remote(ctx: &KVServiceContext, chunks: Seq<ChunkView>) -> bool {
    exists|i: int| 0 <= i < chunks.len() && !ctx.is_local(owner(#[trigger] chunks[i]))
}

/// What the receiver of a streamed object does next.
pub enum PutStep {
    /// Take the next chunk from the stream.
    Receive,
    /// Start writing this stripe.
    Spawn(Stripe),
    /// Wait until one of the stripe writes is done.
    AwaitOne,
    /// Everything was answered: decide.
    Finish,
}

/// A distributed write that is fed from a stream: stripes are written as soon as they are full,
/// a few at a time, so that memory is bounded by those few rather than by the object.
pub struct StreamPut {
    assembler: StripeAssembler,
    declared_total: u64,
    input_done: bool,
    flushed: bool,
    pending: Vec<Stripe>,
    inflight: usize,
    locations: Vec<ChunkLocation>,
    local_stripes: usize,
    remote_stripes: usize,
    first_err: Option<Status>,
    spawned: Ghost<nat>,
}

impl StreamPut {
    /// All bytes received so far.
    pub closed spec fn received(&self) -> Seq<u8> {
        self.assembler.received()
    }

    pub closed spec fn size(&self) -> nat {
        self.assembler.size()
    }

    pub closed spec fn declared(&self) -> u64 {
        self.declared_total
    }

    /// Stripe writes under way.
    pub closed spec fn inflight(&self) -> nat {
        self.inflight as nat
    }

    /// Stripes whose writing was started.
    pub closed spec fn spawned(&self) -> nat {
        self.spawned@
    }

    /// Stripes that are ready and wait for their turn.
    pub closed spec fn waiting(&self) -> nat {
        self.pending@.len()
    }

    /// Nothing more is to be taken from the stream: it said so, it ended, or something failed.
    pub closed spec fn input_done(&self) -> bool {
        self.input_done
    }

    /// The last, shorter stripe was cut.
    pub closed spec fn flushed(&self) -> bool {
        self.flushed
    }

    /// Locations of the stripes written so far, in the order in which the writes ended.
    pub closed spec fn locations(&self) -> Seq<ChunkLocation> {
        self.locations@
    }

    pub closed spec fn local_stripes(&self) -> nat {
        self.local_stripes as nat
    }

    pub closed spec fn remote_stripes(&self) -> nat {
        self.remote_stripes as nat
    }

    /// The first failure.
    pub closed spec fn failure(&self) -> Option<Status> {
        self.first_err
    }

    /// Never more than a few writes are under way. As long as nothing failed, every stripe that
    /// was started is written or under way, and the stripes that were started and those that wait
    /// are, in order, all that were cut.
    pub closed spec fn wf(&self) -> bool {
        &&& self.assembler.wf()
        &&& self.assembler.size() > 0
        &&& !self.flushed ==> self.assembler.settled()
        &&& self.flushed ==> self.input_done
        &&& self.first_err is Some ==> self.input_done
        &&& self.inflight <= MAX_INFLIGHT_STRIPES
        &&& self.local_stripes + self.remote_stripes == self.locations@.len()
        &&& self.first_err is None ==> {
            &&& self.locations@.len() + self.inflight == self.spawned@
            &&& self.spawned@ + self.pending@.len() == self.assembler.given()
            &&& forall|k: int|
                0 <= k < self.pending@.len() ==> (#[trigger] self.pending@[k]).is_stripe(
                    self.assembler.received(),
                    self.assembler.size(),
                    self.spawned@ + k,
                )
            &&& self.flushed ==> self.assembler.given() == stripe_count(
                self.assembler.received().len(),
                self.assembler.size(),
            )
            &&& !self.flushed ==> self.assembler.given() * self.assembler.size()
                <= self.assembler.received().len()
        }
    }

    /// A write of a declared number of bytes, in stripes of `size` bytes.
    pub fn new(declared_total: u64, size: u64) -> (r: StreamPut)
        requires
            size > 0,
        ensures
            r.wf(),
            r.received() == Seq::<u8>::empty(),
            r.size() == size,
            r.declared() == declared_total,
            r.inflight() == 0,
            r.spawned() == 0,
            r.waiting() == 0,
            !r.input_done(),
            !r.flushed(),
            r.locations().len() == 0,
            r.local_stripes() == 0,
            r.remote_stripes() == 0,
            r.failure() is None,
    {
        proof {
            assert(0 * size == 0) by (nonlinear_arith);
        }
        StreamPut {
            assembler: StripeAssembler::new(size),
            declared_total,
            input_done: false,
            flushed: false,
            pending: Vec::new(),
            inflight: 0,
            locations: Vec::new(),
            local_stripes: 0,
            remote_stripes: 0,
            first_err: None,
            spawned: Ghost(0),
        }
    }

    /// Same answers so far, same failure.
    pub open spec fn same_outcome(&self, other: &StreamPut) -> bool {
        &&& self.locations() == other.locations()
        &&& self.failure() == other.failure()
        &&& self.declared() == other.declared()
        &&& self.size() == other.size()
        &&& self.local_stripes() == other.local_stripes()
        &&& self.remote_stripes() == other.remote_stripes()
    }

    /// Takes in a chunk from the stream.
    pub fn receive(&mut self, data: Bytes, is_last: bool)
        requires
            old(self).wf(),
            !old(self).input_done(),
            old(self).waiting() == 0,
            old(self).received().len() + payload(data).len() <= usize::MAX,
        ensures
            final(self).wf(),
            final(self).same_outcome(old(self)),
            final(self).received() == old(self).received() + payload(data),
            final(self).input_done() == is_last,
            final(self).flushed() == old(self).flushed(),
            final(self).inflight() == old(self).inflight(),
            final(self).spawned() == old(self).spawned(),
            final(self).spawned() + final(self).waiting() == final(self).received().len()
                / final(self).size(),
    {
        let ready = self.assembler.feed(data);
        self.pending = ready;
        self.input_done = is_last;
        proof {
            let n = self.assembler.received().len();
            let size = self.assembler.size();
            stripes::assembling_equals_splitting(
                self.assembler.received(),
                size,
                self.assembler.given(),
            );
        }
    }

    /// The stream ended without a last chunk.
    pub fn stream_ended(&mut self)
        requires
            old(self).wf(),
        ensures
            final(self).wf(),
            final(self).same_outcome(old(self)),
            final(self).received() == old(self).received(),
            final(self).input_done(),
            final(self).flushed() == old(self).flushed(),
            final(self).inflight() == old(self).inflight(),
            final(self).spawned() == old(self).spawned(),
            final(self).waiting() == old(self).waiting(),
    {
        self.input_done = true;
    }

    /// The stream broke. The failure counts unless there was one before.
    pub fn stream_failed(&mut self, status: Status)
        requires
            old(self).wf(),
        ensures
            final(self).wf(),
            final(self).input_done(),
            final(self).failure() == (if old(self).failure() is Some {
                old(self).failure()
            } else {
                Some(status)
            }),
            final(self).locations() == old(self).locations(),
            final(self).local_stripes() == old(self).local_stripes(),
            final(self).remote_stripes() == old(self).remote_stripes(),
            final(self).received() == old(self).received(),
            final(self).inflight() == old(self).inflight(),
            final(self).spawned() == old(self).spawned(),
            final(self).waiting() == old(self).waiting(),
            final(self).flushed() == old(self).flushed(),
            final(self).declared() == old(self).declared(),
            final(self).size() == old(self).size(),
    {
        if self.first_err.is_none() {
            self.first_err = Some(status);
        }
        self.input_done = true;
    }

    /// A stripe write ended.
    pub fn stripe_done(&mut self, result: Result<ChunkWriteResult, Status>)
        requires
            old(self).wf(),
            old(self).inflight() > 0,
        ensures
            final(self).wf(),
            final(self).inflight() == old(self).inflight() - 1,
            final(self).received() == old(self).received(),
            final(self).declared() == old(self).declared(),
            final(self).size() == old(self).size(),
            final(self).flushed() == old(self).flushed(),
            final(self).spawned() == old(self).spawned(),
            final(self).waiting() == old(self).waiting(),
            match result {
                Ok(w) => {
                    &&& final(self).locations() == old(self).locations().push(w.location)
                    &&& final(self).failure() == old(self).failure()
                    &&& final(self).input_done() == old(self).input_done()
                    &&& w.is_local ==> final(self).local_stripes() == old(self).local_stripes() + 1
                        && final(self).remote_stripes() == old(self).remote_stripes()
                    &&& !w.is_local ==> final(self).remote_stripes() == old(self).remote_stripes()
                        + 1 && final(self).local_stripes() == old(self).local_stripes()
                },
                Err(s) => {
                    &&& final(self).locations() == old(self).locations()
                    &&& final(self).local_stripes() == old(self).local_stripes()
                    &&& final(self).remote_stripes() == old(self).remote_stripes()
                    &&& final(self).failure() == (if old(self).failure() is Some {
                        old(self).failure()
                    } else {
                        Some(s)
                    })
                    &&& final(self).input_done()
                },
            },
    {
        self.inflight = self.inflight - 1;
        match result {
            Ok(w) => {
                self.locations.push(w.location);
                let n: usize = self.locations.len();
                proof {
                    assert(self.local_stripes + self.remote_stripes + 1 == n);
                }
                if w.is_local {
                    self.local_stripes = self.local_stripes + 1;
                } else {
                    self.remote_stripes = self.remote_stripes + 1;
                }
            },
            Err(s) => {
                if self.first_err.is_none() {
                    self.first_err = Some(s);
                }
                self.input_done = true;
            },
        }
    }

    /// Decides what to do next. A stripe that is ready is started once there is room; after a
    /// failure no more are. Then the stream is read on; at its end what is left is cut as the
    /// last stripe, and all writes are awaited.
    pub fn step(&mut self) -> (r: PutStep)
        requires
            old(self).wf(),
        ensures
            final(self).wf(),
            final(self).same_outcome(old(self)),
            final(self).received() == old(self).received(),
            final(self).input_done() == old(self).input_done(),
            match r {
                PutStep::AwaitOne => {
                    &&& final(self).inflight() == old(self).inflight()
                    &&& final(self).spawned() == old(self).spawned()
                    &&& old(self).inflight() > 0
                    &&& (old(self).inflight() == MAX_INFLIGHT_STRIPES && final(self).waiting() > 0)
                        || (final(self).flushed() && final(self).waiting() == 0)
                },
                PutStep::Spawn(s) => {
                    &&& old(self).failure() is None
                    &&& old(self).inflight() < MAX_INFLIGHT_STRIPES
                    &&& s.is_stripe(
                        old(self).received(),
                        old(self).size(),
                        old(self).spawned() as int,
                    )
                    &&& final(self).inflight() == old(self).inflight() + 1
                    &&& final(self).spawned() == old(self).spawned() + 1
                    &&& final(self).flushed() == (old(self).flushed() || old(self).waiting() == 0)
                    &&& final(self).waiting() == (if old(self).waiting() == 0 {
                        0
                    } else {
                        old(self).waiting() - 1
                    })
                },
                PutStep::Receive => {
                    &&& !old(self).input_done()
                    &&& final(self).waiting() == 0
                    &&& final(self).inflight() == old(self).inflight()
                    &&& final(self).spawned() == old(self).spawned()
                    &&& old(self).failure() is None
                },
                PutStep::Finish => {
                    &&& old(self).input_done()
                    &&& final(self).flushed()
                    &&& final(self).waiting() == 0
                    &&& final(self).inflight() == 0
                    &&& old(self).inflight() == 0
                    &&& final(self).spawned() == old(self).spawned()
                    &&& old(self).failure() is None ==> final(self).spawned() == stripe_count(
                        final(self).received().len(),
                        final(self).size(),
                    )
                },
            },
    {
        if self.pending.len() == 0 && self.input_done && !self.flushed {
            if self.first_err.is_none() {
                match self.assembler.flush() {
                    Some(s) => {
                        self.pending.push(s);
                    },
                    None => {},
                }
            }
            self.flushed = true;
        }
        if self.pending.len() > 0 {
            if self.inflight >= MAX_INFLIGHT_STRIPES {
                return PutStep::AwaitOne;
            }
            if self.first_err.is_none() {
                let ghost waiting = self.pending@;
                let s = self.pending.remove(0);
                self.inflight = self.inflight + 1;
                proof {
                    assert(s == waiting[0]);
                    assert(self.pending@ =~= waiting.skip(1));
                    self.spawned = Ghost(self.spawned@ + 1);
                    assert forall|k: int| 0 <= k < self.pending@.len() implies (
                    #[trigger] self.pending@[k]).is_stripe(
                        self.assembler.received(),
                        self.assembler.size(),
                        self.spawned@ + k,
                    ) by {
                        assert(self.pending@[k] == waiting[k + 1]);
                    }
                }
                return PutStep::Spawn(s);
            }
            self.pending = Vec::new();
        }
        if !self.input_done {
            return PutStep::Receive;
        }
        if self.inflight > 0 {
            self.flushed = true;
            return PutStep::AwaitOne;
        }
        self.flushed = true;
        PutStep::Finish
    }

    /// Decides over a stream whose writes were all answered: a failure refuses the object, and
    /// so does a length other than the declared one; otherwise the record is published with the
    /// stripes in order.
    pub fn finish(self, key: &ObjectKey, prepared: BlockMeta) -> (r: WriteVerdict)
        requires
            self.wf(),
            self.flushed(),
            self.waiting() == 0,
            self.inflight() == 0,
        ensures
            match r {
                WriteVerdict::Refuse { status, rollback } => {
                    &&& chunk_views(rollback@) == location_views(self.locations())
                    &&& match self.failure() {
                        Some(s) => status == s,
                        None => self.received().len() != self.declared() && status.says(
                            Code::InvalidArgument,
                            "stream length mismatch: declared "@ + decimal(self.declared() as nat)
                                + " received "@ + decimal(self.received().len()),
                        ),
                    }
                },
                WriteVerdict::Commit { meta, rollback } => {
                    &&& self.failure() is None
                    &&& self.received().len() == self.declared()
                    &&& self.locations().len() == stripe_count(
                        self.received().len(),
                        self.size(),
                    )
                    &&& meta@ == committed(
                        prepared@,
                        ordered_views(self.locations()),
                        self.declared(),
                        self.size() as u64,
                    )
                    &&& chunk_views(rollback@) == ordered_views(self.locations())
                },
            },
    {
        let received: u64 = self.assembler.received_total() as u64;
        let size: u64 = self.assembler.stripe_size();
        let locations = self.locations;
        let failure: Option<Status> = match self.first_err {
            Some(s) => Some(s),
            None => if received != self.declared_total {
                let mut text = "stream length mismatch: declared ".to_owned();
                text::push_decimal(&mut text, self.declared_total);
                text.append(" received ");
                text::push_decimal(&mut text, received);
                Some(Status { code: Code::InvalidArgument, message: text })
            } else {
                None
            },
        };
        match failure {
            Some(status) => {
                let rollback = to_pb_chunks(key, &locations);
                WriteVerdict::Refuse { status, rollback }
            },
            None => {
                let locations = arrange(locations);
                let rollback = to_pb_chunks(key, &locations);
                let meta = commit_record(prepared, locations, self.declared_total, size);
                WriteVerdict::Commit { meta, rollback }
            },
        }
    }
}

} // verus!
